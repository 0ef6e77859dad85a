# vecq

Training-free vector quantization and search, verified with Verus.

A vector is truncated to its working dimensions, normalized, rotated by a
seeded randomized Hadamard transform, and quantized coordinate by coordinate with
fixed Lloyd-Max tables of four, five or six bits; a second pass over what the
first one left is optional. Queries stay unquantized. An index can be kept in
memory, written to a single file, read back, or viewed in the bytes of its file.

## Numbers

The library works on binary32 bit patterns (`u32`) and never computes with floats
itself. Each function that needs arithmetic takes a function
`Fn(Op, u32, u32) -> u32`, and its contract says which operations are applied to
which patterns, in which order. With native arithmetic,

```rust
fn native(op: Op, a: u32, b: u32) -> u32 {
    let (x, y) = (f32::from_bits(a), f32::from_bits(b));
    let r = match op {
        Op::Add => x + y,
        Op::Sub => x - y,
        Op::Mul => x * y,
        Op::Div => x / y,
        Op::Sqrt => x.sqrt(),
    };
    r.to_bits()
}
```

results are the same bits on every platform with binary32 arithmetic.

## Layout

- `src/`: the verified library. `state` holds the model of an index that the
  contracts speak of; `answers`, `edits`, `history`, `reload`, `variants`, `energy`,
  `spread`, `similarity` and `view` hold laws that relate several functions.
  `rounding` says what binary32 arithmetic does to real numbers.
- `tests/`: tests with native arithmetic.
- `app/`: benchmarks over `f32` data and comparisons with other engines.

## What is proved

- The answer of a search holds the best live vectors, best first, with their
  exact scores; compaction changes nothing in it but slot numbers.
- Scoring four vectors at once gives the bits of scoring them one by one.
- What is written is read back: live vectors, keys, and scales rounded to half
  precision; writing that again gives the same bytes.
- A view over a file and an index loaded from it give the same answers, and a view
  rejects any file that the loader would reject.
- No file that is cut short is accepted; files of older versions give the same
  answers.
- The bytes of a file depend on nothing but the dimension, the seed and the calls
  that filled the index; compacting it first changes nothing in them.
- With arithmetic that rounds as binary32 does, a score of an index without a
  second pass is at most one in magnitude, up to rounding, and writing and reading
  the index moves it by less than a thousandth.
- Half-precision conversion rounds to nearest, ties to even; packing of codes
  loses nothing; and, where arithmetic is exact, the transform multiplies the
  energy of a vector by its length and is its own inverse up to that factor.
