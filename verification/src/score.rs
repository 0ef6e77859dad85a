//! Asymmetric scoring kernels: a query of binary32 values against packed codes.
//!
//! The order in which products are added is part of the contract: eight buckets
//! take the coordinate pairs in turn, a tail takes what is left over, and a
//! fixed pairwise tree reduces the buckets. Scoring one vector and scoring four
//! at once give the same result, bit for bit.

use vstd::prelude::*;

use crate::arith::{is_arithmetic, meaning, operate, Meaning, Op, ZERO};
use crate::codes::{code_at, nth_piece, packed_len, piece, read_code};
use crate::lloyd::{is_width, level_count};

verus! {

/// The contribution of coordinate pair `u`: the products of its two query
/// coordinates with the values of their codes, added.
pub open spec fn pair_term(
    f: Meaning,
    codes: Seq<u8>,
    bits: u8,
    q: Seq<u32>,
    lut: Seq<u32>,
    u: int,
) -> u32 {
    let even = f(Op::Mul, q[2 * u], lut[code_at(codes, bits, 2 * u) as int]);
    if 2 * u + 1 < q.len() {
        f(Op::Add, even, f(Op::Mul, q[2 * u + 1], lut[code_at(codes, bits, 2 * u + 1) as int]))
    } else {
        even
    }
}

/// Bucket `j` after `blocks` blocks of eight pairs.
pub open spec fn bucket(
    f: Meaning,
    codes: Seq<u8>,
    bits: u8,
    q: Seq<u32>,
    lut: Seq<u32>,
    j: int,
    blocks: nat,
) -> u32
    decreases blocks,
{
    if blocks == 0 {
        ZERO
    } else {
        f(
            Op::Add,
            bucket(f, codes, bits, q, lut, j, (blocks - 1) as nat),
            pair_term(f, codes, bits, q, lut, 8 * (blocks - 1) + j),
        )
    }
}

/// The sum of the pairs `from..to`, added up from the front.
pub open spec fn tail(
    f: Meaning,
    codes: Seq<u8>,
    bits: u8,
    q: Seq<u32>,
    lut: Seq<u32>,
    from: int,
    to: int,
) -> u32
    decreases to - from,
{
    if to <= from {
        ZERO
    } else {
        f(
            Op::Add,
            tail(f, codes, bits, q, lut, from, to - 1),
            pair_term(f, codes, bits, q, lut, to - 1),
        )
    }
}

/// Number of coordinate pairs of a query of length `n`. A coordinate without a
/// partner makes one of its own where the codes have room for it.
pub open spec fn pair_count(n: nat, bits: u8) -> nat {
    if bits == 4 {
        n / 2
    } else {
        ((n + 1) / 2) as nat
    }
}

/// The pairwise tree over eight buckets, and the tail.
pub open spec fn reduced(f: Meaning, b: Seq<u32>, rest: u32) -> u32 {
    let s01 = f(Op::Add, b[0], b[1]);
    let s23 = f(Op::Add, b[2], b[3]);
    let s45 = f(Op::Add, b[4], b[5]);
    let s67 = f(Op::Add, b[6], b[7]);
    f(Op::Add, f(Op::Add, f(Op::Add, s01, s23), f(Op::Add, s45, s67)), rest)
}

/// The unscaled score of packed codes against a query.
#[verifier::opaque]
pub open spec fn raw_score(
    f: Meaning,
    codes: Seq<u8>,
    bits: u8,
    q: Seq<u32>,
    lut: Seq<u32>,
) -> u32 {
    let pairs = pair_count(q.len(), bits);
    let blocks = pairs / 8;
    reduced(
        f,
        Seq::new(8, |j: int| bucket(f, codes, bits, q, lut, j, blocks)),
        tail(f, codes, bits, q, lut, (8 * blocks) as int, pairs as int),
    )
}

/// What a kernel needs of its inputs: codes for every query coordinate, and a
/// value for every code.
pub open spec fn kernel_inputs(codes: Seq<u8>, bits: u8, q: Seq<u32>, lut: Seq<u32>) -> bool {
    &&& is_width(bits)
    &&& q.len() * bits + 7 <= usize::MAX
    &&& codes.len() == packed_len(q.len(), bits)
    &&& lut.len() == level_count(bits)
}

/// Number of coordinate pairs of a query of length `n`.
fn pairs_of(n: usize, bits: u8) -> (r: usize)
    ensures
        r == pair_count(n as nat, bits),
{
    if bits == 4 {
        n / 2
    } else {
        n / 2 + n % 2
    }
}

/// The contribution of one coordinate pair.
fn term<A: Fn(Op, u32, u32) -> u32>(
    codes: &[u8],
    bits: u8,
    q: &[u32],
    lut: &[u32],
    u: usize,
    arith: &A,
) -> (r: u32)
    requires
        is_arithmetic(*arith),
        kernel_inputs(codes@, bits, q@, lut@),
        u < pair_count(q@.len(), bits),
    ensures
        r == pair_term(meaning(*arith), codes@, bits, q@, lut@, u as int),
{
    let c: usize = 2 * u;
    proof {
        let n = q@.len() as int;
        let b = bits as int;
        assert((c + 1) * b <= n * b) by (nonlinear_arith)
            requires
                c + 1 <= n,
                b >= 0,
        ;
        assert((c + 1) * b == c * b + b) by (nonlinear_arith);
        if c + 1 < n {
            assert((c + 2) * b <= n * b) by (nonlinear_arith)
                requires
                    c + 2 <= n,
                    b >= 0,
            ;
            assert((c + 2) * b == (c + 1) * b + b) by (nonlinear_arith);
        }
    }
    let lo: u8 = read_code(codes, bits, c);
    let even: u32 = operate(arith, Op::Mul, q[c], lut[lo as usize]);
    if c + 1 < q.len() {
        let hi: u8 = read_code(codes, bits, c + 1);
        let odd: u32 = operate(arith, Op::Mul, q[c + 1], lut[hi as usize]);
        operate(arith, Op::Add, even, odd)
    } else {
        even
    }
}

/// The buckets hold the sums of the first `blocks` blocks.
spec fn buckets_at(
    f: Meaning,
    acc: Seq<u32>,
    codes: Seq<u8>,
    bits: u8,
    q: Seq<u32>,
    lut: Seq<u32>,
    blocks: nat,
) -> bool {
    &&& acc.len() == 8
    &&& forall|j: int| 0 <= j < 8 ==> #[trigger] acc[j] == bucket(f, codes, bits, q, lut, j, blocks)
}

/// Add one block of eight pairs to the buckets.
fn add_block<A: Fn(Op, u32, u32) -> u32>(
    acc: &mut [u32; 8],
    codes: &[u8],
    bits: u8,
    q: &[u32],
    lut: &[u32],
    block: usize,
    arith: &A,
)
    requires
        is_arithmetic(*arith),
        kernel_inputs(codes@, bits, q@, lut@),
        8 * block + 8 <= pair_count(q@.len(), bits),
        buckets_at(meaning(*arith), old(acc)@, codes@, bits, q@, lut@, block as nat),
    ensures
        buckets_at(meaning(*arith), final(acc)@, codes@, bits, q@, lut@, (block + 1) as nat),
{
    let ghost f = meaning(*arith);
    let n: usize = q.len();
    let mut j: usize = 0;
    while j < 8
        invariant
            is_arithmetic(*arith),
            f == meaning(*arith),
            kernel_inputs(codes@, bits, q@, lut@),
            n == q@.len(),
            8 * block + 8 <= pair_count(q@.len(), bits),
            j <= 8,
            forall|p: int|
                0 <= p < j ==> #[trigger] acc@[p] == bucket(
                    f,
                    codes@,
                    bits,
                    q@,
                    lut@,
                    p,
                    (block + 1) as nat,
                ),
            forall|p: int|
                j <= p < 8 ==> #[trigger] acc@[p] == bucket(
                    f,
                    codes@,
                    bits,
                    q@,
                    lut@,
                    p,
                    block as nat,
                ),
        decreases 8 - j,
    {
        let t: u32 = term(codes, bits, q, lut, 8 * block + j, arith);
        let sum: u32 = operate(arith, Op::Add, acc[j], t);
        acc[j] = sum;
        j = j + 1;
    }
}

/// Add the left-over pairs and reduce.
fn finish<A: Fn(Op, u32, u32) -> u32>(
    acc: &[u32; 8],
    codes: &[u8],
    bits: u8,
    q: &[u32],
    lut: &[u32],
    arith: &A,
) -> (r: u32)
    requires
        is_arithmetic(*arith),
        kernel_inputs(codes@, bits, q@, lut@),
        buckets_at(meaning(*arith), acc@, codes@, bits, q@, lut@, pair_count(q@.len(), bits) / 8),
    ensures
        r == raw_score(meaning(*arith), codes@, bits, q@, lut@),
{
    proof {
        reveal(raw_score);
    }
    let ghost f = meaning(*arith);
    let pairs: usize = pairs_of(q.len(), bits);
    let from: usize = pairs - pairs % 8;
    let mut rest: u32 = ZERO;
    let mut u: usize = from;
    while u < pairs
        invariant
            is_arithmetic(*arith),
            f == meaning(*arith),
            kernel_inputs(codes@, bits, q@, lut@),
            pairs == pair_count(q@.len(), bits),
            from <= u <= pairs,
            rest == tail(f, codes@, bits, q@, lut@, from as int, u as int),
        decreases pairs - u,
    {
        let t: u32 = term(codes, bits, q, lut, u, arith);
        rest = operate(arith, Op::Add, rest, t);
        u = u + 1;
    }
    let s01: u32 = operate(arith, Op::Add, acc[0], acc[1]);
    let s23: u32 = operate(arith, Op::Add, acc[2], acc[3]);
    let s45: u32 = operate(arith, Op::Add, acc[4], acc[5]);
    let s67: u32 = operate(arith, Op::Add, acc[6], acc[7]);
    let left: u32 = operate(arith, Op::Add, s01, s23);
    let right: u32 = operate(arith, Op::Add, s45, s67);
    let sum: u32 = operate(arith, Op::Add, left, right);
    operate(arith, Op::Add, sum, rest)
}

/// Score one vector's codes against a query.
pub fn score_scalar<A: Fn(Op, u32, u32) -> u32>(
    codes: &[u8],
    bits: u8,
    q: &[u32],
    lut: &[u32],
    arith: &A,
) -> (r: u32)
    requires
        is_arithmetic(*arith),
        kernel_inputs(codes@, bits, q@, lut@),
    ensures
        r == raw_score(meaning(*arith), codes@, bits, q@, lut@),
{
    let ghost f = meaning(*arith);
    let pairs: usize = pairs_of(q.len(), bits);
    let blocks: usize = pairs / 8;
    let mut acc: [u32; 8] = [ZERO; 8];
    let mut block: usize = 0;
    while block < blocks
        invariant
            is_arithmetic(*arith),
            f == meaning(*arith),
            kernel_inputs(codes@, bits, q@, lut@),
            pairs == pair_count(q@.len(), bits),
            blocks == pairs / 8,
            block <= blocks,
            buckets_at(f, acc@, codes@, bits, q@, lut@, block as nat),
        decreases blocks - block,
    {
        add_block(&mut acc, codes, bits, q, lut, block, arith);
        block = block + 1;
    }
    finish(&acc, codes, bits, q, lut, arith)
}

/// Score four vectors at once, block by block, so that the query is walked once.
fn score_four_codes<A: Fn(Op, u32, u32) -> u32>(
    c0: &[u8],
    c1: &[u8],
    c2: &[u8],
    c3: &[u8],
    bits: u8,
    q: &[u32],
    lut: &[u32],
    arith: &A,
) -> (r: [u32; 4])
    requires
        is_arithmetic(*arith),
        kernel_inputs(c0@, bits, q@, lut@),
        kernel_inputs(c1@, bits, q@, lut@),
        kernel_inputs(c2@, bits, q@, lut@),
        kernel_inputs(c3@, bits, q@, lut@),
    ensures
        r@[0] == raw_score(meaning(*arith), c0@, bits, q@, lut@),
        r@[1] == raw_score(meaning(*arith), c1@, bits, q@, lut@),
        r@[2] == raw_score(meaning(*arith), c2@, bits, q@, lut@),
        r@[3] == raw_score(meaning(*arith), c3@, bits, q@, lut@),
{
    let ghost f = meaning(*arith);
    let pairs: usize = pairs_of(q.len(), bits);
    let blocks: usize = pairs / 8;
    let mut a0: [u32; 8] = [ZERO; 8];
    let mut a1: [u32; 8] = [ZERO; 8];
    let mut a2: [u32; 8] = [ZERO; 8];
    let mut a3: [u32; 8] = [ZERO; 8];
    let mut block: usize = 0;
    while block < blocks
        invariant
            is_arithmetic(*arith),
            f == meaning(*arith),
            kernel_inputs(c0@, bits, q@, lut@),
            kernel_inputs(c1@, bits, q@, lut@),
            kernel_inputs(c2@, bits, q@, lut@),
            kernel_inputs(c3@, bits, q@, lut@),
            pairs == pair_count(q@.len(), bits),
            blocks == pairs / 8,
            block <= blocks,
            buckets_at(f, a0@, c0@, bits, q@, lut@, block as nat),
            buckets_at(f, a1@, c1@, bits, q@, lut@, block as nat),
            buckets_at(f, a2@, c2@, bits, q@, lut@, block as nat),
            buckets_at(f, a3@, c3@, bits, q@, lut@, block as nat),
        decreases blocks - block,
    {
        add_block(&mut a0, c0, bits, q, lut, block, arith);
        add_block(&mut a1, c1, bits, q, lut, block, arith);
        add_block(&mut a2, c2, bits, q, lut, block, arith);
        add_block(&mut a3, c3, bits, q, lut, block, arith);
        block = block + 1;
    }
    let r0: u32 = finish(&a0, c0, bits, q, lut, arith);
    let r1: u32 = finish(&a1, c1, bits, q, lut, arith);
    let r2: u32 = finish(&a2, c2, bits, q, lut, arith);
    let r3: u32 = finish(&a3, c3, bits, q, lut, arith);
    [r0, r1, r2, r3]
}

/// Score four consecutive vectors at once.
pub fn score_batch4<A: Fn(Op, u32, u32) -> u32>(
    codes4: &[u8],
    bits: u8,
    q: &[u32],
    lut: &[u32],
    arith: &A,
) -> (r: [u32; 4])
    requires
        is_arithmetic(*arith),
        is_width(bits),
        q@.len() * bits + 7 <= usize::MAX,
        codes4@.len() == 4 * packed_len(q@.len(), bits),
        lut@.len() == level_count(bits),
    ensures
        forall|v: int|
            0 <= v < 4 ==> #[trigger] r@[v] == raw_score(
                meaning(*arith),
                piece(codes4@, packed_len(q@.len(), bits), v),
                bits,
                q@,
                lut@,
            ),
{
    let ghost w = packed_len(q@.len(), bits);
    let nb: usize = codes4.len() / 4;
    proof {
        assert(nb == w);
        assert(0 * w == 0 && 1 * w == w && 2 * w == w + w && 3 * w == w + w + w && 4 * w == w + w
            + w + w) by (nonlinear_arith);
    }
    let c0 = nth_piece(codes4, nb, 0, 4);
    let c1 = nth_piece(codes4, nb, 1, 4);
    let c2 = nth_piece(codes4, nb, 2, 4);
    let c3 = nth_piece(codes4, nb, 3, 4);
    score_four_codes(c0, c1, c2, c3, bits, q, lut, arith)
}

} // verus!
