//! Bit packing of quantizer codes.
//!
//! The codes of a vector form one stream of bits, least significant bit first:
//! code `i` takes the bits `i * bits .. (i + 1) * bits` of the stream, and bit
//! `p` of the stream is bit `p % 8` of byte `p / 8`. At four bits this is two
//! codes per byte, the even one in the low nibble; a byte holds a pair there, and
//! a code without a partner takes none.

use vstd::arithmetic::div_mod::lemma_fundamental_div_mod_converse;
use vstd::prelude::*;
use vstd::slice::slice_subrange;

use crate::lloyd::{is_width, level_count};

verus! {

/// Number of bytes that `n` codes take.
pub open spec fn packed_len(n: nat, bits: u8) -> nat {
    if bits == 4 {
        n / 2
    } else {
        ((n * bits + 7) / 8) as nat
    }
}

/// The byte at `i`, zero beyond the end.
pub open spec fn byte_at(bytes: Seq<u8>, i: int) -> u8 {
    if i < bytes.len() {
        bytes[i]
    } else {
        0
    }
}

/// The `bits` low bits of a two-byte window from bit `offset` on.
pub open spec fn window(lo: u8, hi: u8, offset: u16, bits: u8) -> u8 {
    let w = (lo as u16) | ((hi as u16) << 8u16);
    ((w >> offset) & (if bits == 4 {
        15u16
    } else if bits == 5 {
        31u16
    } else {
        63u16
    })) as u8
}

/// Code `i` of packed bytes.
pub open spec fn code_at(bytes: Seq<u8>, bits: u8, i: int) -> u8 {
    let p = i * bits;
    window(byte_at(bytes, p / 8), byte_at(bytes, p / 8 + 1), (p % 8) as u16, bits)
}

/// Bit `p` of the stream of `codes`, zero beyond the end.
pub open spec fn stream_bit(codes: Seq<u8>, bits: u8, p: int) -> u8 {
    if p < codes.len() * bits {
        (codes[p / bits as int] >> ((p % bits as int) as u8)) & 1u8
    } else {
        0
    }
}

/// The byte with the given bits, least significant first.
pub open spec fn byte_of(b0: u8, b1: u8, b2: u8, b3: u8, b4: u8, b5: u8, b6: u8, b7: u8) -> u8 {
    b0 | (b1 << 1u8) | (b2 << 2u8) | (b3 << 3u8) | (b4 << 4u8) | (b5 << 5u8) | (b6 << 6u8) | (b7
        << 7u8)
}

/// Byte `j` of the stream of `codes`.
pub open spec fn packed_byte(codes: Seq<u8>, bits: u8, j: int) -> u8 {
    byte_of(
        stream_bit(codes, bits, 8 * j),
        stream_bit(codes, bits, 8 * j + 1),
        stream_bit(codes, bits, 8 * j + 2),
        stream_bit(codes, bits, 8 * j + 3),
        stream_bit(codes, bits, 8 * j + 4),
        stream_bit(codes, bits, 8 * j + 5),
        stream_bit(codes, bits, 8 * j + 6),
        stream_bit(codes, bits, 8 * j + 7),
    )
}

/// The packed bytes of `codes`.
pub open spec fn packed(codes: Seq<u8>, bits: u8) -> Seq<u8> {
    Seq::new(packed_len(codes.len(), bits), |j: int| packed_byte(codes, bits, j))
}

proof fn lemma_bits_of_byte(
    b0: u8,
    b1: u8,
    b2: u8,
    b3: u8,
    b4: u8,
    b5: u8,
    b6: u8,
    b7: u8,
)
    requires
        b0 <= 1 && b1 <= 1 && b2 <= 1 && b3 <= 1 && b4 <= 1 && b5 <= 1 && b6 <= 1 && b7 <= 1,
    ensures
        ({
            let b = byte_of(b0, b1, b2, b3, b4, b5, b6, b7);
            &&& (b >> 0u8) & 1u8 == b0
            &&& (b >> 1u8) & 1u8 == b1
            &&& (b >> 2u8) & 1u8 == b2
            &&& (b >> 3u8) & 1u8 == b3
            &&& (b >> 4u8) & 1u8 == b4
            &&& (b >> 5u8) & 1u8 == b5
            &&& (b >> 6u8) & 1u8 == b6
            &&& (b >> 7u8) & 1u8 == b7
        }),
{
    let b = byte_of(b0, b1, b2, b3, b4, b5, b6, b7);
    assert((b >> 0u8) & 1u8 == b0 && (b >> 1u8) & 1u8 == b1 && (b >> 2u8) & 1u8 == b2 && (b >> 3u8)
        & 1u8 == b3 && (b >> 4u8) & 1u8 == b4 && (b >> 5u8) & 1u8 == b5 && (b >> 6u8) & 1u8 == b6
        && (b >> 7u8) & 1u8 == b7) by (bit_vector)
        requires
            b == b0 | (b1 << 1u8) | (b2 << 2u8) | (b3 << 3u8) | (b4 << 4u8) | (b5 << 5u8) | (b6
                << 6u8) | (b7 << 7u8),
            b0 <= 1 && b1 <= 1 && b2 <= 1 && b3 <= 1 && b4 <= 1 && b5 <= 1 && b6 <= 1 && b7 <= 1,
    ;
}

proof fn lemma_stream_bit_is_bit(codes: Seq<u8>, bits: u8, p: int)
    ensures
        stream_bit(codes, bits, p) <= 1,
{
    let c = codes[p / bits as int];
    let s = (p % bits as int) as u8;
    assert((c >> s) & 1u8 <= 1) by (bit_vector);
}

/// A bit of a packed byte is a bit of the stream.
pub proof fn lemma_packed_bit(codes: Seq<u8>, bits: u8, j: int, t: u8)
    requires
        t < 8,
    ensures
        (packed_byte(codes, bits, j) >> t) & 1u8 == stream_bit(codes, bits, 8 * j + t),
{
    lemma_stream_bit_is_bit(codes, bits, 8 * j);
    lemma_stream_bit_is_bit(codes, bits, 8 * j + 1);
    lemma_stream_bit_is_bit(codes, bits, 8 * j + 2);
    lemma_stream_bit_is_bit(codes, bits, 8 * j + 3);
    lemma_stream_bit_is_bit(codes, bits, 8 * j + 4);
    lemma_stream_bit_is_bit(codes, bits, 8 * j + 5);
    lemma_stream_bit_is_bit(codes, bits, 8 * j + 6);
    lemma_stream_bit_is_bit(codes, bits, 8 * j + 7);
    lemma_bits_of_byte(
        stream_bit(codes, bits, 8 * j),
        stream_bit(codes, bits, 8 * j + 1),
        stream_bit(codes, bits, 8 * j + 2),
        stream_bit(codes, bits, 8 * j + 3),
        stream_bit(codes, bits, 8 * j + 4),
        stream_bit(codes, bits, 8 * j + 5),
        stream_bit(codes, bits, 8 * j + 6),
        stream_bit(codes, bits, 8 * j + 7),
    );
}

/// A bit of a window is a bit of one of its two bytes.
pub proof fn lemma_window_bit(lo: u8, hi: u8, offset: u16, bits: u8, s: u8)
    requires
        is_width(bits),
        offset < 8,
        s < bits,
    ensures
        offset + s < 8 ==> (window(lo, hi, offset, bits) >> s) & 1u8 == (lo >> ((offset + s) as u8))
            & 1u8,
        offset + s >= 8 ==> (window(lo, hi, offset, bits) >> s) & 1u8 == (hi >> ((offset + s
            - 8) as u8)) & 1u8,
{
    let m: u16 = if bits == 4 {
        15
    } else if bits == 5 {
        31
    } else {
        63
    };
    let w = (lo as u16) | ((hi as u16) << 8u16);
    let r = ((w >> offset) & m) as u8;
    if offset + s < 8 {
        let t = (offset + s) as u8;
        assert((r >> s) & 1u8 == (lo >> t) & 1u8) by (bit_vector)
            requires
                w == (lo as u16) | ((hi as u16) << 8u16),
                r == ((w >> offset) & m) as u8,
                bits == 4 && m == 15 || bits == 5 && m == 31 || bits == 6 && m == 63,
                offset < 8,
                s < bits,
                t < 8,
                t == offset + s,
        ;
    } else {
        let t = (offset + s - 8) as u8;
        assert((r >> s) & 1u8 == (hi >> t) & 1u8) by (bit_vector)
            requires
                w == (lo as u16) | ((hi as u16) << 8u16),
                r == ((w >> offset) & m) as u8,
                bits == 4 && m == 15 || bits == 5 && m == 31 || bits == 6 && m == 63,
                offset < 8,
                s < bits,
                t < 8,
                t + 8 == offset + s,
        ;
    }
}

proof fn lemma_window_range(lo: u8, hi: u8, offset: u16, bits: u8)
    requires
        is_width(bits),
        offset < 8,
    ensures
        window(lo, hi, offset, bits) < level_count(bits),
{
    let w = (lo as u16) | ((hi as u16) << 8u16);
    assert(((w >> offset) & 15u16) as u8 <= 15) by (bit_vector);
    assert(((w >> offset) & 31u16) as u8 <= 31) by (bit_vector);
    assert(((w >> offset) & 63u16) as u8 <= 63) by (bit_vector);
}

/// Every code read from packed bytes is a level of its width, whatever the
/// bytes.
pub proof fn law_code_at_range(bytes: Seq<u8>, bits: u8, i: int)
    requires
        is_width(bits),
        i >= 0,
    ensures
        code_at(bytes, bits, i) < level_count(bits),
{
    let p = i * bits;
    assert(p >= 0) by (nonlinear_arith)
        requires
            p == i * bits,
            i >= 0,
            bits >= 0,
    ;
    lemma_window_range(
        byte_at(bytes, p / 8),
        byte_at(bytes, p / 8 + 1),
        (p % 8) as u16,
        bits,
    );
}

proof fn lemma_equal_by_bits(a: u8, b: u8)
    requires
        a < 64,
        b < 64,
        (a >> 0u8) & 1u8 == (b >> 0u8) & 1u8,
        (a >> 1u8) & 1u8 == (b >> 1u8) & 1u8,
        (a >> 2u8) & 1u8 == (b >> 2u8) & 1u8,
        (a >> 3u8) & 1u8 == (b >> 3u8) & 1u8,
        (a >> 4u8) & 1u8 == (b >> 4u8) & 1u8,
        (a >> 5u8) & 1u8 == (b >> 5u8) & 1u8,
    ensures
        a == b,
{
    assert(a == b) by (bit_vector)
        requires
            a < 64,
            b < 64,
            (a >> 0u8) & 1u8 == (b >> 0u8) & 1u8,
            (a >> 1u8) & 1u8 == (b >> 1u8) & 1u8,
            (a >> 2u8) & 1u8 == (b >> 2u8) & 1u8,
            (a >> 3u8) & 1u8 == (b >> 3u8) & 1u8,
            (a >> 4u8) & 1u8 == (b >> 4u8) & 1u8,
            (a >> 5u8) & 1u8 == (b >> 5u8) & 1u8,
    ;
}

proof fn lemma_unpacked_bit(codes: Seq<u8>, bits: u8, i: int, s: u8)
    requires
        is_width(bits),
        0 <= i < codes.len(),
        bits == 4 ==> codes.len() % 2 == 0,
        s < bits,
    ensures
        (code_at(packed(codes, bits), bits, i) >> s) & 1u8 == (codes[i] >> s) & 1u8,
{
    let p = i * bits;
    let n = codes.len() as int;
    assert(0 <= p && p + bits <= n * bits) by (nonlinear_arith)
        requires
            p == i * bits,
            0 <= i,
            i + 1 <= n,
            bits >= 0,
    ;
    let offset = (p % 8) as u16;
    let bytes = packed(codes, bits);
    let lo = byte_at(bytes, p / 8);
    let hi = byte_at(bytes, p / 8 + 1);
    lemma_window_bit(lo, hi, offset, bits, s);
    lemma_fundamental_div_mod_converse(p + s, bits as int, i, s as int);
    assert(stream_bit(codes, bits, p + s) == (codes[i] >> s) & 1u8);
    assert(bytes.len() == (n * bits + 7) / 8);
    if offset + s < 8 {
        assert(p / 8 < bytes.len());
        lemma_packed_bit(codes, bits, p / 8, (offset + s) as u8);
        assert(8 * (p / 8) + (offset + s) == p + s);
    } else {
        assert(p / 8 + 1 < bytes.len());
        lemma_packed_bit(codes, bits, p / 8 + 1, (offset + s - 8) as u8);
        assert(8 * (p / 8 + 1) + (offset + s - 8) == p + s);
    }
}

/// Unpacking gives back what was packed; at four bits, of codes that come in
/// pairs.
pub proof fn law_unpack_undoes_pack(codes: Seq<u8>, bits: u8, i: int)
    requires
        is_width(bits),
        0 <= i < codes.len(),
        bits == 4 ==> codes.len() % 2 == 0,
        codes[i] < level_count(bits),
    ensures
        code_at(packed(codes, bits), bits, i) == codes[i],
{
    let a = code_at(packed(codes, bits), bits, i);
    let b = codes[i];
    law_code_at_range(packed(codes, bits), bits, i);
    lemma_unpacked_bit(codes, bits, i, 0);
    lemma_unpacked_bit(codes, bits, i, 1);
    lemma_unpacked_bit(codes, bits, i, 2);
    lemma_unpacked_bit(codes, bits, i, 3);
    if bits >= 5 {
        lemma_unpacked_bit(codes, bits, i, 4);
    } else {
        assert((a >> 4u8) & 1u8 == (b >> 4u8) & 1u8) by (bit_vector)
            requires
                a < 16,
                b < 16,
        ;
    }
    if bits >= 6 {
        lemma_unpacked_bit(codes, bits, i, 5);
    } else {
        assert((a >> 5u8) & 1u8 == (b >> 5u8) & 1u8) by (bit_vector)
            requires
                a < 32,
                b < 32,
        ;
    }
    lemma_equal_by_bits(a, b);
}

/// At four bits, a byte holds an even code in its low nibble and the following
/// odd one in its high nibble.
pub proof fn law_four_bits_are_nibbles(bytes: Seq<u8>, j: int)
    requires
        0 <= j < bytes.len(),
    ensures
        code_at(bytes, 4, 2 * j) == bytes[j] % 16,
        code_at(bytes, 4, 2 * j + 1) == bytes[j] / 16,
{
    let lo = bytes[j];
    let hi = byte_at(bytes, j + 1);
    let w = (lo as u16) | ((hi as u16) << 8u16);
    assert(((w >> 0u16) & 15u16) as u8 == lo % 16 && ((w >> 4u16) & 15u16) as u8 == lo / 16)
        by (bit_vector)
        requires
            w == (lo as u16) | ((hi as u16) << 8u16),
    ;
}

/// Number of bytes that `n` codes take.
pub fn bytes_per_vector(n: usize, bits: u8) -> (r: usize)
    requires
        is_width(bits),
        n * bits + 7 <= usize::MAX,
    ensures
        r == packed_len(n as nat, bits),
{
    if bits == 4 {
        n / 2
    } else {
        (n * bits as usize + 7) / 8
    }
}

/// Read code `i` of packed bytes.
pub fn read_code(bytes: &[u8], bits: u8, i: usize) -> (r: u8)
    requires
        is_width(bits),
        i * bits < 8 * bytes@.len(),
        i * bits <= usize::MAX,
    ensures
        r == code_at(bytes@, bits, i as int),
        r < level_count(bits),
{
    let p: usize = i * bits as usize;
    let j: usize = p / 8;
    let offset: u16 = (p % 8) as u16;
    let lo: u8 = bytes[j];
    let hi: u8 = if j + 1 < bytes.len() {
        bytes[j + 1]
    } else {
        0
    };
    proof {
        lemma_window_range(lo, hi, offset, bits);
    }
    let mask: u16 = if bits == 4 {
        15
    } else if bits == 5 {
        31
    } else {
        63
    };
    let w: u16 = (lo as u16) | ((hi as u16) << 8u16);
    ((w >> offset) & mask) as u8
}

/// Bit `p` of the stream of `codes`.
fn read_bit(codes: &[u8], bits: u8, p: usize) -> (r: u8)
    requires
        is_width(bits),
    ensures
        r == stream_bit(codes@, bits, p as int),
{
    let i: usize = p / bits as usize;
    proof {
        let n = codes@.len() as int;
        let b = bits as int;
        assert((i < n) == (p < n * b)) by (nonlinear_arith)
            requires
                i == p as int / b,
                b > 0,
                n >= 0,
        ;
    }
    if i < codes.len() {
        let s: u8 = (p % bits as usize) as u8;
        (codes[i] >> s) & 1u8
    } else {
        0
    }
}

/// Pack codes into bytes.
pub fn pack(codes: &[u8], bits: u8) -> (r: Vec<u8>)
    requires
        is_width(bits),
        codes@.len() * bits + 15 <= usize::MAX,
    ensures
        r@ == packed(codes@, bits),
{
    let total: usize = bytes_per_vector(codes.len(), bits);
    assert(8 * total <= codes@.len() * bits + 7);
    let mut out: Vec<u8> = Vec::new();
    while out.len() < total
        invariant
            is_width(bits),
            codes@.len() * bits + 15 <= usize::MAX,
            total == packed_len(codes@.len(), bits),
            8 * total <= codes@.len() * bits + 7,
            out@.len() <= total,
            out@ == packed(codes@, bits).take(out@.len() as int),
        decreases total - out@.len(),
    {
        let base: usize = 8 * out.len();
        let byte: u8 = read_bit(codes, bits, base) | (read_bit(codes, bits, base + 1) << 1u8) | (
        read_bit(codes, bits, base + 2) << 2u8) | (read_bit(codes, bits, base + 3) << 3u8) | (
        read_bit(codes, bits, base + 4) << 4u8) | (read_bit(codes, bits, base + 5) << 5u8) | (
        read_bit(codes, bits, base + 6) << 6u8) | (read_bit(codes, bits, base + 7) << 7u8);
        out.push(byte);
        proof {
            assert(out@ =~= packed(codes@, bits).take(out@.len() as int));
        }
    }
    proof {
        assert(out@ =~= packed(codes@, bits));
    }
    out
}

/// Piece `i` of a sequence that is made of pieces of length `w`.
pub open spec fn piece(s: Seq<u8>, w: nat, i: int) -> Seq<u8> {
    s.subrange(i * w, (i + 1) * w)
}

/// Where piece `i` of `n` pieces lies.
pub proof fn lemma_piece(i: int, n: int, w: nat)
    requires
        0 <= i < n,
    ensures
        0 <= i * w,
        (i + 1) * w == i * w + w,
        (i + 1) * w <= n * w,
{
    assert(0 <= i * w) by (nonlinear_arith)
        requires
            0 <= i,
            0 <= w,
    ;
    assert((i + 1) * w == i * w + w) by (nonlinear_arith);
    assert((i + 1) * w <= n * w) by (nonlinear_arith)
        requires
            i + 1 <= n,
            0 <= w,
    ;
}

/// Piece `i` of `n` pieces of length `w`.
pub fn nth_piece(s: &[u8], w: usize, i: usize, n: usize) -> (r: &[u8])
    requires
        s@.len() == n * w,
        i < n,
    ensures
        r@ == piece(s@, w as nat, i as int),
        r@.len() == w,
{
    let total: usize = s.len();
    proof {
        lemma_piece(i as int, n as int, w as nat);
        assert(total == n * w);
    }
    slice_subrange(s, i * w, i * w + w)
}

/// The `m` pieces from piece `i` on, of `n` pieces of length `w`.
pub fn some_pieces(s: &[u8], w: usize, i: usize, m: usize, n: usize) -> (r: &[u8])
    requires
        s@.len() == n * w,
        i + m <= n,
    ensures
        r@.len() == m * w,
        forall|j: int|
            0 <= j < m ==> #[trigger] piece(r@, w as nat, j) == piece(s@, w as nat, i + j),
{
    let total: usize = s.len();
    proof {
        assert(total == n * w);
        assert(0 <= i * w && 0 <= m * w && i * w + m * w == (i + m) * w && (i + m) * w <= n * w)
            by (nonlinear_arith)
            requires
                0 <= i,
                0 <= m,
                0 <= w,
                i + m <= n,
        ;
    }
    let r = slice_subrange(s, i * w, i * w + m * w);
    proof {
        assert forall|j: int| 0 <= j < m implies #[trigger] piece(r@, w as nat, j) == piece(
            s@,
            w as nat,
            i + j,
        ) by {
            lemma_piece(j, m as int, w as nat);
            lemma_piece(i + j, n as int, w as nat);
            assert(i * w + j * w == (i + j) * w) by (nonlinear_arith);
            assert(piece(r@, w as nat, j) =~= piece(s@, w as nat, i + j));
        }
    }
    r
}

} // verus!
