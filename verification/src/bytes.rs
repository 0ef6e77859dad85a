//! Little-endian integers in byte sequences.

use vstd::prelude::*;
use vstd::slice::slice_subrange;

verus! {

/// The two bytes of an integer, least first.
#[verifier::opaque]
pub open spec fn le16(x: u16) -> Seq<u8> {
    seq![(x % 256) as u8, (x / 256) as u8]
}

/// The four bytes of an integer, least first.
#[verifier::opaque]
pub open spec fn le32(x: u32) -> Seq<u8> {
    seq![
        (x % 256) as u8,
        (x / 256 % 256) as u8,
        (x / 0x1_0000 % 256) as u8,
        (x / 0x100_0000) as u8,
    ]
}

/// The eight bytes of an integer, least first.
#[verifier::opaque]
pub open spec fn le64(x: u64) -> Seq<u8> {
    le32((x % 0x1_0000_0000) as u32) + le32((x / 0x1_0000_0000) as u32)
}

/// The integer in the two bytes from `i` on.
#[verifier::opaque]
pub open spec fn u16_at(b: Seq<u8>, i: int) -> u16 {
    (b[i] + 256 * b[i + 1]) as u16
}

/// The integer in the four bytes from `i` on.
#[verifier::opaque]
pub open spec fn u32_at(b: Seq<u8>, i: int) -> u32 {
    (b[i] + 256 * b[i + 1] + 0x1_0000 * b[i + 2] + 0x100_0000 * b[i + 3]) as u32
}

/// The integer in the eight bytes from `i` on.
#[verifier::opaque]
pub open spec fn u64_at(b: Seq<u8>, i: int) -> u64 {
    (u32_at(b, i) + 0x1_0000_0000 * u32_at(b, i + 4)) as u64
}

/// How many bytes integers take.
pub proof fn lemma_le_lengths()
    ensures
        forall|x: u16| (#[trigger] le16(x)).len() == 2,
        forall|x: u32| (#[trigger] le32(x)).len() == 4,
        forall|x: u64| (#[trigger] le64(x)).len() == 8,
{
    reveal(le16);
    reveal(le32);
    reveal(le64);
}

/// Reading two bytes gives back what was written.
pub proof fn law_read_u16(b: Seq<u8>, i: int, x: u16)
    requires
        0 <= i,
        i + 2 <= b.len(),
        b.subrange(i, i + 2) == le16(x),
    ensures
        u16_at(b, i) == x,
{
    reveal(le16);
    reveal(u16_at);
    let s = b.subrange(i, i + 2);
    assert(s[0] == b[i] && s[1] == b[i + 1]);
}

/// Reading four bytes gives back what was written.
pub proof fn law_read_u32(b: Seq<u8>, i: int, x: u32)
    requires
        0 <= i,
        i + 4 <= b.len(),
        b.subrange(i, i + 4) == le32(x),
    ensures
        u32_at(b, i) == x,
{
    reveal(le32);
    reveal(u32_at);
    let s = b.subrange(i, i + 4);
    assert(s[0] == b[i] && s[1] == b[i + 1] && s[2] == b[i + 2] && s[3] == b[i + 3]);
}

/// Reading eight bytes gives back what was written.
pub proof fn law_read_u64(b: Seq<u8>, i: int, x: u64)
    requires
        0 <= i,
        i + 8 <= b.len(),
        b.subrange(i, i + 8) == le64(x),
    ensures
        u64_at(b, i) == x,
{
    reveal(le64);
    reveal(u64_at);
    lemma_le_lengths();
    let s = b.subrange(i, i + 8);
    let lo = (x % 0x1_0000_0000) as u32;
    let hi = (x / 0x1_0000_0000) as u32;
    assert(b.subrange(i, i + 4) =~= s.subrange(0, 4));
    assert(s.subrange(0, 4) =~= le32(lo));
    assert(b.subrange(i + 4, i + 8) =~= s.subrange(4, 8));
    assert(s.subrange(4, 8) =~= le32(hi));
    law_read_u32(b, i, lo);
    law_read_u32(b, i + 4, hi);
}

/// Read two bytes.
pub fn read_u16(b: &[u8], i: usize) -> (r: u16)
    requires
        i + 2 <= b@.len(),
    ensures
        r == u16_at(b@, i as int),
{
    proof {
        reveal(u16_at);
    }
    b[i] as u16 + 256 * (b[i + 1] as u16)
}

/// Read four bytes.
pub fn read_u32(b: &[u8], i: usize) -> (r: u32)
    requires
        i + 4 <= b@.len(),
    ensures
        r == u32_at(b@, i as int),
{
    proof {
        reveal(u32_at);
    }
    b[i] as u32 + 256 * (b[i + 1] as u32) + 0x1_0000 * (b[i + 2] as u32) + 0x100_0000 * (b[i
        + 3] as u32)
}

/// Read eight bytes.
pub fn read_u64(b: &[u8], i: usize) -> (r: u64)
    requires
        i + 8 <= b@.len(),
    ensures
        r == u64_at(b@, i as int),
{
    proof {
        reveal(u64_at);
        reveal(u32_at);
    }
    let lo: u32 = read_u32(b, i);
    let rest = slice_subrange(b, i, b.len());
    lo as u64 + 0x1_0000_0000 * (read_u32(rest, 4) as u64)
}

/// Append two bytes.
pub fn push_u16(out: &mut Vec<u8>, x: u16)
    ensures
        final(out)@ == old(out)@ + le16(x),
{
    proof {
        reveal(le16);
    }
    out.push((x % 256) as u8);
    out.push((x / 256) as u8);
    proof {
        assert(out@ =~= old(out)@ + le16(x));
    }
}

/// Append four bytes.
pub fn push_u32(out: &mut Vec<u8>, x: u32)
    ensures
        final(out)@ == old(out)@ + le32(x),
{
    proof {
        reveal(le32);
    }
    out.push((x % 256) as u8);
    out.push((x / 256 % 256) as u8);
    out.push((x / 0x1_0000 % 256) as u8);
    out.push((x / 0x100_0000) as u8);
    proof {
        assert(out@ =~= old(out)@ + le32(x));
    }
}

/// Append eight bytes.
pub fn push_u64(out: &mut Vec<u8>, x: u64)
    ensures
        final(out)@ == old(out)@ + le64(x),
{
    proof {
        reveal(le64);
    }
    push_u32(out, (x % 0x1_0000_0000) as u32);
    push_u32(out, (x / 0x1_0000_0000) as u32);
    proof {
        assert(out@ =~= old(out)@ + le64(x));
    }
}

} // verus!
