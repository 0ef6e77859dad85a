//! Lloyd-Max scalar quantizer tables for N(0,1), and quantization by them.
//!
//! The tables were computed offline with Lloyd's algorithm on the standard
//! normal distribution and are embedded as constants; there is no training
//! pass. Entries are binary32 bit patterns (see [`crate::arith`]).

use vstd::prelude::*;

use crate::arith::{above, gt, is_nan, position};

verus! {

/// 4-bit Lloyd-Max centroids for N(0,1), as binary32 bit patterns.
pub const CENTROIDS_4BIT: [u32; 16] = [
    0xBFFF8099, 0xBFC19097, 0xBF96168B, 0xBF6337A8, 0xBF21EC1C, 0xBECA82E8,
    0xBE2DF7E8, 0x3D4C5B8E, 0x3E8A1294, 0x3EFD9989, 0x3F3B776C, 0x3F7CC2F8,
    0x3FA2DC33, 0x3FCE563F, 0x40062321, 0x402E5A5C,
];

/// 4-bit decision boundaries, as binary32 bit patterns: entry `i` separates centroids `i` and `i + 1`.
pub const BOUNDARIES_4BIT: [u32; 15] = [
    0xBFE02A3D, 0xBFAB9379, 0xBF83749B, 0xBF41919B, 0xBF0251E3, 0xBE8D7A14,
    0xBD6684CF, 0x3E283B60, 0x3EC834F4, 0x3F2047C3, 0x3F5E742A, 0x3F9000DA,
    0x3FB4FC83, 0x3FE1E5DA, 0x400F4042,
];

/// 5-bit Lloyd-Max centroids for N(0,1), as binary32 bit patterns.
pub const CENTROIDS_5BIT: [u32; 32] = [
    0xC050E74A, 0xC02C7A9B, 0xC0149A07, 0xC0021E12, 0xBFE5560B, 0xBFCA52B9,
    0xBFB1FED9, 0xBF9B9F6B, 0xBF86B7DB, 0xBF65DF5E, 0xBF400883, 0xBF1B84FA,
    0xBEF0050C, 0xBEAA747B, 0xBE4BC7ED, 0xBD879557, 0x3D87AF77, 0x3E4BD4F9,
    0x3EAA7AF8, 0x3EF00B81, 0x3F1B89D1, 0x3F400F06, 0x3F65E768, 0x3F86BCA5,
    0x3F9BA445, 0x3FB203C0, 0x3FCA5865, 0x3FE55D3D, 0x40022271, 0x40149F91,
    0x402C81F8, 0x4050F369,
];

/// 5-bit decision boundaries, as binary32 bit patterns: entry `i` separates centroids `i` and `i + 1`.
pub const BOUNDARIES_5BIT: [u32; 31] = [
    0xC03EB1BB, 0xC0208B20, 0xC00B5CDD, 0xBFF4CAB9, 0xBFD7D604, 0xBFBE2A6C,
    0xBFA6D0C5, 0xBF912D46, 0xBF79A9F6, 0xBF52F592, 0xBF2DC864, 0xBF09C48C,
    0xBECD3CC4, 0xBE882C39, 0xBE07C94C, 0x37D10000, 0x3E07D65A, 0x3E8832BA,
    0x3ECD433C, 0x3F09C7C9, 0x3F2DCD36, 0x3F52FDA4, 0x3F79B39E, 0x3F913218,
    0x3FA6D5A5, 0x3FBE2FB4, 0x3FD7DC74, 0x3FF4D2B0, 0x400B61D0, 0x40209175,
    0x403EBAF9,
];

/// 6-bit Lloyd-Max centroids for N(0,1), as binary32 bit patterns.
pub const CENTROIDS_6BIT: [u32; 64] = [
    0xC074F346, 0xC055531A, 0xC0411147, 0xC031B269, 0xC02514DC, 0xC01A3D9B,
    0xC010A3FD, 0xC007F480, 0xBFFFEFD5, 0xBFF1101D, 0xBFE3117E, 0xBFD5CB6E,
    0xBFC91D93, 0xBFBCEE59, 0xBFB1297B, 0xBFA5BD43, 0xBF9A9CAA, 0xBF8FBEEE,
    0xBF851A1B, 0xBF754B01, 0xBF60B311, 0xBF4C615B, 0xBF384D9D, 0xBF246C75,
    0xBF10B764, 0xBEFA4FA1, 0xBED36B39, 0xBEACBB21, 0xBE86322F, 0xBE3F8D57,
    0xBDE5BACA, 0xBD190459, 0x3D193885, 0x3DE5D4D2, 0x3E3F9A57, 0x3E8638AD,
    0x3EACC1A6, 0x3ED371B9, 0x3EFA5619, 0x3F10BA9A, 0x3F246FB9, 0x3F3850E3,
    0x3F4C64A3, 0x3F60B654, 0x3F754E1E, 0x3F851BC7, 0x3F8FC096, 0x3F9A9E50,
    0x3FA5BEE1, 0x3FB12B1B, 0x3FBCF0C1, 0x3FC920D0, 0x3FD5CEAD, 0x3FE314C7,
    0x3FF11370, 0x3FFFF30B, 0x4007F628, 0x4010A59B, 0x401A3F32, 0x40251684,
    0x4031B3F3, 0x4041128C, 0x40555421, 0x4074F477,
];

/// 6-bit decision boundaries, as binary32 bit patterns: entry `i` separates centroids `i` and `i + 1`.
pub const BOUNDARIES_6BIT: [u32; 63] = [
    0xC06526D9, 0xC04B35CD, 0xC03965C6, 0xC02B67B9, 0xC01FAD52, 0xC01574E2,
    0xC00C5055, 0xC003FA85, 0xBFF888FA, 0xBFEA19CE, 0xBFDC7778, 0xBFCF7D82,
    0xBFC30EF8, 0xBFB7147D, 0xBFAB7B8E, 0xBFA03528, 0xBF953592, 0xBF8A73E4,
    0xBF7FCE58, 0xBF6B0CEE, 0xBF56967C, 0xBF42621E, 0xBF2E66DE, 0xBF1A9BC1,
    0xBF06F899, 0xBEE6EC22, 0xBEC01EA1, 0xBE99807C, 0xBE660939, 0xBE193F2B,
    0xBD992B98, 0x37D0B400, 0x3D9945A7, 0x3E194C2D, 0x3E661636, 0x3E9986FC,
    0x3EC02523, 0x3EE6F2A2, 0x3F06FBD3, 0x3F1A9EFC, 0x3F2E6A20, 0x3F426563,
    0x3F5699BE, 0x3F6B101E, 0x3F7FD193, 0x3F8A758C, 0x3F953737, 0x3FA036C9,
    0x3FAB7D2E, 0x3FB7161E, 0x3FC310F9, 0x3FCF8052, 0x3FDC7ABA, 0x3FEA1D1B,
    0x3FF88CA0, 0x4003FC8F, 0x400C5232, 0x4015767E, 0x401FAEF1, 0x402B6951,
    0x40396752, 0x404B3747, 0x406527C4,
];

/// The supported bit widths.
pub open spec fn is_width(bits: u8) -> bool {
    4 <= bits <= 6
}

/// Number of codebook levels for a bit width.
pub open spec fn level_count(bits: u8) -> nat {
    if bits == 4 {
        16
    } else if bits == 5 {
        32
    } else {
        64
    }
}

/// The centroids of a bit width, in increasing order.
#[verifier::opaque]
pub open spec fn centroid_table(bits: u8) -> Seq<u32> {
    if bits == 4 {
        CENTROIDS_4BIT@
    } else if bits == 5 {
        CENTROIDS_5BIT@
    } else {
        CENTROIDS_6BIT@
    }
}

/// The decision boundaries of a bit width, in increasing order.
#[verifier::opaque]
pub open spec fn boundary_table(bits: u8) -> Seq<u32> {
    if bits == 4 {
        BOUNDARIES_4BIT@
    } else if bits == 5 {
        BOUNDARIES_5BIT@
    } else {
        BOUNDARIES_6BIT@
    }
}

/// How many of the first `n` entries of `table` lie below `x`.
pub open spec fn count_below(x: u32, table: Seq<u32>, n: nat) -> nat
    decreases n,
{
    if n == 0 {
        0
    } else {
        count_below(x, table, (n - 1) as nat) + if above(x, table[n - 1]) {
            1nat
        } else {
            0nat
        }
    }
}

/// The code of `x` at a bit width: the number of boundaries that lie below it.
pub open spec fn code_of(x: u32, bits: u8) -> u8 {
    count_below(x, boundary_table(bits), boundary_table(bits).len()) as u8
}

/// The first `n` boundaries are numbers, and each lies strictly between the
/// centroids on its two sides.
spec fn woven(c: Seq<u32>, b: Seq<u32>, n: nat) -> bool
    decreases n,
{
    n == 0 || {
        &&& !is_nan(c[n - 1]) && !is_nan(b[n - 1]) && !is_nan(c[n as int])
        &&& position(c[n - 1]) < position(b[n - 1]) < position(c[n as int])
        &&& woven(c, b, (n - 1) as nat)
    }
}

proof fn lemma_woven_at(c: Seq<u32>, b: Seq<u32>, n: nat, i: int)
    requires
        woven(c, b, n),
        0 <= i < n,
    ensures
        !is_nan(c[i]) && !is_nan(b[i]) && !is_nan(c[i + 1]),
        position(c[i]) < position(b[i]) < position(c[i + 1]),
    decreases n,
{
    if i < n - 1 {
        lemma_woven_at(c, b, (n - 1) as nat, i);
    }
}

proof fn lemma_woven_order(c: Seq<u32>, b: Seq<u32>, n: nat, i: int, j: int)
    requires
        woven(c, b, n),
        0 <= i <= j < n,
    ensures
        position(c[i]) < position(b[j]),
        position(b[i]) < position(c[j + 1]),
        i < j ==> position(b[i]) < position(b[j]),
    decreases j - i,
{
    lemma_woven_at(c, b, n, j);
    if i < j {
        lemma_woven_at(c, b, n, j - 1);
        lemma_woven_order(c, b, n, i, j - 1);
    }
}

proof fn lemma_tables(bits: u8)
    requires
        is_width(bits),
    ensures
        centroid_table(bits).len() == level_count(bits),
        boundary_table(bits).len() == level_count(bits) - 1,
        woven(centroid_table(bits), boundary_table(bits), boundary_table(bits).len()),
{
    reveal(centroid_table);
    reveal(boundary_table);
    reveal_with_fuel(woven, 64);
}

/// At every width the centroids and the boundaries are numbers, both tables
/// increase strictly, and boundary `j` lies above exactly the centroids
/// `0..=j`.
pub proof fn law_tables_interleave(bits: u8)
    requires
        is_width(bits),
    ensures
        centroid_table(bits).len() == level_count(bits),
        boundary_table(bits).len() == level_count(bits) - 1,
        forall|i: int| 0 <= i < level_count(bits) ==> !is_nan(#[trigger] centroid_table(bits)[i]),
        forall|i: int|
            0 <= i < level_count(bits) - 1 ==> !is_nan(#[trigger] boundary_table(bits)[i]),
        forall|i: int, j: int|
            0 <= i < level_count(bits) && 0 <= j < level_count(bits) - 1 ==> (above(
                #[trigger] boundary_table(bits)[j],
                #[trigger] centroid_table(bits)[i],
            ) <==> i <= j) && (above(centroid_table(bits)[i], boundary_table(bits)[j]) <==> i > j),
        forall|i: int, j: int|
            0 <= i < j < level_count(bits) - 1 ==> above(
                #[trigger] boundary_table(bits)[j],
                #[trigger] boundary_table(bits)[i],
            ),
        forall|i: int, j: int|
            0 <= i < j < level_count(bits) ==> above(
                #[trigger] centroid_table(bits)[j],
                #[trigger] centroid_table(bits)[i],
            ),
{
    lemma_tables(bits);
    let c = centroid_table(bits);
    let b = boundary_table(bits);
    let n = b.len();
    assert forall|i: int| 0 <= i < level_count(bits) implies !is_nan(#[trigger] c[i]) by {
        if i < n {
            lemma_woven_at(c, b, n, i);
        } else {
            lemma_woven_at(c, b, n, i - 1);
        }
    }
    assert forall|i: int| 0 <= i < n implies !is_nan(#[trigger] b[i]) by {
        lemma_woven_at(c, b, n, i);
    }
    assert forall|i: int, j: int| 0 <= i < level_count(bits) && 0 <= j < n implies (above(
        #[trigger] b[j],
        #[trigger] c[i],
    ) <==> i <= j) && (above(c[i], b[j]) <==> i > j) by {
        if i <= j {
            lemma_woven_order(c, b, n, i, j);
        } else {
            lemma_woven_order(c, b, n, j, i - 1);
        }
    }
    assert forall|i: int, j: int| 0 <= i < j < n implies above(#[trigger] b[j], #[trigger] b[i]) by {
        lemma_woven_order(c, b, n, i, j);
    }
    assert forall|i: int, j: int| 0 <= i < j < level_count(bits) implies above(
        #[trigger] c[j],
        #[trigger] c[i],
    ) by {
        lemma_woven_order(c, b, n, i, j - 1);
        assert(above(b[i], c[i]));
        assert(above(c[j], b[i]));
    }
}

proof fn lemma_count_split(x: u32, table: Seq<u32>, n: nat, split: nat)
    requires
        split <= n,
        forall|i: int| 0 <= i < split ==> above(x, #[trigger] table[i]),
        forall|i: int| split <= i < n ==> !above(x, #[trigger] table[i]),
    ensures
        count_below(x, table, n) == split,
    decreases n,
{
    if n > 0 {
        if split == n {
            lemma_count_split(x, table, (n - 1) as nat, (n - 1) as nat);
        } else {
            lemma_count_split(x, table, (n - 1) as nat, split);
        }
    }
}

proof fn lemma_count_bound(x: u32, table: Seq<u32>, n: nat)
    ensures
        count_below(x, table, n) <= n,
    decreases n,
{
    if n > 0 {
        lemma_count_bound(x, table, (n - 1) as nat);
    }
}

/// A code is always a level of its width.
pub proof fn law_code_in_range(x: u32, bits: u8)
    requires
        is_width(bits),
    ensures
        code_of(x, bits) < level_count(bits),
{
    lemma_tables(bits);
    lemma_count_bound(x, boundary_table(bits), boundary_table(bits).len());
}

/// Quantization undoes dequantization: a centroid is quantized to its own
/// index.
pub proof fn law_centroids_are_fixed(code: u8, bits: u8)
    requires
        is_width(bits),
        code < level_count(bits),
    ensures
        code_of(centroid_table(bits)[code as int], bits) == code,
{
    law_tables_interleave(bits);
    let b = boundary_table(bits);
    lemma_count_split(centroid_table(bits)[code as int], b, b.len(), code as nat);
}

/// Every code is the index of a centroid.
pub proof fn lemma_code_range(x: u32, bits: u8)
    requires
        is_width(bits),
    ensures
        code_of(x, bits) < level_count(bits),
{
    lemma_tables(bits);
    let b = boundary_table(bits);
    lemma_count_bound(x, b, b.len());
}

/// Quantization is monotone: a larger number never gets a smaller code.
pub proof fn law_quantization_is_monotone(x: u32, y: u32, bits: u8)
    requires
        is_width(bits),
        above(y, x),
    ensures
        code_of(x, bits) <= code_of(y, bits),
{
    let b = boundary_table(bits);
    lemma_tables(bits);
    lemma_count_monotone(x, y, b, b.len());
    lemma_count_bound(x, b, b.len());
    lemma_count_bound(y, b, b.len());
}

proof fn lemma_count_monotone(x: u32, y: u32, table: Seq<u32>, n: nat)
    requires
        above(y, x),
    ensures
        count_below(x, table, n) <= count_below(y, table, n),
    decreases n,
{
    if n > 0 {
        lemma_count_monotone(x, y, table, (n - 1) as nat);
    }
}

/// Number of codebook levels for a supported bit width.
pub fn levels(bits: u8) -> (r: usize)
    requires
        is_width(bits),
    ensures
        r == level_count(bits),
{
    match bits {
        4 => 16,
        5 => 32,
        _ => 64,
    }
}

/// Codebook centroids for a bit width.
pub fn centroids(bits: u8) -> (r: &'static [u32])
    requires
        is_width(bits),
    ensures
        r@ == centroid_table(bits),
        r@.len() == level_count(bits),
{
    proof {
        lemma_tables(bits);
        reveal(centroid_table);
        reveal(boundary_table);
    }
    match bits {
        4 => &CENTROIDS_4BIT,
        5 => &CENTROIDS_5BIT,
        _ => &CENTROIDS_6BIT,
    }
}

/// Decision boundaries for a bit width.
pub fn boundaries(bits: u8) -> (r: &'static [u32])
    requires
        is_width(bits),
    ensures
        r@ == boundary_table(bits),
        r@.len() == level_count(bits) - 1,
{
    proof {
        lemma_tables(bits);
        reveal(centroid_table);
        reveal(boundary_table);
    }
    match bits {
        4 => &BOUNDARIES_4BIT,
        5 => &BOUNDARIES_5BIT,
        _ => &BOUNDARIES_6BIT,
    }
}

/// Quantize one N(0,1)-distributed value at a bit width, by binary search over
/// the decision boundaries.
pub fn quantize(x: u32, bits: u8) -> (r: u8)
    requires
        is_width(bits),
    ensures
        r == code_of(x, bits),
        r < level_count(bits),
{
    let bnd = boundaries(bits);
    let mut lo: usize = 0;
    let mut hi: usize = bnd.len();
    proof {
        law_tables_interleave(bits);
    }
    while lo < hi
        invariant
            is_width(bits),
            bnd@ == boundary_table(bits),
            bnd@.len() == level_count(bits) - 1,
            lo <= hi <= bnd@.len(),
            forall|i: int| 0 <= i < bnd@.len() ==> !is_nan(#[trigger] bnd@[i]),
            forall|i: int, j: int|
                0 <= i < j < bnd@.len() ==> above(#[trigger] bnd@[j], #[trigger] bnd@[i]),
            forall|i: int| 0 <= i < lo ==> above(x, #[trigger] bnd@[i]),
            forall|i: int| hi <= i < bnd@.len() ==> !above(x, #[trigger] bnd@[i]),
        decreases hi - lo,
    {
        let mid: usize = (lo + hi) / 2;
        if gt(x, bnd[mid]) {
            lo = mid + 1;
        } else {
            hi = mid;
        }
    }
    proof {
        lemma_count_split(x, bnd@, bnd@.len(), lo as nat);
    }
    lo as u8
}

/// Dequantize a code at a bit width: its centroid.
pub fn dequantize(code: u8, bits: u8) -> (r: u32)
    requires
        is_width(bits),
        code < level_count(bits),
    ensures
        r == centroid_table(bits)[code as int],
{
    centroids(bits)[code as usize]
}

/// Quantize one N(0,1)-distributed value to a 4-bit code.
pub fn quantize_4bit(x: u32) -> (r: u8)
    ensures
        r == code_of(x, 4),
        r < 16,
{
    quantize(x, 4)
}

/// Dequantize a 4-bit code: its centroid.
pub fn dequantize_4bit(i: u8) -> (r: u32)
    requires
        i < 16,
    ensures
        r == CENTROIDS_4BIT@[i as int],
{
    proof {
        reveal(centroid_table);
    }
    dequantize(i, 4)
}

} // verus!
