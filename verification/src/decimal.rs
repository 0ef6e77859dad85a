//! The tables of the quantizer in decimal.

use vstd::arithmetic::power2::{
    lemma2_to64, lemma2_to64_rest, lemma_pow2_adds, lemma_pow2_pos, pow2,
};
use vstd::prelude::*;

use crate::half::single_units;
use crate::lloyd::{
    BOUNDARIES_4BIT, BOUNDARIES_5BIT, BOUNDARIES_6BIT, CENTROIDS_4BIT, CENTROIDS_5BIT,
    CENTROIDS_6BIT,
};
use crate::rounding::{lemma_magnitude, value};
use crate::storing::{boundary, level, levels_of};

verus! {

/// The levels of four bits, in millionths.
pub const LEVELS_4BIT_MILLIONTHS: [i32; 16] = [
    -1996112, -1512225, -1172563, -887568, -632509, -395530, -169891, 49892, 269673, 495312,
    732291, 987350, 1272345, 1612007, 2095894, 2724265,
];

/// The levels of five bits, in millionths.
pub const LEVELS_5BIT_MILLIONTHS: [i32; 32] = [
    -3264117, -2694983, -2321901, -2033085, -1791688, -1580650, -1390590, -1215803,
    -1052486, -897940, -750130, -607498, -468788, -332920, -199005, -66203, 66253, 199055,
    332969, 468838, 607572, 750229, 898062, 1052632, 1215951, 1390739, 1580823, 1791908,
    2033352, 2322239, 2695433, 3264857,
];

/// The levels of six bits, in millionths.
pub const LEVELS_6BIT_MILLIONTHS: [i32; 64] = [
    -3827348, -3333197, -3016680, -2776514, -2579398, -2410010, -2260009, -2124298,
    -1999507, -1883304, -1773971, -1670271, -1571215, -1476024, -1384078, -1294838, -1207906,
    -1123014, -1039859, -958176, -877732, -798360, -719934, -642280, -565298, -488889,
    -412927, -337365, -262102, -187063, -112173, -37358, 37407, 112222, 187112, 262151,
    337415, 412977, 488938, 565347, 642330, 719984, 798411, 877782, 958223, 1039910, 1123065,
    1207956, 1294888, 1384128, 1476097, 1571314, 1670370, 1774072, 1883406, 1999605, 2124399,
    2260108, 2410107, 2579499, 2776608, 3016757, 3333260, 3827421,
];

/// The boundaries of four bits, in millionths.
pub const BOUNDARIES_4BIT_MILLIONTHS: [i32; 15] = [
    -1751289, -1340438, -1026996, -756128, -509062, -276322, -56279, 164289, 391029, 626095,
    868960, 1125026, 1413956, 1764827, 2238297,
];

/// The boundaries of five bits, in millionths.
pub const BOUNDARIES_5BIT_MILLIONTHS: [i32; 31] = [
    -2979598, -2508492, -2177543, -1912437, -1686219, -1485670, -1303246, -1134194,
    -975250, -824060, -678839, -538155, -400854, -265962, -132604, 25, 132654, 266012,
    400904, 538205, 678912, 824183, 975397, 1134341, 1303395, 1485831, 1686415, 1912680,
    2177845, 2508878, 2980162,
];

/// The boundaries of six bits, in millionths.
pub const BOUNDARIES_6BIT_MILLIONTHS: [i32; 63] = [
    -3580496, -3175159, -2896837, -2678206, -2494954, -2335259, -2192403, -2062165,
    -1941680, -1828912, -1722396, -1621018, -1523894, -1430313, -1339708, -1251622, -1165697,
    -1081662, -999242, -918166, -838234, -759310, -681257, -603939, -527231, -451020,
    -375234, -299808, -224645, -149655, -74790, 25, 74840, 149705, 224694, 299858, 375283,
    451070, 527280, 603988, 681307, 759360, 838283, 918215, 999292, 1081712, 1165748,
    1251672, 1339758, 1430362, 1523956, 1621104, 1722495, 1829013, 1941792, 2062290, 2192517,
    2335357, 2495053, 2678303, 2896931, 3175249, 3580552,
];

/// Level `j` of a width, in millionths.
pub open spec fn level_millionths(bits: u8, j: int) -> int {
    if bits == 4 {
        LEVELS_4BIT_MILLIONTHS@[j] as int
    } else if bits == 5 {
        LEVELS_5BIT_MILLIONTHS@[j] as int
    } else {
        LEVELS_6BIT_MILLIONTHS@[j] as int
    }
}

/// The boundary above level `j` of a width, in millionths.
pub open spec fn boundary_millionths(bits: u8, j: int) -> int {
    if bits == 4 {
        BOUNDARIES_4BIT_MILLIONTHS@[j] as int
    } else if bits == 5 {
        BOUNDARIES_5BIT_MILLIONTHS@[j] as int
    } else {
        BOUNDARIES_6BIT_MILLIONTHS@[j] as int
    }
}

/// A number in units of 2^-39, from its exponent field and its significand.
spec fn in_units(e: int, f: int) -> int {
    if e == 111 {
        f
    } else if e == 112 {
        2 * f
    } else if e == 113 {
        4 * f
    } else if e == 114 {
        8 * f
    } else if e == 115 {
        16 * f
    } else if e == 116 {
        32 * f
    } else if e == 117 {
        64 * f
    } else if e == 118 {
        128 * f
    } else if e == 119 {
        256 * f
    } else if e == 120 {
        512 * f
    } else if e == 121 {
        1024 * f
    } else if e == 122 {
        2048 * f
    } else if e == 123 {
        4096 * f
    } else if e == 124 {
        8192 * f
    } else if e == 125 {
        16384 * f
    } else if e == 126 {
        32768 * f
    } else if e == 127 {
        65536 * f
    } else {
        131072 * f
    }
}

/// A number is within a millionth of a whole number of millionths, by the bits of its
/// pattern. The number is not smaller than 2^-16 and not as great as 4.
spec fn is_about(x: u32, d: int) -> bool {
    let m = x % 0x8000_0000;
    let e = (m / 0x80_0000) as int;
    let s = 1000000 * in_units(e, 0x80_0000 + m % 0x80_0000);
    let unit = 0x80_0000_0000int;
    &&& 111 <= e <= 128
    &&& x < 0x8000_0000 ==> 0x80_0000_0000 * d - unit <= s <= 0x80_0000_0000 * d + unit
    &&& x >= 0x8000_0000 ==> -0x80_0000_0000 * d - unit <= s <= -0x80_0000_0000 * d + unit
}

/// The first `n` entries of a table are about those of another one.
spec fn all_about(table: Seq<u32>, d: Seq<i32>, n: nat) -> bool
    decreases n,
{
    n == 0 || (is_about(table[n - 1], d[n - 1] as int) && all_about(table, d, (n - 1) as nat))
}

proof fn lemma_about_at(table: Seq<u32>, d: Seq<i32>, n: nat, j: int)
    requires
        all_about(table, d, n),
        0 <= j < n,
    ensures
        is_about(table[j], d[j] as int),
    decreases n,
{
    if j < n - 1 {
        lemma_about_at(table, d, (n - 1) as nat, j);
    }
}

/// A product of integers, as a real number.
proof fn lemma_real_product(a: int, b: int)
    by (nonlinear_arith)
    ensures
        (a * b) as real == (a as real) * (b as real),
{
}

/// The units of a number are those of its value.
proof fn lemma_units(m: u32)
    requires
        111 <= m / 0x80_0000 <= 128,
    ensures
        value(m) * 549755813888real == in_units(
            (m / 0x80_0000) as int,
            0x80_0000 + m % 0x80_0000,
        ) as real,
{
    reveal(value);
    lemma2_to64();
    lemma2_to64_rest();
    let e = (m / 0x80_0000) as nat;
    let f = 0x80_0000 + m % 0x80_0000;
    let k = (e - 111) as nat;
    lemma_pow2_pos(110);
    lemma_pow2_adds(110, k);
    lemma_pow2_adds(110, 39);
    let p = pow2(110) as int;
    let t = pow2(k) as int;
    assert(t == in_units(e as int, 1));
    assert(in_units(e as int, f as int) == t * f) by (nonlinear_arith)
        requires
            t == in_units(e as int, 1),
            111 <= e <= 128,
    ;
    assert(m % 0x8000_0000 == m);
    assert(single_units(m) == f * (p * t)) by {
        assert(pow2((e - 1) as nat) == p * t);
    }
    assert(f * (p * t) == (t * f) * p) by (nonlinear_arith);
    lemma_real_product(t * f, p);
    lemma_real_product(p, 0x80_0000_0000);
    let u = (t * f) as real;
    let c = pow2(149) as real;
    let r = p as real;
    assert(u * r / c * 549755813888real == u) by (nonlinear_arith)
        requires
            c == r * 549755813888real,
            r > 0real,
    ;
}

proof fn lemma_about(x: u32, d: int)
    requires
        is_about(x, d),
    ensures
        -1real <= 1000000real * value(x) - d as real <= 1real,
{
    lemma_magnitude(x);
    lemma_units((x % 0x8000_0000) as u32);
}

/// The levels and the boundaries of every width, to a millionth.
pub proof fn law_tables_in_decimal(bits: u8, j: int)
    requires
        4 <= bits <= 6,
    ensures
        0 <= j < levels_of(bits) ==> -1real <= 1000000real * value(level(bits, j))
            - level_millionths(bits, j) as real <= 1real,
        0 <= j < levels_of(bits) - 1 ==> -1real <= 1000000real * value(boundary(bits, j))
            - boundary_millionths(bits, j) as real <= 1real,
{
    if 0 <= j < levels_of(bits) {
        if bits == 4 {
            lemma_levels4();
            lemma_about_at(CENTROIDS_4BIT@, LEVELS_4BIT_MILLIONTHS@, 16, j);
        } else if bits == 5 {
            lemma_levels5();
            lemma_about_at(CENTROIDS_5BIT@, LEVELS_5BIT_MILLIONTHS@, 32, j);
        } else {
            lemma_levels6();
            lemma_about_at(CENTROIDS_6BIT@, LEVELS_6BIT_MILLIONTHS@, 64, j);
        }
        lemma_about(level(bits, j), level_millionths(bits, j));
    }
    if 0 <= j < levels_of(bits) - 1 {
        if bits == 4 {
            lemma_boundaries4();
            lemma_about_at(BOUNDARIES_4BIT@, BOUNDARIES_4BIT_MILLIONTHS@, 15, j);
        } else if bits == 5 {
            lemma_boundaries5();
            lemma_about_at(BOUNDARIES_5BIT@, BOUNDARIES_5BIT_MILLIONTHS@, 31, j);
        } else {
            lemma_boundaries6();
            lemma_about_at(BOUNDARIES_6BIT@, BOUNDARIES_6BIT_MILLIONTHS@, 63, j);
        }
        lemma_about(boundary(bits, j), boundary_millionths(bits, j));
    }
}

proof fn lemma_levels4()
    ensures
        all_about(CENTROIDS_4BIT@, LEVELS_4BIT_MILLIONTHS@, 16),
{
    reveal_with_fuel(all_about, 17);
}

proof fn lemma_boundaries4()
    ensures
        all_about(BOUNDARIES_4BIT@, BOUNDARIES_4BIT_MILLIONTHS@, 15),
{
    reveal_with_fuel(all_about, 16);
}

proof fn lemma_levels5()
    ensures
        all_about(CENTROIDS_5BIT@, LEVELS_5BIT_MILLIONTHS@, 32),
{
    reveal_with_fuel(all_about, 33);
}

proof fn lemma_boundaries5()
    ensures
        all_about(BOUNDARIES_5BIT@, BOUNDARIES_5BIT_MILLIONTHS@, 31),
{
    reveal_with_fuel(all_about, 32);
}

proof fn lemma_levels6()
    ensures
        all_about(CENTROIDS_6BIT@, LEVELS_6BIT_MILLIONTHS@, 64),
{
    reveal_with_fuel(all_about, 65);
}

proof fn lemma_boundaries6()
    ensures
        all_about(BOUNDARIES_6BIT@, BOUNDARIES_6BIT_MILLIONTHS@, 63),
{
    reveal_with_fuel(all_about, 64);
}

} // verus!
