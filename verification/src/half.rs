//! Conversion between binary32 and binary16 bit patterns.
//!
//! Finite values are described exactly, as whole multiples of a smallest unit:
//! binary16 magnitudes in units of 2^-24, binary32 magnitudes in units of
//! 2^-149.

use vstd::arithmetic::mul::{
    lemma_mul_is_associative, lemma_mul_is_commutative, lemma_mul_is_distributive_add,
    lemma_mul_strict_inequality,
};
use vstd::arithmetic::power2::{
    lemma2_to64, lemma_pow2_adds, lemma_pow2_pos, lemma_pow2_strictly_increases, lemma_pow2_unfold,
    pow2,
};
use vstd::bits::lemma_u32_shr_is_div;
use vstd::prelude::*;

verus! {

/// The magnitude of a finite binary32 value, in units of 2^-149. The sign is
/// not part of `m`.
pub open spec fn single_units(m: u32) -> nat {
    let e = m / 0x80_0000;
    let f = (m % 0x80_0000) as nat;
    if e == 0 {
        f
    } else {
        (0x80_0000 + f) * pow2((e - 1) as nat)
    }
}

/// The magnitude of a finite binary16 value, in units of 2^-24. The sign is not
/// part of `m`. The pattern of infinity stands for the value one step above the
/// largest finite one.
pub open spec fn half_units(m: u16) -> nat {
    let e = m / 1024;
    let f = (m % 1024) as nat;
    if e == 0 {
        f
    } else {
        (1024 + f) * pow2((e - 1) as nat)
    }
}

/// A binary16 magnitude in units of 2^-149.
pub open spec fn half_in_single_units(m: u16) -> nat {
    half_units(m) * pow2(125)
}

/// How far a magnitude in units of 2^-149 is from a binary16 magnitude.
pub open spec fn distance(u: nat, m: u16) -> nat {
    let v = half_in_single_units(m);
    if u <= v {
        (v - u) as nat
    } else {
        (u - v) as nat
    }
}

/// `m` is the binary16 magnitude nearest to `u`; of two that are equally near,
/// the one with an even pattern.
pub open spec fn is_nearest(u: nat, m: u16) -> bool {
    &&& m <= 0x7C00
    &&& forall|g: u16|
        g <= 0x7C00 && g != m ==> {
            ||| distance(u, m) < #[trigger] distance(u, g)
            ||| distance(u, m) == distance(u, g) && m % 2 == 0
        }
}

/// The binary16 pattern of a binary32 pattern: infinity and the sign are kept,
/// a value that is not a number becomes the quiet pattern of its sign, and a
/// finite magnitude is rounded to the nearest, ties to even.
pub open spec fn half_of(x: u32) -> u16 {
    let m = x % 0x8000_0000;
    let sign: int = if x >= 0x8000_0000 {
        0x8000
    } else {
        0
    };
    if m > 0x7F80_0000 {
        (sign + 0x7E00) as u16
    } else if m == 0x7F80_0000 {
        (sign + 0x7C00) as u16
    } else {
        (sign + choose|r: u16| is_nearest(single_units(m), r)) as u16
    }
}

/// The binary32 pattern of a binary16 pattern. Every finite value has one of
/// the same value; infinity, the sign and the payload are kept.
pub open spec fn single_of(h: u16) -> u32 {
    let m = (h % 0x8000) as u16;
    let sign: int = if h >= 0x8000 {
        0x8000_0000
    } else {
        0
    };
    if m >= 0x7C00 {
        (sign + 0x7F80_0000 + (m - 0x7C00) * 0x2000) as u32
    } else {
        (sign + choose|x: u32| x < 0x7F80_0000 && single_units(x) == half_in_single_units(m)) as u32
    }
}

proof fn lemma_half_step(m: u16)
    requires
        m < 0x7C00,
    ensures
        half_units((m + 1) as u16) == half_units(m) + pow2(
            if m / 1024 == 0 {
                0
            } else {
                (m / 1024 - 1) as nat
            },
        ),
{
    lemma2_to64();
    let e = m / 1024;
    let f = (m % 1024) as int;
    let up = (m + 1) as u16;
    if f < 1023 {
        assert(up / 1024 == e && up % 1024 == f + 1);
        if e > 0 {
            let p = pow2((e - 1) as nat) as int;
            assert((1024 + f + 1) * p == (1024 + f) * p + p) by (nonlinear_arith);
        }
    } else {
        assert(up / 1024 == e + 1 && up % 1024 == 0);
        if e > 0 {
            lemma_pow2_unfold(e as nat);
            let p = pow2((e - 1) as nat) as int;
            assert((1024 + 0) * (2 * p) == (1024 + 1023) * p + p) by (nonlinear_arith);
            assert(half_units(up) == 1024 * pow2(e as nat));
        }
    }
}

proof fn lemma_half_increasing(a: u16, b: u16)
    requires
        a < b <= 0x7C00,
    ensures
        half_units(a) < half_units(b),
        half_in_single_units(a) < half_in_single_units(b),
    decreases b - a,
{
    lemma_half_step(a);
    lemma_pow2_pos(
        if a / 1024 == 0 {
            0
        } else {
            (a / 1024 - 1) as nat
        },
    );
    if a + 1 < b {
        lemma_half_increasing((a + 1) as u16, b);
    }
    lemma_pow2_pos(125);
    lemma_mul_strict_inequality(half_units(a) as int, half_units(b) as int, pow2(125) as int);
}

proof fn lemma_single_step(m: u32)
    requires
        m < 0x7F80_0000,
    ensures
        single_units(m) < single_units((m + 1) as u32),
{
    lemma2_to64();
    let e = m / 0x80_0000;
    let f = (m % 0x80_0000) as int;
    let up = (m + 1) as u32;
    if f < 0x7F_FFFF {
        assert(up / 0x80_0000 == e && up % 0x80_0000 == f + 1);
        if e > 0 {
            let p = pow2((e - 1) as nat) as int;
            lemma_pow2_pos((e - 1) as nat);
            assert((0x80_0000 + f + 1) * p == (0x80_0000 + f) * p + p) by (nonlinear_arith);
        }
    } else {
        assert(up / 0x80_0000 == e + 1 && up % 0x80_0000 == 0);
        if e > 0 {
            lemma_pow2_unfold(e as nat);
            let p = pow2((e - 1) as nat) as int;
            lemma_pow2_pos((e - 1) as nat);
            assert(0x80_0000 * (2 * p) == (0x80_0000 + 0x7F_FFFF) * p + p) by (nonlinear_arith);
            assert(single_units(up) == 0x80_0000 * pow2(e as nat));
        }
    }
}

/// A larger pattern has a larger magnitude.
pub proof fn lemma_single_increasing(a: u32, b: u32)
    requires
        a < b <= 0x7F80_0000,
    ensures
        single_units(a) < single_units(b),
    decreases b - a,
{
    lemma_single_step(a);
    if a + 1 < b {
        lemma_single_increasing((a + 1) as u32, b);
    }
}

/// At most one pattern is nearest: of two even ones that are equally near, the
/// odd one between them is nearer still.
proof fn lemma_nearest_unique(u: nat, a: u16, b: u16)
    requires
        is_nearest(u, a),
        is_nearest(u, b),
    ensures
        a == b,
    decreases
        if a <= b {
            0nat
        } else {
            1nat
        },
{
    if b < a {
        lemma_nearest_unique(u, b, a);
    } else if a < b {
        assert(distance(u, a) == distance(u, b));
        assert(a % 2 == 0 && b % 2 == 0);
        let c = (a + 1) as u16;
        lemma_half_increasing(a, c);
        lemma_half_increasing(c, b);
        lemma_half_increasing(a, b);
        assert(distance(u, a) <= distance(u, c));
        assert(distance(u, b) <= distance(u, c));
    }
}

/// Rounding a magnitude that lies between a pattern and the next one.
proof fn lemma_round(u: nat, m: u16, r: u16)
    requires
        m < 0x7C00,
        half_in_single_units(m) <= u < half_in_single_units((m + 1) as u16),
        ({
            let low = u - half_in_single_units(m);
            let gap = half_in_single_units((m + 1) as u16) - half_in_single_units(m);
            r == if 2 * low > gap || (2 * low == gap && m % 2 == 1) {
                (m + 1) as u16
            } else {
                m
            }
        }),
    ensures
        is_nearest(u, r),
{
    let up = (m + 1) as u16;
    assert forall|g: u16| g <= 0x7C00 && g != r implies {
        ||| distance(u, r) < #[trigger] distance(u, g)
        ||| distance(u, r) == distance(u, g) && r % 2 == 0
    } by {
        if g < m {
            lemma_half_increasing(g, m);
        } else if g > up {
            lemma_half_increasing(up, g);
        }
    }
}

proof fn lemma_half_of_finite(x: u32, r: u16)
    requires
        x % 0x8000_0000 < 0x7F80_0000,
        is_nearest(single_units((x % 0x8000_0000) as u32), r),
    ensures
        half_of(x) == (if x >= 0x8000_0000 {
            0x8000int
        } else {
            0
        }) + r,
{
    let u = single_units((x % 0x8000_0000) as u32);
    let c = choose|c: u16| is_nearest(u, c);
    lemma_nearest_unique(u, r, c);
}

/// IEEE 754 half-precision encode (round to nearest, ties to even).
pub fn f32_to_f16_bits(x: u32) -> (r: u16)
    ensures
        r == half_of(x),
{
    let sign: u16 = if x >= 0x8000_0000 {
        0x8000
    } else {
        0
    };
    let exp: u32 = (x % 0x8000_0000) / 0x80_0000;
    let mant: u32 = x % 0x80_0000;
    let ghost m = (x % 0x8000_0000) as u32;
    assert(m == exp * 0x80_0000 + mant);
    if exp == 0xFF {
        // Infinity, or not a number.
        return if mant != 0 {
            sign + 0x7E00
        } else {
            sign + 0x7C00
        };
    }
    let ghost u = single_units(m);
    proof {
        lemma2_to64();
    }
    if exp > 142 {
        // Overflow to infinity.
        proof {
            lemma_overflow(exp as nat, mant as nat, u);
            lemma_half_of_finite(x, 0x7C00);
        }
        return sign + 0x7C00;
    }
    if exp >= 113 {
        // Normal half.
        let half_exp: u32 = exp - 112;
        let half_mant: u32 = mant / 0x2000;
        let low: u32 = mant % 0x2000;
        let down: u16 = (half_exp * 1024 + half_mant) as u16;
        let round_up: bool = low > 0x1000 || (low == 0x1000 && half_mant % 2 == 1);
        let out: u16 = if round_up {
            down + 1
        } else {
            down
        };
        proof {
            lemma_normal(exp as nat, mant as nat, u, down, out);
            lemma_half_of_finite(x, out);
        }
        sign + out
    } else {
        // Subnormal half, or zero.
        let shift: u32 = 126 - exp;
        if shift >= 32 {
            proof {
                lemma_tiny(exp as nat, mant as nat, u);
                lemma_half_of_finite(x, 0);
            }
            return sign;
        }
        let full: u32 = mant + 0x80_0000;
        let half_mant: u32 = full >> shift;
        let unit: u32 = 1u32 << shift;
        proof {
            lemma_u32_shr_is_div(full, shift);
            vstd::bits::lemma_u32_shl_is_mul(1u32, shift);
            lemma_pow2_strictly_increases(shift as nat, 32);
            lemma_small_quotient(full as nat, shift as nat);
        }
        let low: u32 = full % unit;
        let down: u16 = half_mant as u16;
        let halfway: u32 = unit / 2;
        let round_up: bool = low > halfway || (low == halfway && half_mant % 2 == 1);
        let out: u16 = if round_up {
            down + 1
        } else {
            down
        };
        proof {
            lemma_subnormal(exp as nat, mant as nat, u, unit as nat, down, out);
            lemma_half_of_finite(x, out);
        }
        sign + out
    }
}

proof fn lemma_overflow(exp: nat, mant: nat, u: nat)
    requires
        143 <= exp < 255,
        mant < 0x80_0000,
        u == (0x80_0000 + mant) * pow2((exp - 1) as nat),
    ensures
        is_nearest(u, 0x7C00),
{
    // u is at least 2^23 * 2^142 == 2^40 * 2^125, the value of the top pattern.
    let p = pow2((exp - 1) as nat) as int;
    if exp - 1 > 142 {
        lemma_pow2_strictly_increases(142, (exp - 1) as nat);
    }
    lemma_pow2_adds(17, 125);
    lemma2_to64();
    lemma2_to64();
    let q = pow2(125) as int;
    assert(pow2(142) == 0x2_0000 * q);
    assert(half_units(0x7C00) == 1024 * pow2(30));
    assert(half_in_single_units(0x7C00) == 0x100_0000_0000 * q);
    assert((0x80_0000 + mant) * p >= 0x100_0000_0000 * q) by (nonlinear_arith)
        requires
            p >= 0x2_0000 * q,
            q >= 0,
            mant >= 0,
    ;
    assert forall|g: u16| g <= 0x7C00 && g != 0x7C00 implies distance(u, 0x7C00)
        < #[trigger] distance(u, g) by {
        lemma_half_increasing(g, 0x7C00);
    }
}

/// The binary16 magnitudes around a binary32 magnitude in the normal range.
proof fn lemma_neighbours(exp: nat, mant: nat, down: u16)
    requires
        113 <= exp <= 142,
        mant < 0x80_0000,
        down == (exp - 112) * 1024 + mant / 0x2000,
    ensures
        half_in_single_units(down) == (1024 + mant / 0x2000) * (0x2000 * pow2((exp - 1) as nat)),
        half_in_single_units((down + 1) as u16) == half_in_single_units(down) + 0x2000 * pow2(
            (exp - 1) as nat,
        ),
{
    let hm = (mant / 0x2000) as int;
    let he = (exp - 112) as nat;
    let p = pow2((exp - 1) as nat) as int;
    assert(down / 1024 == he);
    assert(down % 1024 == hm);
    lemma_half_step(down);
    let s = pow2((he - 1) as nat) as int;
    let q = pow2(125) as int;
    lemma_pow2_adds((he - 1) as nat, 125);
    lemma_pow2_adds(13, (exp - 1) as nat);
    lemma2_to64();
    assert(s * q == 0x2000 * p);
    lemma_mul_is_associative(1024 + hm, s, q);
    lemma_mul_is_distributive_add(q, half_units(down) as int, s);
    lemma_mul_is_commutative(q, half_units(down) as int);
    lemma_mul_is_commutative(q, s);
    lemma_mul_is_commutative(q, half_units(down) as int + s);
}

proof fn lemma_normal(exp: nat, mant: nat, u: nat, down: u16, out: u16)
    requires
        113 <= exp <= 142,
        mant < 0x80_0000,
        u == (0x80_0000 + mant) * pow2((exp - 1) as nat),
        down == (exp - 112) * 1024 + mant / 0x2000,
        ({
            let low = mant % 0x2000;
            out == if low > 0x1000 || (low == 0x1000 && (mant / 0x2000) % 2 == 1) {
                (down + 1) as u16
            } else {
                down
            }
        }),
    ensures
        is_nearest(u, out),
{
    let low = (mant % 0x2000) as int;
    let hm = (mant / 0x2000) as int;
    let p = pow2((exp - 1) as nat) as int;
    lemma_pow2_pos((exp - 1) as nat);
    lemma_neighbours(exp, mant, down);
    assert(u == (1024 + hm) * (0x2000 * p) + low * p) by (nonlinear_arith)
        requires
            u == (0x80_0000 + mant) * p,
            mant == hm * 0x2000 + low,
    ;
    assert(0 <= low * p < 0x2000 * p) by (nonlinear_arith)
        requires
            0 <= low < 0x2000,
            p > 0,
    ;
    assert((2 * (low * p) > 0x2000 * p) == (low > 0x1000)) by (nonlinear_arith)
        requires
            p > 0,
    ;
    assert((2 * (low * p) == 0x2000 * p) == (low == 0x1000)) by (nonlinear_arith)
        requires
            p > 0,
    ;
    lemma_round(u, down, out);
}

proof fn lemma_tiny(exp: nat, mant: nat, u: nat)
    requires
        exp <= 94,
        mant < 0x80_0000,
        u == if exp == 0 {
            mant
        } else {
            ((0x80_0000 + mant) * pow2((exp - 1) as nat)) as nat
        },
    ensures
        is_nearest(u, 0),
{
    // u is below 2^24 * 2^93, far under half a unit of 2^125.
    lemma2_to64();
    lemma_pow2_adds(32, 93);
    lemma_pow2_pos(93);
    let p = pow2(93) as int;
    assert(u < 0x100_0000 * p) by {
        if exp >= 1 {
            if exp < 94 {
                lemma_pow2_strictly_increases((exp - 1) as nat, 93);
            }
            let r = pow2((exp - 1) as nat) as int;
            lemma_pow2_pos((exp - 1) as nat);
            assert((0x80_0000 + mant) * r < 0x100_0000 * p) by (nonlinear_arith)
                requires
                    r <= p,
                    0 < r,
                    mant < 0x80_0000,
            ;
        }
    }
    let q = pow2(125) as int;
    assert(0 * q == 0) by (nonlinear_arith);
    assert(1 * q == q) by (nonlinear_arith);
    assert(half_units(0) == 0 && half_units(1) == 1);
    assert(half_in_single_units(1) == 0x1_0000_0000 * p);
    lemma_round(u, 0, 0);
}

proof fn lemma_small_quotient(full: nat, shift: nat)
    requires
        0x80_0000 <= full < 0x100_0000,
        14 <= shift < 32,
    ensures
        full / pow2(shift) < 1024,
        pow2(shift) == 2 * pow2((shift - 1) as nat),
        pow2((shift - 1) as nat) > 0,
{
    lemma2_to64();
    if shift > 14 {
        lemma_pow2_strictly_increases(14, shift);
    }
    let p = pow2(shift) as int;
    assert(full / (p as nat) < 1024) by (nonlinear_arith)
        requires
            full < 1024 * 0x4000,
            p >= 0x4000,
    ;
    lemma_pow2_unfold(shift);
    lemma_pow2_pos((shift - 1) as nat);
}

proof fn lemma_subnormal(exp: nat, mant: nat, u: nat, unit: nat, down: u16, out: u16)
    requires
        95 <= exp <= 112,
        mant < 0x80_0000,
        u == (0x80_0000 + mant) * pow2((exp - 1) as nat),
        unit == pow2((126 - exp) as nat),
        down == (mant + 0x80_0000) / unit,
        down < 1024,
        ({
            let low = (mant + 0x80_0000) % unit;
            out == if low > unit / 2 || (low == unit / 2 && down % 2 == 1) {
                (down + 1) as u16
            } else {
                down
            }
        }),
    ensures
        is_nearest(u, out),
{
    let low = ((mant + 0x80_0000) % unit) as int;
    let p = pow2((exp - 1) as nat) as int;
    let q = pow2(125) as int;
    let d = down as int;
    let n = unit as int;
    lemma_pow2_adds((126 - exp) as nat, (exp - 1) as nat);
    assert(n * p == q);
    lemma_pow2_pos((exp - 1) as nat);
    lemma_pow2_pos((126 - exp) as nat);
    lemma_pow2_unfold((126 - exp) as nat);
    lemma2_to64();
    lemma_half_step(down);
    assert(half_units(down) == down);
    assert(half_in_single_units(down) == d * q);
    assert(half_in_single_units((down + 1) as u16) == (d + 1) * q);
    assert((d + 1) * q == d * q + q) by (nonlinear_arith);
    vstd::arithmetic::div_mod::lemma_fundamental_div_mod((mant + 0x80_0000) as int, n);
    vstd::arithmetic::div_mod::lemma_mod_bound((mant + 0x80_0000) as int, n);
    assert(u == d * (n * p) + low * p) by (nonlinear_arith)
        requires
            u == (0x80_0000 + mant) * p,
            mant + 0x80_0000 == n * d + low,
    ;
    assert(0 <= low * p < n * p) by (nonlinear_arith)
        requires
            0 <= low < n,
            p > 0,
    ;
    let hw = n / 2;
    assert(n == 2 * hw);
    assert((2 * (low * p) > n * p) == (low > hw)) by (nonlinear_arith)
        requires
            p > 0,
            n == 2 * hw,
    ;
    assert((2 * (low * p) == n * p) == (low == hw)) by (nonlinear_arith)
        requires
            p > 0,
            n == 2 * hw,
    ;
    lemma_round(u, down, out);
}

proof fn lemma_single_of_finite(h: u16, x: u32)
    requires
        h % 0x8000 < 0x7C00,
        x < 0x7F80_0000,
        single_units(x) == half_in_single_units((h % 0x8000) as u16),
    ensures
        single_of(h) == (if h >= 0x8000 {
            0x8000_0000int
        } else {
            0
        }) + x,
{
    let m = (h % 0x8000) as u16;
    let c = choose|c: u32| c < 0x7F80_0000 && single_units(c) == half_in_single_units(m);
    if c < x {
        lemma_single_increasing(c, x);
    } else if x < c {
        lemma_single_increasing(x, c);
    }
}

/// A nearest pattern exists: walking up from a pattern that is not above `u`,
/// `u` is reached between two neighbours or passes the top.
proof fn lemma_nearest_exists(u: nat, from: u16)
    requires
        from <= 0x7C00,
        half_in_single_units(from) <= u,
    ensures
        exists|r: u16| is_nearest(u, r),
    decreases 0x7C00 - from,
{
    if from == 0x7C00 {
        assert forall|g: u16| g <= 0x7C00 && g != from implies distance(u, from)
            < #[trigger] distance(u, g) by {
            lemma_half_increasing(g, from);
        }
        assert(is_nearest(u, from));
    } else {
        let up = (from + 1) as u16;
        if half_in_single_units(up) <= u {
            lemma_nearest_exists(u, up);
        } else {
            let low = u - half_in_single_units(from);
            let gap = half_in_single_units(up) - half_in_single_units(from);
            let r = if 2 * low > gap || (2 * low == gap && from % 2 == 1) {
                up
            } else {
                from
            };
            lemma_round(u, from, r);
        }
    }
}

/// The magnitude of an encoded finite value is the nearest binary16 magnitude.
pub proof fn law_encode_is_nearest(x: u32)
    requires
        x % 0x8000_0000 < 0x7F80_0000,
    ensures
        is_nearest(single_units((x % 0x8000_0000) as u32), (half_of(x) % 0x8000) as u16),
        half_of(x) >= 0x8000 <==> x >= 0x8000_0000,
{
    let u = single_units((x % 0x8000_0000) as u32);
    let q = pow2(125) as int;
    assert(0 * q == 0) by (nonlinear_arith);
    assert(half_units(0) == 0);
    lemma_nearest_exists(u, 0);
    lemma_half_of_finite(x, choose|r: u16| is_nearest(u, r));
}

/// Decoding is exact: a finite value keeps its sign and its magnitude.
pub proof fn law_decode_is_exact(h: u16)
    requires
        h % 0x8000 < 0x7C00,
    ensures
        single_of(h) % 0x8000_0000 < 0x7F80_0000,
        single_units((single_of(h) % 0x8000_0000) as u32) == half_in_single_units(
            (h % 0x8000) as u16,
        ),
        single_of(h) >= 0x8000_0000 <==> h >= 0x8000,
{
    let x = lemma_decode_witness(h);
    lemma_single_of_finite(h, x);
}

/// The binary32 magnitude that has the value of a finite binary16 pattern.
proof fn lemma_decode_witness(h: u16) -> (x: u32)
    requires
        h % 0x8000 < 0x7C00,
    ensures
        x < 0x7F80_0000,
        single_units(x) == half_in_single_units((h % 0x8000) as u16),
{
    lemma2_to64();
    let low = (h % 0x8000) as u16;
    let exp = (low / 1024) as int;
    let mant = (low % 1024) as int;
    if exp == 0 {
        if mant == 0 {
            let q = pow2(125) as int;
            assert(0 * q == 0) by (nonlinear_arith);
            0
        } else {
            lemma_subnormal_witness(mant, mant, 113)
        }
    } else {
        let out = ((exp + 112) * 0x80_0000 + mant * 0x2000) as u32;
        let s = pow2((exp - 1) as nat) as int;
        let q = pow2(125) as int;
        let p = pow2((exp + 111) as nat) as int;
        lemma_pow2_adds((exp - 1) as nat, 125);
        lemma_pow2_adds(13, (exp + 111) as nat);
        assert(s * q == 0x2000 * p);
        assert(((1024 + mant) * s) * q == (0x80_0000 + mant * 0x2000) * p) by (nonlinear_arith)
            requires
                s * q == 0x2000 * p,
        ;
        assert(single_units(out) == (0x80_0000 + mant * 0x2000) * p);
        out
    }
}

/// Normalization of a subnormal magnitude: doubling until the leading bit is
/// in place.
proof fn lemma_subnormal_witness(mant: int, m: int, e: int) -> (x: u32)
    requires
        0 < mant < 0x400,
        0 < m < 0x800,
        103 <= e <= 113,
        m * pow2((e - 1) as nat) == mant * pow2(112),
        m >= pow2((113 - e) as nat),
    ensures
        x < 0x7F80_0000,
        single_units(x) == mant * pow2(125),
    decreases 0x800 - m,
{
    lemma2_to64();
    if m < 0x400 {
        if e == 103 {
            assert(false);
        }
        lemma_pow2_unfold((e - 1) as nat);
        lemma_pow2_unfold((114 - e) as nat);
        let p = pow2((e - 2) as nat) as int;
        assert((2 * m) * p == m * (2 * p)) by (nonlinear_arith);
        lemma_subnormal_witness(mant, 2 * m, e - 1)
    } else {
        let out = (e * 0x80_0000 + (m - 0x400) * 0x2000) as u32;
        let p = pow2((e - 1) as nat) as int;
        let r = pow2(112) as int;
        lemma_pow2_adds(13, 112);
        assert(single_units(out) == (0x80_0000 + (m - 0x400) * 0x2000) * p);
        assert((0x80_0000 + (m - 0x400) * 0x2000) * p == mant * (0x2000 * r)) by (nonlinear_arith)
            requires
                m * p == mant * r,
        ;
        out
    }
}

/// Encoding undoes decoding, for every pattern that is not "not a number".
pub proof fn law_encode_undoes_decode(h: u16)
    requires
        h % 0x8000 <= 0x7C00,
    ensures
        half_of(single_of(h)) == h,
{
    let low = (h % 0x8000) as u16;
    if low < 0x7C00 {
        law_decode_is_exact(h);
        let u = half_in_single_units(low);
        assert forall|g: u16| g <= 0x7C00 && g != low implies distance(u, low)
            < #[trigger] distance(u, g) by {
            if g < low {
                lemma_half_increasing(g, low);
            } else {
                lemma_half_increasing(low, g);
            }
        }
        lemma_half_of_finite(single_of(h), low);
    }
}

/// Encoding is stable: encoding, decoding and encoding again gives the same
/// pattern, whatever the value.
pub proof fn law_encode_is_stable(x: u32)
    ensures
        half_of(single_of(half_of(x))) == half_of(x),
{
    if x % 0x8000_0000 < 0x7F80_0000 {
        law_encode_is_nearest(x);
        law_encode_undoes_decode(half_of(x));
    } else if x % 0x8000_0000 == 0x7F80_0000 {
        law_encode_undoes_decode(half_of(x));
    }
}

/// The relative error of a round trip is at most 2^-11 for magnitudes from
/// 2^-14 up to the largest that does not overflow.
pub proof fn law_round_trip_error(x: u32)
    requires
        113 <= (x % 0x8000_0000) / 0x80_0000 <= 142,
    ensures
        2048 * distance(single_units((x % 0x8000_0000) as u32), (half_of(x) % 0x8000) as u16)
            <= single_units((x % 0x8000_0000) as u32),
{
    let m = (x % 0x8000_0000) as u32;
    let u = single_units(m);
    law_encode_is_nearest(x);
    let exp = (m / 0x80_0000) as nat;
    let mant = (m % 0x80_0000) as nat;
    let down = ((exp - 112) * 1024 + mant / 0x2000) as u16;
    let up = (down + 1) as u16;
    let low = (mant % 0x2000) as int;
    let hm = (mant / 0x2000) as int;
    let p = pow2((exp - 1) as nat) as int;
    lemma_pow2_pos((exp - 1) as nat);
    lemma_neighbours(exp, mant, down);
    assert(u == (1024 + hm) * (0x2000 * p) + low * p) by (nonlinear_arith)
        requires
            u == (0x80_0000 + mant) * p,
            mant == hm * 0x2000 + low,
    ;
    assert(0 <= low * p <= 0x2000 * p) by (nonlinear_arith)
        requires
            0 <= low < 0x2000,
            p > 0,
    ;
    let h = (half_of(x) % 0x8000) as u16;
    assert(distance(u, h) <= distance(u, down));
    assert(distance(u, h) <= distance(u, up));
    assert(distance(u, down) + distance(u, up) == 0x2000 * p);
    assert(u >= 0x80_0000 * p) by (nonlinear_arith)
        requires
            u == (0x80_0000 + mant) * p,
            p > 0,
            mant >= 0,
    ;
}

/// A magnitude below 65520, halfway from the largest finite binary16 value to
/// the next step, is not encoded as infinity.
proof fn lemma_no_overflow(x: u32)
    requires
        x % 0x8000_0000 < 0x477F_F000,
    ensures
        half_of(x) % 0x8000 < 0x7C00,
{
    law_encode_is_nearest(x);
    let m = (x % 0x8000_0000) as u32;
    let u = single_units(m) as int;
    let h = (half_of(x) % 0x8000) as u16;
    let p = pow2(153) as int;
    lemma2_to64();
    lemma_pow2_pos(153);
    lemma_pow2_unfold(154);
    lemma_pow2_unfold(155);
    lemma_pow2_adds(12, 141);
    lemma_pow2_adds(29, 125);
    lemma_pow2_adds(30, 125);
    let a = pow2(29) as int;
    let b = pow2(30) as int;
    let c = pow2(125) as int;
    let d = pow2(141) as int;
    lemma_single_increasing(m, 0x477F_F000);
    assert(single_units(0x477F_F000) == 0xFF_F000 * d);
    assert(0xFF_F000 * d == 4095 * p) by (nonlinear_arith)
        requires
            0x1000 * d == p,
    ;
    assert(half_in_single_units(0x7BFF) == 4094 * p) by {
        assert(half_units(0x7BFF) == 2047 * a);
        assert((2047 * a) * c == 4094 * p) by (nonlinear_arith)
            requires
                a * c == 2 * p,
        ;
    }
    assert(half_in_single_units(0x7C00) == 4096 * p) by {
        assert(half_units(0x7C00) == 1024 * b);
        assert((1024 * b) * c == 4096 * p) by (nonlinear_arith)
            requires
                b * c == 4 * p,
        ;
    }
    if h == 0x7C00 {
        assert(distance(u as nat, 0x7BFF) < distance(u as nat, 0x7C00));
    }
}

/// What encoding and decoding do to a number: the sign stays, and a magnitude
/// from 2^-14 up to below 65520, where infinity begins, moves by at most one part
/// in 2048.
pub proof fn law_round_trip(x: u32)
    requires
        0x3880_0000 <= x % 0x8000_0000 < 0x477F_F000,
    ensures
        ({
            let y = single_of(half_of(x));
            let u = single_units((x % 0x8000_0000) as u32) as int;
            let w = single_units((y % 0x8000_0000) as u32) as int;
            &&& y % 0x8000_0000 < 0x7F80_0000
            &&& y >= 0x8000_0000 <==> x >= 0x8000_0000
            &&& -u <= 2048 * (w - u) <= u
        }),
{
    lemma_no_overflow(x);
    law_encode_is_nearest(x);
    law_decode_is_exact(half_of(x));
    law_round_trip_error(x);
}

/// IEEE 754 half-precision decode. It is exact.
pub fn f16_bits_to_f32(h: u16) -> (r: u32)
    ensures
        r == single_of(h),
{
    let sign: u32 = if h >= 0x8000 {
        0x8000_0000
    } else {
        0
    };
    let exp: u32 = ((h % 0x8000) / 1024) as u32;
    let mant: u32 = (h % 1024) as u32;
    let ghost low = (h % 0x8000) as u16;
    assert(low == exp * 1024 + mant);
    if exp == 0x1F {
        return sign + 0x7F80_0000 + mant * 0x2000;
    }
    proof {
        lemma2_to64();
    }
    if exp == 0 {
        if mant == 0 {
            proof {
                let q = pow2(125) as int;
                assert(0 * q == 0) by (nonlinear_arith);
                lemma_single_of_finite(h, 0);
            }
            return sign;
        }
        // Subnormal: normalize.
        let mut e: u32 = 113;
        let mut m: u32 = mant;
        while m < 0x400
            invariant
                0 < m < 0x800,
                103 <= e <= 113,
                m * pow2((e - 1) as nat) == mant * pow2(112),
                m >= pow2((113 - e) as nat),
                0 < mant < 0x400,
            decreases 0x800 - m,
        {
            proof {
                if e == 103 {
                    lemma2_to64();
                    assert(false);
                }
                lemma_pow2_unfold((e - 1) as nat);
                lemma_pow2_unfold((114 - e) as nat);
                let p = pow2((e - 2) as nat) as int;
                assert((2 * m) * p == m * (2 * p)) by (nonlinear_arith);
            }
            m = m * 2;
            e = e - 1;
        }
        let out: u32 = e * 0x80_0000 + (m - 0x400) * 0x2000;
        proof {
            let p = pow2((e - 1) as nat) as int;
            let r = pow2(112) as int;
            lemma_pow2_adds(13, 112);
            lemma2_to64();
            assert(single_units(out) == (0x80_0000 + (m - 0x400) * 0x2000) * p);
            assert((0x80_0000 + (m - 0x400) * 0x2000) * p == mant * (0x2000 * r)) by (nonlinear_arith)
                requires
                    m * p == mant * r,
            ;
            lemma_single_of_finite(h, out);
        }
        sign + out
    } else {
        let out: u32 = (exp + 112) * 0x80_0000 + mant * 0x2000;
        proof {
            let s = pow2((exp - 1) as nat) as int;
            let q = pow2(125) as int;
            let p = pow2((exp + 111) as nat) as int;
            lemma_pow2_adds((exp - 1) as nat, 125);
            lemma_pow2_adds(13, (exp + 111) as nat);
            assert(s * q == 0x2000 * p);
            assert(((1024 + mant) * s) * q == (0x80_0000 + mant * 0x2000) * p) by (nonlinear_arith)
                requires
                    s * q == 0x2000 * p,
            ;
            assert(single_units(out) == (0x80_0000 + mant * 0x2000) * p);
            lemma_single_of_finite(h, out);
        }
        sign + out
    }
}

/// The sign bit of a pattern of 32 bits, as that of 16 bits.
pub open spec fn half_sign(x: u32) -> int {
    if x >= 0x8000_0000 {
        0x8000
    } else {
        0
    }
}

/// A quotient rounded to the nearest integer, ties to even, from its integer part, its
/// remainder, and the divisor.
pub open spec fn nearest_even(quotient: int, rest: int, divisor: int) -> int {
    if 2 * rest > divisor || (2 * rest == divisor && quotient % 2 == 1) {
        quotient + 1
    } else {
        quotient
    }
}

/// The binary16 pattern of a binary32 pattern, from its bits. From 2^-14 on the exponent
/// field is moved by 112 and thirteen bits of the fraction are rounded away; a magnitude
/// of 65536 or more is infinite. Below 2^-14 the significand counts units of 2^-24, and
/// below 2^-32 nothing is left.
pub proof fn law_encoded_pattern(x: u32)
    ensures
        ({
            let m = (x % 0x8000_0000) as int;
            let s = half_sign(x);
            let h = half_of(x) as int;
            &&& m > 0x7F80_0000 ==> h == s + 0x7E00
            &&& 0x4780_0000 <= m <= 0x7F80_0000 ==> h == s + 0x7C00
            &&& 0x3880_0000 <= m < 0x4780_0000 ==> h == s + nearest_even(
                (m - 0x3800_0000) / 0x2000,
                (m - 0x3800_0000) % 0x2000,
                0x2000,
            )
            &&& 0x2F80_0000 <= m < 0x3880_0000 ==> ({
                let full = m % 0x80_0000 + 0x80_0000;
                let unit = pow2((126 - m / 0x80_0000) as nat) as int;
                h == s + nearest_even(full / unit, full % unit, unit)
            })
            &&& m < 0x2F80_0000 ==> h == s
        }),
{
    lemma2_to64();
    let m = (x % 0x8000_0000) as u32;
    let exp = (m / 0x80_0000) as nat;
    let mant = (m % 0x80_0000) as nat;
    let u = single_units(m);
    if m < 0x7F80_0000 {
        if exp > 142 {
            lemma_overflow(exp, mant, u);
            lemma_half_of_finite(x, 0x7C00);
        } else if exp >= 113 {
            let down = ((exp - 112) * 1024 + mant / 0x2000) as u16;
            let low = mant % 0x2000;
            let out: u16 = if low > 0x1000 || (low == 0x1000 && (mant / 0x2000) % 2 == 1) {
                (down + 1) as u16
            } else {
                down
            };
            lemma_normal(exp, mant, u, down, out);
            lemma_half_of_finite(x, out);
        } else if exp <= 94 {
            lemma_tiny(exp, mant, u);
            lemma_half_of_finite(x, 0);
        } else {
            let shift = (126 - exp) as nat;
            let full = mant + 0x80_0000;
            let unit = pow2(shift);
            lemma_small_quotient(full, shift);
            lemma_pow2_pos(shift);
            lemma_pow2_unfold(shift);
            let down = (full / unit) as u16;
            let low = full % unit;
            let out: u16 = if low > unit / 2 || (low == unit / 2 && down % 2 == 1) {
                (down + 1) as u16
            } else {
                down
            };
            lemma_subnormal(exp, mant, u, unit, down, out);
            lemma_half_of_finite(x, out);
        }
    }
}

/// The binary32 pattern of a binary16 pattern, from its bits. The exponent field of a
/// number that is not smaller than 2^-14 is moved by 112, and the fraction takes thirteen
/// zeros; a smaller one, `m` units of 2^-24 with its highest bit at `k`, gets the exponent
/// of that bit.
pub proof fn law_decoded_pattern(h: u16, k: nat)
    ensures
        ({
            let m = (h % 0x8000) as int;
            let s: int = if h >= 0x8000 {
                0x8000_0000
            } else {
                0
            };
            let x = single_of(h) as int;
            &&& m >= 0x7C00 ==> x == s + 0x7F80_0000 + (m - 0x7C00) * 0x2000
            &&& 0x400 <= m < 0x7C00 ==> x == s + 0x3800_0000 + m * 0x2000
            &&& m == 0 ==> x == s
            &&& k < 10 && pow2(k) <= m < 2 * pow2(k) ==> x == s + (k + 103) * 0x80_0000 + (m
                - pow2(k)) * pow2((23 - k) as nat)
        }),
{
    lemma2_to64();
    let m = (h % 0x8000) as u16;
    let exp = (m / 1024) as nat;
    let mant = (m % 1024) as int;
    let q = pow2(125) as int;
    if m == 0 {
        assert(0 * q == 0) by (nonlinear_arith);
        lemma_single_of_finite(h, 0);
    } else if 0x400 <= m < 0x7C00 {
        let out = ((exp + 112) * 0x80_0000 + mant * 0x2000) as u32;
        let s = pow2((exp - 1) as nat) as int;
        let p = pow2((exp + 111) as nat) as int;
        lemma_pow2_adds((exp - 1) as nat, 125);
        lemma_pow2_adds(13, (exp + 111) as nat);
        assert(((1024 + mant) * s) * q == (0x80_0000 + mant * 0x2000) * p) by (nonlinear_arith)
            requires
                s * q == 0x2000 * p,
        ;
        assert(single_units(out) == (0x80_0000 + mant * 0x2000) * p);
        lemma_single_of_finite(h, out);
    } else if m < 0x400 && k < 10 && pow2(k) <= m < 2 * pow2(k) {
        let a = pow2(k) as int;
        let b = pow2((23 - k) as nat) as int;
        let p = pow2((k + 102) as nat) as int;
        lemma_pow2_adds(k, (23 - k) as nat);
        lemma_pow2_adds((23 - k) as nat, k + 102);
        lemma_pow2_pos((23 - k) as nat);
        let d = m - a;
        assert(0 <= d * b < 0x80_0000) by (nonlinear_arith)
            requires
                0 <= d < a,
                a * b == 0x80_0000,
                b > 0,
        ;
        let out = ((k + 103) * 0x80_0000 + d * b) as u32;
        assert(out / 0x80_0000 == k + 103 && out % 0x80_0000 == d * b);
        assert((0x80_0000 + d * b) * p == m * q) by (nonlinear_arith)
            requires
                d == m - a,
                a * b == 0x80_0000,
                b * p == q,
        ;
        lemma_single_of_finite(h, out);
    }
}

} // verus!
