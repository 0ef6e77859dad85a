//! With rounded arithmetic, a rotation neither loses a vector nor lets it grow
//! out of range.

use vstd::arithmetic::power2::{
    lemma2_to64, lemma_pow2_pos, lemma_pow2_strictly_increases, lemma_pow2_unfold, pow2,
};
use vstd::prelude::*;

use crate::arith::{Meaning, Op, MINUS_ONE, ONE, ZERO};
use crate::energy::lemma_butterflies_split;
use crate::rhdh::{butterflies, butterfly, is_power_of_two, law_padded_len};
use crate::rounding::{
    all_finite, eps, finite, lemma_constants, lemma_magnitude, lemma_one_square, lemma_rounded_square,
    lemma_rounded_square_low, lemma_square_sum_sign, lemma_unit, length_limit, near, rounds, size,
    tame, tiny, total_square, value,
};
use crate::state::{rotation, unit, IndexState};

verus! {

/// The squares of a vector that is put together add up.
proof fn lemma_squares_joined(a: Seq<u32>, b: Seq<u32>, k: nat)
    requires
        k <= a.len() + b.len(),
    ensures
        k <= a.len() ==> total_square(a + b, k) == total_square(a, k),
        k >= a.len() ==> total_square(a + b, k) == total_square(a, a.len()) + total_square(
            b,
            (k - a.len()) as nat,
        ),
    decreases k,
{
    if k > 0 {
        lemma_squares_joined(a, b, (k - 1) as nat);
        if k <= a.len() {
            assert((a + b)[k - 1] == a[k - 1]);
        } else {
            assert((a + b)[k - 1] == b[k - 1 - a.len()]);
        }
    }
}

/// The sums of two vectors, entry by entry.
spec fn sums(f: Meaning, x: Seq<u32>, y: Seq<u32>) -> Seq<u32> {
    Seq::new(x.len(), |i: int| f(Op::Add, x[i], y[i]))
}

/// The differences of two vectors, entry by entry.
spec fn differences(f: Meaning, x: Seq<u32>, y: Seq<u32>) -> Seq<u32> {
    Seq::new(x.len(), |i: int| f(Op::Sub, x[i], y[i]))
}

/// The entries of a vector whose squares add up to at most 2^50 are small.
proof fn lemma_small(x: real)
    by (nonlinear_arith)
    requires
        x * x <= 1125899906842624real,
    ensures
        size(x) <= 33554432real,
{
}

/// The squares of sums and differences add up to about twice those of the two
/// vectors.
proof fn lemma_sums_and_differences(f: Meaning, x: Seq<u32>, y: Seq<u32>, k: nat)
    requires
        rounds(f),
        x.len() == y.len(),
        k <= x.len(),
        all_finite(x),
        all_finite(y),
        total_square(x, x.len()) <= 1125899906842624real,
        total_square(y, y.len()) <= 1125899906842624real,
    ensures
        ({
            let before = 2real * (total_square(x, k) + total_square(y, k));
            let now = total_square(sums(f, x, y), k) + total_square(differences(f, x, y), k);
            &&& (1real - 4real * eps()) * before <= now + 2real * (k as real) * tiny()
            &&& now <= (1real + 4real * eps()) * before + 2real * (k as real) * tiny()
        }),
        forall|i: int| 0 <= i < k ==> finite(#[trigger] sums(f, x, y)[i]),
        forall|i: int| 0 <= i < k ==> finite(#[trigger] differences(f, x, y)[i]),
    decreases k,
{
    lemma_constants();
    let g = 1real + 4real * eps();
    let h = 1real - 4real * eps();
    let t = tiny();
    if k > 0 {
        let m = (k - 1) as nat;
        lemma_sums_and_differences(f, x, y, m);
        let a = value(x[k - 1]);
        let b = value(y[k - 1]);
        lemma_one_square(x, x.len(), k - 1);
        lemma_one_square(y, y.len(), k - 1);
        lemma_small(a);
        lemma_small(b);
        let s = f(Op::Add, x[k - 1], y[k - 1]);
        let d = f(Op::Sub, x[k - 1], y[k - 1]);
        assert(near(s, a + b));
        assert(near(d, a - b));
        lemma_rounded_square(value(s), a + b);
        lemma_rounded_square(value(d), a - b);
        lemma_rounded_square_low(value(s), a + b);
        lemma_rounded_square_low(value(d), a - b);
        let p = (a + b) * (a + b);
        let q = (a - b) * (a - b);
        assert(p + q == 2real * (a * a + b * b)) by (nonlinear_arith)
            requires
                p == (a + b) * (a + b),
                q == (a - b) * (a - b),
        ;
        let before = 2real * (total_square(x, m) + total_square(y, m));
        assert(g * (before + (p + q)) == g * before + g * p + g * q) by (nonlinear_arith);
        assert(h * (before + (p + q)) == h * before + h * p + h * q) by (nonlinear_arith);
        assert(2real * (k as real) * t == 2real * (m as real) * t + 2real * t) by (nonlinear_arith)
            requires
                k as real == m as real + 1real,
        ;
        assert(sums(f, x, y)[k - 1] == s);
        assert(differences(f, x, y)[k - 1] == d);
        assert(2real * (total_square(x, k) + total_square(y, k)) == before + (p + q));
    } else {
        assert(h * 0real == 0real && g * 0real == 0real && 2real * (k as real) * t == 0real)
            by (nonlinear_arith)
            requires
                k as real == 0real,
        ;
    }
}

/// One stage of the transform, over the whole length.
proof fn lemma_stage(f: Meaning, x: Seq<u32>, y: Seq<u32>)
    requires
        rounds(f),
        x.len() == y.len(),
        x.len() > 0,
        all_finite(x),
        all_finite(y),
        total_square(x, x.len()) <= 1125899906842624real,
        total_square(y, y.len()) <= 1125899906842624real,
    ensures
        ({
            let r = butterfly(f, x + y, x.len() as int);
            let before = total_square(x, x.len()) + total_square(y, y.len());
            let room = 2real * (x.len() as real) * tiny();
            &&& r.len() == 2 * x.len()
            &&& all_finite(r)
            &&& before <= total_square(r, r.len()) + room
            &&& total_square(r, r.len()) <= 3real * before + room
        }),
{
    lemma_constants();
    let m = x.len() as int;
    let r = butterfly(f, x + y, m);
    let s = sums(f, x, y);
    let d = differences(f, x, y);
    assert forall|i: int| 0 <= i < 2 * m implies r[i] == (s + d)[i] by {
        if i < m {
            assert(i / m == 0) by (nonlinear_arith)
                requires
                    0 <= i < m,
            ;
            assert((x + y)[i + m] == y[i]);
        } else {
            assert(i / m == 1) by (nonlinear_arith)
                requires
                    m <= i < 2 * m,
            ;
            assert((x + y)[i - m] == x[i - m]);
            assert((x + y)[i] == y[i - m]);
        }
    }
    assert(r =~= s + d);
    lemma_squares_joined(s, d, (2 * m) as nat);
    lemma_sums_and_differences(f, x, y, x.len());
    lemma_square_sum_sign(x, x.len());
    lemma_square_sum_sign(y, y.len());
    let before = total_square(x, x.len()) + total_square(y, y.len());
    assert(before <= (1real - 4real * eps()) * (2real * before) && (1real + 4real * eps()) * (2real
        * before) <= 3real * before) by (nonlinear_arith)
        requires
            0real <= before,
            eps() == 1real / 16777216real,
    ;
    assert forall|i: int| 0 <= i < r.len() implies finite(#[trigger] r[i]) by {
        if i < m {
            assert(r[i] == s[i]);
        } else {
            assert(r[i] == d[i - m]);
        }
    }
}

/// What `k` stages over `p` entries make of squares that add up to `v`: they keep
/// at least these, and let them grow by the square of the length at most.
#[verifier::opaque]
spec fn in_bounds(k: real, p: real, v: real, out: real) -> bool {
    &&& v <= out + k * p * tiny()
    &&& out <= p * p * (v + p * tiny())
}

proof fn lemma_no_stage(v: real)
    ensures
        in_bounds(0real, 1real, v, v),
{
    reveal(in_bounds);
    lemma_constants();
}

proof fn lemma_transform_bounds(k: real, p: real, v1: real, v2: real, o1: real, o2: real, out: real)
    requires
        1real <= p <= 131072real,
        0real <= k <= 17real,
        0real <= v1,
        0real <= v2,
        in_bounds(k, p, v1, o1),
        in_bounds(k, p, v2, o2),
        o1 + o2 <= out + 2real * p * tiny(),
        out <= 3real * (o1 + o2) + 2real * p * tiny(),
    ensures
        in_bounds(k + 1real, 2real * p, v1 + v2, out),
{
    reveal(in_bounds);
    lemma_constants();
    let t = tiny();
    let pt = p * t;
    let kpt = k * p * t;
    assert((k + 1real) * (2real * p) * t == 2real * kpt + 2real * pt) by (nonlinear_arith)
        requires
            pt == p * t,
            kpt == k * p * t,
    ;
    assert(2real * p * t == 2real * pt) by (nonlinear_arith)
        requires
            pt == p * t,
    ;
    assert(pt > 0real) by (nonlinear_arith)
        requires
            pt == p * t,
            p >= 1real,
            t > 0real,
    ;
    let pp = p * p;
    let all = v1 + v2 + 2real * pt;
    assert(pp >= 1real) by (nonlinear_arith)
        requires
            pp == p * p,
            p >= 1real,
    ;
    assert(pp * (v1 + pt) + pp * (v2 + pt) == pp * all) by (nonlinear_arith)
        requires
            all == v1 + v2 + 2real * pt,
    ;
    assert(2real * pt <= pp * all) by (nonlinear_arith)
        requires
            2real * pt <= all,
            pp >= 1real,
            0real <= all,
    ;
    assert((2real * p) * (2real * p) * all == 4real * (pp * all)) by (nonlinear_arith)
        requires
            pp == p * p,
    ;
}

/// The transform keeps at least the squares that it is given, and lets them grow
/// by the square of the length at most.
proof fn lemma_transform(f: Meaning, v: Seq<u32>, k: nat)
    requires
        rounds(f),
        k <= 18,
        v.len() == pow2(k),
        all_finite(v),
        total_square(v, v.len()) <= 4real,
    ensures
        ({
            let out = butterflies(f, v, 1);
            let p = pow2(k) as real;
            &&& out.len() == v.len()
            &&& all_finite(out)
            &&& in_bounds(k as real, p, total_square(v, v.len()), total_square(out, out.len()))
        }),
    decreases k,
{
    lemma_constants();
    lemma2_to64();
    lemma_square_sum_sign(v, v.len());
    if k == 0 {
        assert(butterflies(f, v, 1) == v);
        lemma_no_stage(total_square(v, v.len()));
    } else {
        let j = (k - 1) as nat;
        lemma_pow2_unfold(k);
        lemma_pow2_pos(j);
        if j < 17 {
            lemma_pow2_strictly_increases(j, 17);
        }
        let m = pow2(j) as int;
        let a = v.take(m);
        let b = v.skip(m);
        assert(v =~= a + b);
        lemma_squares_joined(a, b, v.len());
        lemma_square_sum_sign(a, a.len());
        lemma_square_sum_sign(b, b.len());
        assert forall|i: int| 0 <= i < a.len() implies finite(#[trigger] a[i]) by {
            assert(a[i] == v[i]);
        }
        assert forall|i: int| 0 <= i < b.len() implies finite(#[trigger] b[i]) by {
            assert(b[i] == v[i + m]);
        }
        lemma_transform(f, a, j);
        lemma_transform(f, b, j);
        lemma_butterflies_split(f, a, b, 0, j);
        let x = butterflies(f, a, 1);
        let y = butterflies(f, b, 1);
        let p = pow2(j) as real;
        let va = total_square(a, a.len());
        let vb = total_square(b, b.len());
        lemma_in_range(j as real, p, va, total_square(x, x.len()));
        lemma_in_range(j as real, p, vb, total_square(y, y.len()));
        lemma_stage(f, x, y);
        let out = butterflies(f, v, 1);
        assert(out == butterfly(f, x + y, m));
        lemma_transform_bounds(
            j as real,
            p,
            va,
            vb,
            total_square(x, x.len()),
            total_square(y, y.len()),
            total_square(out, out.len()),
        );
        assert(pow2(k) as real == 2real * p);
        assert(k as real == j as real + 1real);
    }
}

proof fn lemma_in_range(k: real, p: real, v: real, out: real)
    requires
        1real <= p <= 131072real,
        0real <= v <= 4real,
        in_bounds(k, p, v, out),
    ensures
        out <= 1125899906842624real,
{
    reveal(in_bounds);
    lemma_constants();
    let pt = p * tiny();
    assert(0real <= pt <= 1real) by (nonlinear_arith)
        requires
            pt == p * tiny(),
            1real <= p <= 131072real,
            0real < tiny(),
            tiny() * 1208925819614629174706176real * 1024real <= 1real,
    ;
    assert(0real <= p * p <= 17179869184real) by (nonlinear_arith)
        requires
            1real <= p <= 131072real,
    ;
    let pp = p * p;
    assert(pp * (v + pt) <= 5real * pp) by (nonlinear_arith)
        requires
            v + pt <= 5real,
            pp >= 0real,
    ;
}

proof fn lemma_minus_one()
    ensures
        value(MINUS_ONE) == -1real,
        finite(MINUS_ONE),
{
    lemma_constants();
    lemma_magnitude(MINUS_ONE);
    assert(MINUS_ONE % 0x8000_0000 == ONE);
}

/// A vector with zeros behind it and signs before its entries.
spec fn signed(f: Meaning, signs: Seq<u32>, v: Seq<u32>) -> Seq<u32> {
    Seq::new(
        signs.len(),
        |i: int|
            f(
                Op::Mul,
                if i < v.len() {
                    v[i]
                } else {
                    ZERO
                },
                signs[i],
            ),
    )
}

/// Signs and padding hardly change the squares.
proof fn lemma_signed(f: Meaning, signs: Seq<u32>, v: Seq<u32>, k: nat)
    requires
        rounds(f),
        k <= signs.len(),
        all_finite(v),
        forall|i: int|
            0 <= i < signs.len() ==> (#[trigger] signs[i]) == ONE || signs[i] == MINUS_ONE,
        total_square(v, v.len()) <= 2real,
    ensures
        ({
            let before = total_square(
                v,
                if k < v.len() {
                    k
                } else {
                    v.len()
                },
            );
            let now = total_square(signed(f, signs, v), k);
            &&& (1real - 4real * eps()) * before <= now + (k as real) * tiny()
            &&& now <= (1real + 4real * eps()) * before + (k as real) * tiny()
        }),
        forall|i: int| 0 <= i < k ==> finite(#[trigger] signed(f, signs, v)[i]),
    decreases k,
{
    lemma_constants();
    lemma_minus_one();
    let g = 1real + 4real * eps();
    let h = 1real - 4real * eps();
    let t = tiny();
    let at = if k < v.len() {
        k
    } else {
        v.len()
    };
    lemma_square_sum_sign(v, at);
    if k > 0 {
        let m = (k - 1) as nat;
        lemma_signed(f, signs, v, m);
        let x = if m < v.len() {
            v[m as int]
        } else {
            ZERO
        };
        let a = value(x);
        if m < v.len() {
            lemma_one_square(v, v.len(), m as int);
            assert(size(a) <= 2real) by (nonlinear_arith)
                requires
                    a * a <= 2real,
            ;
        }
        let y = a * value(signs[m as int]);
        assert(y == a || y == -a) by (nonlinear_arith)
            requires
                y == a * value(signs[m as int]),
                value(signs[m as int]) == 1real || value(signs[m as int]) == -1real,
        ;
        assert(y * y == a * a) by (nonlinear_arith)
            requires
                y == a || y == -a,
        ;
        let r = signed(f, signs, v)[m as int];
        assert(near(r, y));
        lemma_rounded_square(value(r), y);
        lemma_rounded_square_low(value(r), y);
        let last = if m < v.len() {
            m
        } else {
            v.len()
        };
        let before = total_square(v, last);
        assert(g * (before + a * a) == g * before + g * (a * a)) by (nonlinear_arith);
        assert(h * (before + a * a) == h * before + h * (a * a)) by (nonlinear_arith);
        assert((k as real) * t == (m as real) * t + t) by (nonlinear_arith)
            requires
                k as real == m as real + 1real,
        ;
        assert(a * a == 0real || m < v.len()) by (nonlinear_arith)
            requires
                a == 0real || m < v.len(),
        ;
        assert(total_square(v, at) == before + a * a);
    } else {
        assert(h * 0real == 0real && g * 0real == 0real && (k as real) * t == 0real)
            by (nonlinear_arith)
            requires
                k as real == 0real,
        ;
    }
}

/// The rotation of a tame vector is tame: what is neither near the lower nor the
/// upper end of the range does not get there.
pub proof fn law_rotation_stays_in_range(f: Meaning, st: IndexState, v: Seq<u32>)
    requires
        rounds(f),
        1 <= st.working_dim <= v.len(),
        tame(v.take(st.working_dim as int)),
    ensures
        tame(rotation(f, st.signs(), st.working_dim, v)),
        st.padded() <= length_limit(),
{
    lemma_constants();
    lemma2_to64();
    let w = v.take(st.working_dim as int);
    let u = unit(f, st.working_dim, v);
    let n = st.padded();
    law_padded_len(st.working_dim);
    assert(is_power_of_two(0x4_0000)) by {
        assert(pow2(18) == 0x4_0000);
    }
    let k = choose|k: nat| n as int == pow2(k);
    if k > 18 {
        lemma_pow2_strictly_increases(18, k);
    }
    lemma_unit(f, w);
    let signs = st.signs();
    lemma_signed(f, signs, u, n);
    let z = signed(f, signs, u);
    let e = eps();
    let t = tiny();
    let nt = (n as real) * t;
    assert(0real < nt <= e) by (nonlinear_arith)
        requires
            nt == (n as real) * t,
            1real <= n as real <= 262144real,
            0real < t,
            t * 1208925819614629174706176real * 1024real <= 1real,
            e == 1real / 16777216real,
    ;
    let total = total_square(u, u.len());
    assert(1real / 3real <= (1real - 4real * e) * total && (1real + 4real * e) * total <= 3real)
        by (nonlinear_arith)
        requires
            1real / 2real <= total <= 2real,
            e == 1real / 16777216real,
    ;
    assert(z.len() == n);
    lemma_transform(f, z, k);
    reveal(in_bounds);
    let out = butterflies(f, z, 1);
    assert(rotation(f, signs, st.working_dim, v) == out);
    let p = n as real;
    assert((k as real) * p * t <= 18real * nt) by (nonlinear_arith)
        requires
            nt == p * t,
            0real < nt,
            0real <= k as real <= 18real,
    ;
    let zs = total_square(z, z.len());
    assert(p * p * (zs + nt) <= 1152921504606846976real) by (nonlinear_arith)
        requires
            1real <= p <= 262144real,
            zs + nt <= 5real,
            0real <= zs + nt,
    ;
}

} // verus!
