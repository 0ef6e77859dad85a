//! Where the arithmetic is exact, the transform multiplies the energy of a
//! vector, the sum of its squares, by the padded dimension, and applied twice it
//! multiplies every entry by it.

use vstd::arithmetic::power2::{
    lemma2_to64, lemma_pow2_adds, lemma_pow2_pos, lemma_pow2_unfold, pow2,
};
use vstd::prelude::*;

use crate::arith::{Meaning, Op, MINUS_ONE, ONE, ZERO};
use crate::rhdh::{
    butterflies, butterfly, hadamard, law_padded_len, padded_len, rotated,
    sign_diagonal,
};

verus! {

/// The magnitude of an integer.
pub open spec fn magnitude(x: int) -> int {
    if x < 0 {
        -x
    } else {
        x
    }
}

/// Sums and differences of patterns whose values have a total magnitude up to
/// `bound` are exact. For binary32 this holds of the integers, with a bound of
/// 2^24.
pub open spec fn exact_up_to(f: Meaning, value: spec_fn(u32) -> int, bound: int) -> bool {
    forall|a: u32, b: u32|
        magnitude(value(a)) + magnitude(value(b)) <= bound ==> #[trigger] value(f(Op::Add, a, b))
            == value(a) + value(b) && value(f(Op::Sub, a, b)) == value(a) - value(b)
}

/// Zero is zero, and products of patterns whose values have a magnitude up to
/// `bound` with one and minus one are exact.
pub open spec fn signs_are_exact(f: Meaning, value: spec_fn(u32) -> int, bound: int) -> bool {
    &&& value(ZERO) == 0
    &&& forall|a: u32|
        magnitude(value(a)) <= bound ==> #[trigger] value(f(Op::Mul, a, ONE)) == value(a)
    &&& forall|a: u32|
        magnitude(value(a)) <= bound ==> #[trigger] value(f(Op::Mul, a, MINUS_ONE)) == -value(a)
}

/// The sum of the squares of a vector's values.
pub open spec fn energy(value: spec_fn(u32) -> int, v: Seq<u32>) -> int
    decreases v.len(),
{
    if v.len() == 0 {
        0
    } else {
        energy(value, v.drop_last()) + value(v.last()) * value(v.last())
    }
}

/// The sum of the magnitudes of a vector's values.
pub open spec fn total_magnitude(value: spec_fn(u32) -> int, v: Seq<u32>) -> int
    decreases v.len(),
{
    if v.len() == 0 {
        0
    } else {
        total_magnitude(value, v.drop_last()) + magnitude(value(v.last()))
    }
}

proof fn lemma_sums_split(value: spec_fn(u32) -> int, a: Seq<u32>, b: Seq<u32>)
    ensures
        energy(value, a + b) == energy(value, a) + energy(value, b),
        total_magnitude(value, a + b) == total_magnitude(value, a) + total_magnitude(value, b),
    decreases b.len(),
{
    if b.len() == 0 {
        assert(a + b =~= a);
    } else {
        lemma_sums_split(value, a, b.drop_last());
        assert((a + b).drop_last() =~= a + b.drop_last());
    }
}

proof fn lemma_total_magnitude(value: spec_fn(u32) -> int, v: Seq<u32>)
    ensures
        total_magnitude(value, v) >= 0,
        forall|i: int|
            0 <= i < v.len() ==> magnitude(value(#[trigger] v[i])) <= total_magnitude(value, v),
    decreases v.len(),
{
    if v.len() > 0 {
        let rest = v.drop_last();
        lemma_total_magnitude(value, rest);
        assert forall|i: int| 0 <= i < v.len() implies magnitude(value(#[trigger] v[i]))
            <= total_magnitude(value, v) by {
            if i < rest.len() {
                assert(rest[i] == v[i]);
            }
        }
    }
}

/// Blocks of `2 * h` entries fill a length that is a greater power of two.
proof fn lemma_blocks_fill(h: int, m: int, i: int)
    requires
        h > 0,
        0 <= i < m,
        exists|c: int| c >= 0 && #[trigger] (c * (2 * h)) == m,
    ensures
        (i / h) % 2 == 0 ==> i + h < m,
        (i / h) % 2 == 1 ==> i - h >= 0,
        ((m + i) / h) % 2 == (i / h) % 2,
{
    let c = choose|c: int| c >= 0 && #[trigger] (c * (2 * h)) == m;
    let q = i / h;
    assert(q * h <= i < q * h + h && 0 <= q) by (nonlinear_arith)
        requires
            q == i / h,
            h > 0,
            i >= 0,
    ;
    assert((m + i) / h == 2 * c + q) by (nonlinear_arith)
        requires
            q * h <= i < q * h + h,
            c * (2 * h) == m,
            h > 0,
    ;
    if q % 2 == 0 {
        let t = q / 2;
        assert(q == 2 * t);
        assert(t < c) by (nonlinear_arith)
            requires
                q == 2 * t,
                q * h <= i,
                i < m,
                c * (2 * h) == m,
                h > 0,
        ;
        assert(i + h < m) by (nonlinear_arith)
            requires
                t + 1 <= c,
                q == 2 * t,
                i < q * h + h,
                c * (2 * h) == m,
                h > 0,
        ;
    } else {
        assert(q >= 1);
        assert(i >= h) by (nonlinear_arith)
            requires
                q >= 1,
                q * h <= i,
                h > 0,
        ;
    }
}

/// A stage within two halves works on each of them.
proof fn lemma_butterfly_split(f: Meaning, a: Seq<u32>, b: Seq<u32>, h: int)
    requires
        a.len() == b.len(),
        h > 0,
        exists|c: int| c >= 0 && #[trigger] (c * (2 * h)) == a.len(),
    ensures
        butterfly(f, a + b, h) == butterfly(f, a, h) + butterfly(f, b, h),
{
    let m = a.len() as int;
    let l = butterfly(f, a + b, h);
    let r = butterfly(f, a, h) + butterfly(f, b, h);
    assert forall|i: int| 0 <= i < 2 * m implies l[i] == r[i] by {
        if i < m {
            lemma_blocks_fill(h, m, i);
            if (i / h) % 2 == 0 {
                assert((a + b)[i + h] == a[i + h]);
            } else {
                assert((a + b)[i - h] == a[i - h]);
            }
        } else {
            let j = i - m;
            lemma_blocks_fill(h, m, j);
            assert(m + j == i);
            if (j / h) % 2 == 0 {
                assert((a + b)[i + h] == b[j + h]);
            } else {
                assert((a + b)[i - h] == b[j - h]);
            }
        }
    }
    assert(l =~= r);
}

/// The stages from `h` on transform two halves and combine them.
pub proof fn lemma_butterflies_split(f: Meaning, a: Seq<u32>, b: Seq<u32>, j: nat, k: nat)
    requires
        j <= k,
        a.len() == pow2(k),
        b.len() == pow2(k),
    ensures
        butterflies(f, a + b, pow2(j) as int) == butterfly(
            f,
            butterflies(f, a, pow2(j) as int) + butterflies(f, b, pow2(j) as int),
            pow2(k) as int,
        ),
        butterflies(f, a, pow2(j) as int).len() == a.len(),
        butterflies(f, b, pow2(j) as int).len() == b.len(),
    decreases k - j,
{
    let h = pow2(j) as int;
    lemma_pow2_pos(j);
    lemma_pow2_pos(k);
    lemma_pow2_unfold((j + 1) as nat);
    if j == k {
        assert(butterflies(f, a, h) == a);
        assert(butterflies(f, b, h) == b);
        let s = butterfly(f, a + b, h);
        assert(butterflies(f, a + b, h) == butterflies(f, s, 2 * h));
        assert(butterflies(f, s, 2 * h) == s);
    } else {
        lemma_pow2_adds((j + 1) as nat, (k - j - 1) as nat);
        lemma_pow2_pos((k - j - 1) as nat);
        let c = pow2((k - j - 1) as nat) as int;
        assert(c * (2 * h) == pow2(k)) by (nonlinear_arith)
            requires
                pow2((j + 1) as nat) == 2 * h,
                pow2((j + 1) as nat) * c == pow2(k),
        ;
        lemma_butterfly_split(f, a, b, h);
        assert(2 * h <= pow2(k)) by (nonlinear_arith)
            requires
                c * (2 * h) == pow2(k),
                c >= 1,
                h > 0,
        ;
        lemma_butterflies_split(
            f,
            butterfly(f, a, h),
            butterfly(f, b, h),
            (j + 1) as nat,
            k,
        );
    }
}

/// What combining two halves does.
proof fn lemma_combined(
    f: Meaning,
    value: spec_fn(u32) -> int,
    bound: int,
    x: Seq<u32>,
    y: Seq<u32>,
    mx: int,
    my: int,
)
    requires
        exact_up_to(f, value, bound),
        x.len() == y.len(),
        x.len() > 0,
        mx + my <= bound,
        forall|i: int| 0 <= i < x.len() ==> magnitude(value(#[trigger] x[i])) <= mx,
        forall|i: int| 0 <= i < y.len() ==> magnitude(value(#[trigger] y[i])) <= my,
    ensures
        ({
            let r = butterfly(f, x + y, x.len() as int);
            &&& r.len() == 2 * x.len()
            &&& energy(value, r) == 2 * (energy(value, x) + energy(value, y))
            &&& forall|i: int| 0 <= i < r.len() ==> magnitude(value(#[trigger] r[i])) <= mx + my
        }),
{
    let m = x.len() as int;
    let r = butterfly(f, x + y, m);
    let s = Seq::new(x.len(), |i: int| f(Op::Add, x[i], y[i]));
    let d = Seq::new(x.len(), |i: int| f(Op::Sub, x[i], y[i]));
    assert forall|i: int| 0 <= i < 2 * m implies r[i] == (s + d)[i] by {
        if i < m {
            assert(i / m == 0) by (nonlinear_arith)
                requires
                    0 <= i < m,
            ;
            assert((x + y)[i + m] == y[i]);
        } else {
            assert(i / m == 1) by (nonlinear_arith)
                requires
                    m <= i < 2 * m,
            ;
            assert((x + y)[i - m] == x[i - m]);
            assert((x + y)[i] == y[i - m]);
        }
    }
    assert(r =~= s + d);
    lemma_sums_split(value, s, d);
    lemma_pairs(f, value, bound, x, y, mx, my);
    assert forall|i: int| 0 <= i < r.len() implies magnitude(value(#[trigger] r[i])) <= mx + my by {
        if i < m {
            assert(magnitude(value(x[i])) <= mx && magnitude(value(y[i])) <= my);
            assert(value(s[i]) == value(x[i]) + value(y[i]));
        } else {
            let t = i - m;
            assert(magnitude(value(x[t])) <= mx && magnitude(value(y[t])) <= my);
            assert(value(f(Op::Add, x[t], y[t])) == value(x[t]) + value(y[t]));
            assert(value(d[t]) == value(x[t]) - value(y[t]));
        }
    }
}

/// Sums and differences together have twice the energy.
proof fn lemma_pairs(
    f: Meaning,
    value: spec_fn(u32) -> int,
    bound: int,
    x: Seq<u32>,
    y: Seq<u32>,
    mx: int,
    my: int,
)
    requires
        exact_up_to(f, value, bound),
        x.len() == y.len(),
        mx + my <= bound,
        forall|i: int| 0 <= i < x.len() ==> magnitude(value(#[trigger] x[i])) <= mx,
        forall|i: int| 0 <= i < y.len() ==> magnitude(value(#[trigger] y[i])) <= my,
    ensures
        energy(value, Seq::new(x.len(), |i: int| f(Op::Add, x[i], y[i]))) + energy(
            value,
            Seq::new(x.len(), |i: int| f(Op::Sub, x[i], y[i])),
        ) == 2 * (energy(value, x) + energy(value, y)),
    decreases x.len(),
{
    let s = Seq::new(x.len(), |i: int| f(Op::Add, x[i], y[i]));
    let d = Seq::new(x.len(), |i: int| f(Op::Sub, x[i], y[i]));
    if x.len() > 0 {
        let xr = x.drop_last();
        let yr = y.drop_last();
        assert forall|i: int| 0 <= i < xr.len() implies magnitude(value(#[trigger] xr[i])) <= mx by {
            assert(xr[i] == x[i]);
        }
        assert forall|i: int| 0 <= i < yr.len() implies magnitude(value(#[trigger] yr[i])) <= my by {
            assert(yr[i] == y[i]);
        }
        lemma_pairs(f, value, bound, xr, yr, mx, my);
        assert(s.drop_last() =~= Seq::new(xr.len(), |i: int| f(Op::Add, xr[i], yr[i])));
        assert(d.drop_last() =~= Seq::new(xr.len(), |i: int| f(Op::Sub, xr[i], yr[i])));
        let n = x.len() - 1;
        let a = value(x[n]);
        let b = value(y[n]);
        assert(magnitude(a) <= mx && magnitude(b) <= my);
        assert(value(f(Op::Add, x[n], y[n])) == a + b);
        assert(value(f(Op::Sub, x[n], y[n])) == a - b);
        assert((a + b) * (a + b) + (a - b) * (a - b) == 2 * (a * a + b * b)) by (nonlinear_arith);
    }
}

/// Where sums and differences are exact, the Walsh-Hadamard transform multiplies
/// the energy of a vector by its length, and no entry of the result is greater
/// than the total magnitude.
pub proof fn law_transform_multiplies_energy(
    f: Meaning,
    value: spec_fn(u32) -> int,
    bound: int,
    v: Seq<u32>,
    k: nat,
)
    requires
        exact_up_to(f, value, bound),
        v.len() == pow2(k),
        total_magnitude(value, v) <= bound,
    ensures
        hadamard(f, v).len() == v.len(),
        energy(value, hadamard(f, v)) == v.len() * energy(value, v),
        forall|i: int|
            0 <= i < v.len() ==> magnitude(value(#[trigger] hadamard(f, v)[i])) <= total_magnitude(
                value,
                v,
            ),
    decreases k,
{
    lemma_total_magnitude(value, v);
    lemma2_to64();
    if k == 0 {
        assert(butterflies(f, v, 1) == v);
        assert(1 * energy(value, v) == energy(value, v));
    } else {
        let j = (k - 1) as nat;
        lemma_pow2_unfold(k);
        lemma_pow2_pos(j);
        let m = pow2(j) as int;
        let a = v.take(m);
        let b = v.skip(m);
        assert(a + b =~= v);
        lemma_sums_split(value, a, b);
        lemma_total_magnitude(value, a);
        lemma_total_magnitude(value, b);
        law_transform_multiplies_energy(f, value, bound, a, j);
        law_transform_multiplies_energy(f, value, bound, b, j);
        lemma_butterflies_split(f, a, b, 0, j);
        let x = hadamard(f, a);
        let y = hadamard(f, b);
        let ma = total_magnitude(value, a);
        let mb = total_magnitude(value, b);
        lemma_combined(f, value, bound, x, y, ma, mb);
        assert(hadamard(f, v) == butterfly(f, x + y, m));
        let ea = energy(value, a);
        let eb = energy(value, b);
        assert(2 * (m * ea + m * eb) == (2 * m) * (ea + eb)) by (nonlinear_arith);
    }
}

/// A vector that is padded and multiplied by signs.
pub open spec fn signed(f: Meaning, signs: Seq<u32>, v: Seq<u32>) -> Seq<u32> {
    Seq::new(
        signs.len(),
        |i: int|
            f(
                Op::Mul,
                if i < v.len() {
                    v[i]
                } else {
                    ZERO
                },
                signs[i],
            ),
    )
}

/// Padding and signs change neither energy nor magnitudes.
proof fn lemma_signed(
    f: Meaning,
    value: spec_fn(u32) -> int,
    bound: int,
    signs: Seq<u32>,
    v: Seq<u32>,
)
    requires
        signs_are_exact(f, value, bound),
        total_magnitude(value, v) <= bound,
        v.len() <= signs.len(),
        forall|i: int|
            0 <= i < signs.len() ==> #[trigger] signs[i] == ONE || signs[i] == MINUS_ONE,
    ensures
        energy(value, signed(f, signs, v)) == energy(value, v),
        total_magnitude(value, signed(f, signs, v)) == total_magnitude(value, v),
    decreases signs.len(),
{
    let w = signed(f, signs, v);
    if signs.len() > 0 {
        let sr = signs.drop_last();
        let n = signs.len() - 1;
        assert forall|i: int| 0 <= i < sr.len() implies #[trigger] sr[i] == ONE || sr[i]
            == MINUS_ONE by {
            assert(sr[i] == signs[i]);
        }
        let last = if n < v.len() {
            v[n]
        } else {
            ZERO
        };
        let x = value(last);
        lemma_total_magnitude(value, v);
        lemma_total_magnitude(value, v.drop_last());
        assert(signs[n] == ONE || signs[n] == MINUS_ONE);
        assert(value(w[n]) == x || value(w[n]) == -x);
        assert((-x) * (-x) == x * x) by (nonlinear_arith);
        assert(0int * 0 == 0);
        if v.len() == signs.len() {
            lemma_signed(f, value, bound, sr, v.drop_last());
            assert(w.drop_last() =~= signed(f, sr, v.drop_last()));
        } else {
            lemma_signed(f, value, bound, sr, v);
            assert(w.drop_last() =~= signed(f, sr, v));
        }
    }
}

/// Where the arithmetic is exact, a rotation multiplies the energy of a vector by
/// the padded dimension.
pub proof fn law_rotation_multiplies_energy(
    f: Meaning,
    value: spec_fn(u32) -> int,
    bound: int,
    seed: u64,
    v: Seq<u32>,
)
    requires
        exact_up_to(f, value, bound),
        signs_are_exact(f, value, bound),
        total_magnitude(value, v) <= bound,
    ensures
        energy(value, rotated(f, sign_diagonal(seed, padded_len(v.len())), v)) == padded_len(v.len())
            * energy(value, v),
{
    let p = padded_len(v.len());
    let signs = sign_diagonal(seed, p);
    law_padded_len(v.len());
    let k = choose|k: nat| p == pow2(k);
    lemma_signed(f, value, bound, signs, v);
    assert(rotated(f, signs, v) == hadamard(f, signed(f, signs, v)));
    law_transform_multiplies_energy(f, value, bound, signed(f, signs, v), k);
}

/// The values of patterns.
pub open spec fn values_of(value: spec_fn(u32) -> int, v: Seq<u32>) -> Seq<int> {
    v.map_values(|x: u32| value(x))
}

/// The Walsh-Hadamard transform of integers whose number is a power of two: the
/// transforms of the two halves, added and subtracted.
pub open spec fn integer_hadamard(w: Seq<int>, k: nat) -> Seq<int>
    decreases k,
{
    if k == 0 {
        w
    } else {
        let m = pow2((k - 1) as nat);
        let x = integer_hadamard(w.take(m as int), (k - 1) as nat);
        let y = integer_hadamard(w.skip(m as int), (k - 1) as nat);
        sums(x, y) + differences(x, y)
    }
}

/// Sums, entry by entry.
pub open spec fn sums(x: Seq<int>, y: Seq<int>) -> Seq<int> {
    Seq::new(x.len(), |i: int| x[i] + y[i])
}

/// Differences, entry by entry.
pub open spec fn differences(x: Seq<int>, y: Seq<int>) -> Seq<int> {
    Seq::new(x.len(), |i: int| x[i] - y[i])
}

/// A multiple, entry by entry.
pub open spec fn times(c: int, x: Seq<int>) -> Seq<int> {
    Seq::new(x.len(), |i: int| c * x[i])
}

proof fn lemma_integer_hadamard_len(w: Seq<int>, k: nat)
    requires
        w.len() == pow2(k),
    ensures
        integer_hadamard(w, k).len() == w.len(),
    decreases k,
{
    if k > 0 {
        let j = (k - 1) as nat;
        lemma_pow2_unfold(k);
        lemma_integer_hadamard_len(w.take(pow2(j) as int), j);
        lemma_integer_hadamard_len(w.skip(pow2(j) as int), j);
    }
}

/// The transform of integers is linear.
proof fn lemma_integer_hadamard_linear(p: Seq<int>, q: Seq<int>, k: nat)
    requires
        p.len() == pow2(k),
        q.len() == pow2(k),
    ensures
        integer_hadamard(sums(p, q), k) == sums(integer_hadamard(p, k), integer_hadamard(q, k)),
        integer_hadamard(differences(p, q), k) == differences(
            integer_hadamard(p, k),
            integer_hadamard(q, k),
        ),
    decreases k,
{
    lemma_integer_hadamard_len(p, k);
    lemma_integer_hadamard_len(q, k);
    if k > 0 {
        let j = (k - 1) as nat;
        let m = pow2(j) as int;
        lemma_pow2_unfold(k);
        let (p1, p2) = (p.take(m), p.skip(m));
        let (q1, q2) = (q.take(m), q.skip(m));
        lemma_integer_hadamard_linear(p1, q1, j);
        lemma_integer_hadamard_linear(p2, q2, j);
        lemma_integer_hadamard_len(p1, j);
        lemma_integer_hadamard_len(p2, j);
        lemma_integer_hadamard_len(q1, j);
        lemma_integer_hadamard_len(q2, j);
        assert(sums(p, q).take(m) =~= sums(p1, q1));
        assert(sums(p, q).skip(m) =~= sums(p2, q2));
        assert(differences(p, q).take(m) =~= differences(p1, q1));
        assert(differences(p, q).skip(m) =~= differences(p2, q2));
        assert(integer_hadamard(sums(p, q), k) =~= sums(
            integer_hadamard(p, k),
            integer_hadamard(q, k),
        ));
        assert(integer_hadamard(differences(p, q), k) =~= differences(
            integer_hadamard(p, k),
            integer_hadamard(q, k),
        ));
    }
}

/// The transform of integers, twice, is a multiple.
proof fn lemma_integer_hadamard_twice(w: Seq<int>, k: nat)
    requires
        w.len() == pow2(k),
    ensures
        integer_hadamard(integer_hadamard(w, k), k) == times(w.len() as int, w),
    decreases k,
{
    lemma2_to64();
    if k == 0 {
        assert(times(1, w) =~= w);
    } else {
        let j = (k - 1) as nat;
        let m = pow2(j) as int;
        lemma_pow2_unfold(k);
        let a = w.take(m);
        let b = w.skip(m);
        let x = integer_hadamard(a, j);
        let y = integer_hadamard(b, j);
        lemma_integer_hadamard_len(a, j);
        lemma_integer_hadamard_len(b, j);
        let s = sums(x, y);
        let d = differences(x, y);
        assert((s + d).take(m) =~= s);
        assert((s + d).skip(m) =~= d);
        lemma_integer_hadamard_linear(x, y, j);
        lemma_integer_hadamard_twice(a, j);
        lemma_integer_hadamard_twice(b, j);
        let xx = times(m, a);
        let yy = times(m, b);
        let r = sums(sums(xx, yy), differences(xx, yy)) + differences(
            sums(xx, yy),
            differences(xx, yy),
        );
        let want = times(2 * m, w);
        assert forall|i: int| 0 <= i < 2 * m implies r[i] == want[i] by {
            if i < m {
                assert(w[i] == a[i]);
                assert((m * a[i] + m * b[i]) + (m * a[i] - m * b[i]) == (2 * m) * a[i])
                    by (nonlinear_arith);
            } else {
                let t = i - m;
                assert(w[i] == b[t]);
                assert((m * a[t] + m * b[t]) - (m * a[t] - m * b[t]) == (2 * m) * b[t])
                    by (nonlinear_arith);
            }
        }
        assert(r =~= want);
    }
}

/// Where sums and differences are exact, the transform of patterns is that of
/// their values.
proof fn lemma_transform_of_values(
    f: Meaning,
    value: spec_fn(u32) -> int,
    bound: int,
    v: Seq<u32>,
    k: nat,
)
    requires
        exact_up_to(f, value, bound),
        v.len() == pow2(k),
        total_magnitude(value, v) <= bound,
    ensures
        values_of(value, hadamard(f, v)) == integer_hadamard(values_of(value, v), k),
    decreases k,
{
    lemma2_to64();
    law_transform_multiplies_energy(f, value, bound, v, k);
    if k == 0 {
        assert(butterflies(f, v, 1) == v);
    } else {
        let j = (k - 1) as nat;
        lemma_pow2_unfold(k);
        lemma_pow2_pos(j);
        let m = pow2(j) as int;
        let a = v.take(m);
        let b = v.skip(m);
        assert(a + b =~= v);
        lemma_sums_split(value, a, b);
        lemma_total_magnitude(value, a);
        lemma_total_magnitude(value, b);
        lemma_transform_of_values(f, value, bound, a, j);
        lemma_transform_of_values(f, value, bound, b, j);
        law_transform_multiplies_energy(f, value, bound, a, j);
        law_transform_multiplies_energy(f, value, bound, b, j);
        lemma_butterflies_split(f, a, b, 0, j);
        let x = hadamard(f, a);
        let y = hadamard(f, b);
        let r = hadamard(f, v);
        assert(r == butterfly(f, x + y, m));
        let vx = values_of(value, x);
        let vy = values_of(value, y);
        assert(values_of(value, v).take(m) =~= values_of(value, a));
        assert(values_of(value, v).skip(m) =~= values_of(value, b));
        let want = sums(vx, vy) + differences(vx, vy);
        assert forall|i: int| 0 <= i < 2 * m implies values_of(value, r)[i] == want[i] by {
            let t = if i < m {
                i
            } else {
                i - m
            };
            assert(magnitude(value(x[t])) <= total_magnitude(value, a));
            assert(magnitude(value(y[t])) <= total_magnitude(value, b));
            assert(value(f(Op::Add, x[t], y[t])) == value(x[t]) + value(y[t]));
            if i < m {
                assert(i / m == 0) by (nonlinear_arith)
                    requires
                        0 <= i < m,
                ;
                assert((x + y)[i] == x[t] && (x + y)[i + m] == y[t]);
            } else {
                assert(i / m == 1) by (nonlinear_arith)
                    requires
                        m <= i < 2 * m,
                ;
                assert((x + y)[i - m] == x[t] && (x + y)[i] == y[t]);
            }
        }
        assert(values_of(value, r) =~= want);
    }
}

/// A bound on every entry bounds the total.
proof fn lemma_total_bound(value: spec_fn(u32) -> int, v: Seq<u32>, b: int)
    requires
        forall|i: int| 0 <= i < v.len() ==> magnitude(value(#[trigger] v[i])) <= b,
    ensures
        total_magnitude(value, v) <= v.len() * b,
    decreases v.len(),
{
    if v.len() > 0 {
        let rest = v.drop_last();
        assert forall|i: int| 0 <= i < rest.len() implies magnitude(value(#[trigger] rest[i]))
            <= b by {
            assert(rest[i] == v[i]);
        }
        lemma_total_bound(value, rest, b);
        assert(magnitude(value(v[v.len() - 1])) <= b);
        let n = rest.len() as int;
        assert(n * b + b == (n + 1) * b) by (nonlinear_arith);
    } else {
        assert(0 * b == 0) by (nonlinear_arith);
    }
}

/// Where sums and differences are exact, the Walsh-Hadamard transform is its own
/// inverse up to the length: applied twice, it multiplies every entry by it.
pub proof fn law_transform_twice(
    f: Meaning,
    value: spec_fn(u32) -> int,
    bound: int,
    v: Seq<u32>,
    k: nat,
)
    requires
        exact_up_to(f, value, bound),
        v.len() == pow2(k),
        v.len() * total_magnitude(value, v) <= bound,
    ensures
        hadamard(f, hadamard(f, v)).len() == v.len(),
        forall|i: int|
            0 <= i < v.len() ==> value(#[trigger] hadamard(f, hadamard(f, v))[i]) == v.len()
                * value(v[i]),
{
    lemma_pow2_pos(k);
    lemma_total_magnitude(value, v);
    let t = total_magnitude(value, v);
    let n = v.len() as int;
    assert(t <= n * t) by (nonlinear_arith)
        requires
            n >= 1,
            t >= 0,
    ;
    let once = hadamard(f, v);
    law_transform_multiplies_energy(f, value, bound, v, k);
    lemma_transform_of_values(f, value, bound, v, k);
    lemma_total_bound(value, once, t);
    law_transform_multiplies_energy(f, value, bound, once, k);
    lemma_transform_of_values(f, value, bound, once, k);
    lemma_integer_hadamard_twice(values_of(value, v), k);
    let twice = hadamard(f, once);
    assert forall|i: int| 0 <= i < n implies value(#[trigger] twice[i]) == n * value(v[i]) by {
        assert(values_of(value, twice)[i] == times(n, values_of(value, v))[i]);
    }
}

/// How many bits are set in both of two numbers.
pub open spec fn shared_bits(i: nat, j: nat) -> nat
    decreases i,
{
    if i == 0 {
        0
    } else {
        (i % 2) * (j % 2) + shared_bits(i / 2, j / 2)
    }
}

/// The first `n` of some integers added, each with a minus where its place and `j` share
/// an odd number of bits.
pub open spec fn signed_sum(w: Seq<int>, j: nat, n: nat) -> int
    decreases n,
{
    if n == 0 {
        0
    } else {
        signed_sum(w, j, (n - 1) as nat) + if shared_bits((n - 1) as nat, j) % 2 == 0 {
            w[n - 1]
        } else {
            -w[n - 1]
        }
    }
}

/// A bit above all others is shared where both numbers have it.
proof fn lemma_top_bit(i: nat, j: nat, t: nat)
    requires
        i < pow2(t),
        j < pow2(t),
    ensures
        shared_bits(i + pow2(t), j) == shared_bits(i, j),
        shared_bits(i, j + pow2(t)) == shared_bits(i, j),
        shared_bits(i + pow2(t), j + pow2(t)) == shared_bits(i, j) + 1,
    decreases t,
{
    lemma2_to64();
    if t == 0 {
        assert(i == 0 && j == 0);
        reveal_with_fuel(shared_bits, 3);
    } else {
        let s = (t - 1) as nat;
        lemma_pow2_unfold(t);
        let m = pow2(s);
        lemma_pow2_pos(s);
        lemma_top_bit(i / 2, j / 2, s);
        assert((i + 2 * m) / 2 == i / 2 + m && (i + 2 * m) % 2 == i % 2);
        assert((j + 2 * m) / 2 == j / 2 + m && (j + 2 * m) % 2 == j % 2);
        assert(shared_bits(0, j / 2) == 0);
        assert((0nat % 2) * (j % 2) == 0) by (nonlinear_arith);
        assert((0nat % 2) * ((j + 2 * m) % 2) == 0) by (nonlinear_arith);
        if i == 0 {
            assert(shared_bits(i, j) == 0);
            assert(shared_bits(i / 2, j / 2) == 0);
        }
    }
}

/// A signed sum over two halves: the one over the first, and the one over the second, which
/// changes its sign where `j` has the top bit.
proof fn lemma_signed_halves(a: Seq<int>, b: Seq<int>, j: nat, t: nat, c: nat)
    requires
        a.len() == pow2(t),
        b.len() == pow2(t),
        j < pow2(t),
        c <= pow2(t),
    ensures
        signed_sum(a + b, j, c) == signed_sum(a, j, c),
        signed_sum(a + b, j + pow2(t), c) == signed_sum(a, j, c),
        signed_sum(a + b, j, pow2(t) + c) == signed_sum(a, j, pow2(t)) + signed_sum(b, j, c),
        signed_sum(a + b, j + pow2(t), pow2(t) + c) == signed_sum(a, j, pow2(t)) - signed_sum(
            b,
            j,
            c,
        ),
    decreases c,
{
    if c == 0 {
        lemma_first_half(a, b, j, t, pow2(t));
    } else {
        let i = (c - 1) as nat;
        lemma_first_half(a, b, j, t, c);
        lemma_signed_halves(a, b, j, t, i);
        lemma_top_bit(i, j, t);
        let m = pow2(t);
        assert((a + b)[(m + i) as int] == b[i as int]);
        assert((m + c - 1) as nat == i + m);
    }
}

proof fn lemma_first_half(a: Seq<int>, b: Seq<int>, j: nat, t: nat, c: nat)
    requires
        a.len() == pow2(t),
        j < pow2(t),
        c <= pow2(t),
    ensures
        signed_sum(a + b, j, c) == signed_sum(a, j, c),
        signed_sum(a + b, j + pow2(t), c) == signed_sum(a, j, c),
    decreases c,
{
    if c > 0 {
        let i = (c - 1) as nat;
        lemma_first_half(a, b, j, t, i);
        lemma_top_bit(i, j, t);
        assert((a + b)[i as int] == a[i as int]);
    }
}

/// Each entry of the transform of integers is a signed sum of all.
proof fn lemma_entries(w: Seq<int>, k: nat, j: nat)
    requires
        w.len() == pow2(k),
        j < pow2(k),
    ensures
        integer_hadamard(w, k).len() == w.len(),
        integer_hadamard(w, k)[j as int] == signed_sum(w, j, pow2(k)),
    decreases k,
{
    lemma2_to64();
    lemma_integer_hadamard_len(w, k);
    if k == 0 {
        assert(pow2(0) == 1);
        reveal_with_fuel(signed_sum, 2);
        assert(shared_bits(0, j) == 0);
    } else {
        let t = (k - 1) as nat;
        lemma_pow2_unfold(k);
        let m = pow2(t);
        let a = w.take(m as int);
        let b = w.skip(m as int);
        assert(a + b =~= w);
        let r = if j < m {
            j
        } else {
            (j - m) as nat
        };
        lemma_integer_hadamard_len(a, t);
        lemma_integer_hadamard_len(b, t);
        lemma_entries(a, t, r);
        lemma_entries(b, t, r);
        lemma_signed_halves(a, b, r, t, m);
    }
}

/// Where sums and differences are exact, the transform is the Walsh-Hadamard transform: entry
/// `j` is the sum of all entries, each with a minus where its place and `j` share an odd
/// number of bits.
pub proof fn law_transform_entries(
    f: Meaning,
    value: spec_fn(u32) -> int,
    bound: int,
    v: Seq<u32>,
    k: nat,
    j: nat,
)
    requires
        exact_up_to(f, value, bound),
        v.len() == pow2(k),
        total_magnitude(value, v) <= bound,
        j < v.len(),
    ensures
        hadamard(f, v).len() == v.len(),
        value(hadamard(f, v)[j as int]) == signed_sum(
            Seq::new(v.len(), |i: int| value(v[i])),
            j,
            v.len(),
        ),
{
    lemma_transform_of_values(f, value, bound, v, k);
    lemma_entries(values_of(value, v), k, j);
    law_transform_multiplies_energy(f, value, bound, v, k);
    assert(values_of(value, v) =~= Seq::new(v.len(), |i: int| value(v[i])));
    assert(values_of(value, hadamard(f, v))[j as int] == value(hadamard(f, v)[j as int]));
}

} // verus!
