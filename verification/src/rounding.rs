//! Binary32 arithmetic as rounded arithmetic on the real numbers, and what it
//! makes of norms.

use vstd::arithmetic::power2::{lemma2_to64, lemma2_to64_rest, lemma_pow2_adds, lemma_pow2_pos, pow2};
use vstd::prelude::*;

use crate::arith::{above, divided, norm, sum_squares, Meaning, Op, ONE, ZERO};
use crate::half::{lemma_single_increasing, single_units};

verus! {

/// The magnitude of a number.
pub open spec fn size(x: real) -> real {
    if x < 0real {
        -x
    } else {
        x
    }
}

/// `x` is a finite number.
pub open spec fn finite(x: u32) -> bool {
    x % 0x8000_0000 < 0x7F80_0000
}

/// The value of a finite number.
#[verifier::opaque]
pub open spec fn value(x: u32) -> real {
    let m = single_units((x % 0x8000_0000) as u32) as real / pow2(149) as real;
    if x >= 0x8000_0000 {
        -m
    } else {
        m
    }
}

/// The relative error of one operation, 2^-24.
pub open spec fn eps() -> real {
    1real / 16777216real
}

/// What stands for results too small for a relative error, 2^-125: the error of
/// an operation is at most `eps()` times the sum of its result and this.
#[verifier::opaque]
pub open spec fn tiny() -> real {
    1real / pow2(125) as real
}

/// Results up to this magnitude, 2^127, do not overflow.
#[verifier::opaque]
pub open spec fn huge() -> real {
    pow2(127) as real
}

/// `r` is a rounded `x`.
pub open spec fn near(r: u32, x: real) -> bool {
    size(x) <= huge() ==> finite(r) && size(value(r) - x) <= eps() * (size(x) + tiny())
}

/// Every operation on finite numbers gives a rounded result. Binary32 arithmetic
/// that rounds to nearest is such an arithmetic.
pub open spec fn rounds(f: Meaning) -> bool {
    &&& forall|a: u32, b: u32|
        finite(a) && finite(b) ==> near(#[trigger] f(Op::Add, a, b), value(a) + value(b))
    &&& forall|a: u32, b: u32|
        finite(a) && finite(b) ==> near(#[trigger] f(Op::Sub, a, b), value(a) - value(b))
    &&& forall|a: u32, b: u32|
        finite(a) && finite(b) ==> near(#[trigger] f(Op::Mul, a, b), value(a) * value(b))
    &&& forall|a: u32, b: u32|
        finite(a) && finite(b) && value(b) != 0real ==> near(
            #[trigger] f(Op::Div, a, b),
            value(a) / value(b),
        )
    &&& forall|a: u32|
        finite(a) && value(a) >= 0real ==> {
            let r = #[trigger] f(Op::Sqrt, a, ZERO);
            &&& finite(r)
            &&& value(r) >= 0real
            &&& size(value(r) * value(r) - value(a)) <= 4real * eps() * value(a)
        }
}

/// Division by a positive number is undone by multiplication, and keeps the
/// order.
pub proof fn lemma_quotient(x: real, c: real)
    by (nonlinear_arith)
    requires
        c > 0real,
    ensures
        (x / c) * c == x,
        x >= 0real ==> x / c >= 0real,
        x > 0real ==> x / c > 0real,
        x == 0real ==> x / c == 0real,
        x == c ==> x / c == 1real,
{
}

/// What is needed of the constants.
pub proof fn lemma_constants()
    ensures
        eps() == 1real / 16777216real,
        0real < tiny(),
        tiny() * 1208925819614629174706176real * 1024real <= 1real,
        tiny() * 42535295865117307932921825928971026432real == 1real,
        huge() >= 5316911983139663491615228241121378304real,
        value(ZERO) == 0real,
        finite(ZERO),
        value(ONE) == 1real,
        finite(ONE),
{
    reveal(value);
    reveal(tiny);
    reveal(huge);
    lemma2_to64();
    lemma2_to64_rest();
    lemma_pow2_adds(64, 61);
    lemma_pow2_adds(64, 63);
    lemma_pow2_adds(63, 63);
    lemma_pow2_adds(126, 23);
    assert(pow2(125) == 0x1_0000_0000_0000_0000 * 0x2000_0000_0000_0000);
    assert(pow2(127) == 0x1_0000_0000_0000_0000 * 0x8000_0000_0000_0000);
    assert(pow2(126) == 0x8000_0000_0000_0000 * 0x8000_0000_0000_0000);
    assert(pow2(149) == pow2(126) * 0x80_0000);
    assert(single_units(0) == 0);
    lemma_quotient(0real, pow2(149) as real);
    lemma_quotient(1real, pow2(125) as real);
    assert(ONE % 0x8000_0000 == ONE);
    assert(single_units(ONE) == 0x80_0000 * pow2(126));
    lemma_quotient(single_units(ONE) as real, pow2(149) as real);
    assert(tiny() * 1208925819614629174706176real * 1024real <= 1real) by (nonlinear_arith)
        requires
            tiny() > 0real,
            tiny() * (pow2(125) as real) == 1real,
            pow2(125) as real >= 1208925819614629174706176real * 1024real,
    ;
}

/// A larger pattern has a larger value.
pub proof fn lemma_value_increasing(a: u32, b: u32)
    requires
        a < b <= 0x7F80_0000,
    ensures
        value(a) < value(b),
{
    reveal(value);
    lemma_single_increasing(a, b);
    lemma_pow2_pos(149);
    assert(a % 0x8000_0000 == a && b % 0x8000_0000 == b);
    lemma_quotients(single_units(a) as real, single_units(b) as real, pow2(149) as real);
}

proof fn lemma_quotients(a: real, b: real, c: real)
    by (nonlinear_arith)
    requires
        a < b,
        c > 0real,
    ensures
        a / c < b / c,
{
}

/// The sign of a number does not change its magnitude.
pub proof fn lemma_magnitude(x: u32)
    ensures
        value((x % 0x8000_0000) as u32) >= 0real,
        value(x) == if x >= 0x8000_0000 {
            -value((x % 0x8000_0000) as u32)
        } else {
            value((x % 0x8000_0000) as u32)
        },
{
    reveal(value);
    let m = (x % 0x8000_0000) as u32;
    assert(m % 0x8000_0000 == m);
    lemma_pow2_pos(149);
    lemma_quotient(single_units(m) as real, pow2(149) as real);
}

/// The patterns of some powers of two.
pub proof fn lemma_powers()
    ensures
        value(0x3880_0000) * 16384real == 1real,
        value(0x3C80_0000) * 64real == 1real,
        value(0x4080_0000) == 4real,
        value(0x4700_0000) == 32768real,
{
    reveal(value);
    lemma2_to64();
    lemma2_to64_rest();
    let c = pow2(149) as real;
    lemma_pow2_pos(149);
    lemma_pow2_adds(23, 112);
    lemma_pow2_adds(135, 14);
    lemma_pow2_adds(23, 120);
    lemma_pow2_adds(143, 6);
    lemma_pow2_adds(23, 128);
    lemma_pow2_adds(149, 2);
    lemma_pow2_adds(23, 141);
    lemma_pow2_adds(149, 15);
    assert(single_units(0x3880_0000) == 0x80_0000 * pow2(112));
    assert(single_units(0x3C80_0000) == 0x80_0000 * pow2(120));
    assert(single_units(0x4080_0000) == 0x80_0000 * pow2(128));
    assert(single_units(0x4700_0000) == 0x80_0000 * pow2(141));
    lemma_part(single_units(0x3880_0000) as real, 16384real, c);
    lemma_part(single_units(0x3C80_0000) as real, 64real, c);
    lemma_multiple(single_units(0x4080_0000) as real, 4real, c);
    lemma_multiple(single_units(0x4700_0000) as real, 32768real, c);
}

proof fn lemma_part(x: real, k: real, c: real)
    by (nonlinear_arith)
    requires
        c > 0real,
        x * k == c,
    ensures
        (x / c) * k == 1real,
{
}

proof fn lemma_multiple(x: real, k: real, c: real)
    by (nonlinear_arith)
    requires
        c > 0real,
        x == c * k,
    ensures
        x / c == k,
{
}

/// The length up to which rounding is looked at.
pub open spec fn length_limit() -> nat {
    0x4_0000
}

/// The sum of the squares of the first `n` values.
pub open spec fn total_square(v: Seq<u32>, n: nat) -> real
    decreases n,
{
    if n == 0 {
        0real
    } else {
        total_square(v, (n - 1) as nat) + value(v[n - 1]) * value(v[n - 1])
    }
}

/// All entries are finite.
pub open spec fn all_finite(v: Seq<u32>) -> bool {
    forall|i: int| 0 <= i < v.len() ==> finite(#[trigger] v[i])
}

/// A vector of moderate length and size: the sum of its squares is between 2^-80
/// and 2^120, which is not near the ends of the range.
pub open spec fn tame(v: Seq<u32>) -> bool {
    &&& v.len() <= length_limit()
    &&& all_finite(v)
    &&& 1real <= total_square(v, v.len()) * 1208925819614629174706176real
    &&& total_square(v, v.len()) <= 1329227995784915872903807060280344576real
}

/// One more square.
proof fn lemma_square_step(a: real, big: real, w: real, s: real, p: real, r: real, x: real)
    requires
        0real <= a <= 1real / 2real,
        0real <= w,
        0real <= x <= big,
        size(s - x) <= a * big,
        size(p - w) <= eps() * (w + tiny()),
        size(r - (s + p)) <= eps() * (size(s + p) + tiny()),
    ensures
        size(r - (x + w)) <= (a + 3real * eps()) * (big + w + 2real * tiny()),
{
    lemma_constants();
    let e = eps();
    let t = tiny();
    let next = big + w + 2real * t;
    assert(a * big <= big / 2real) by (nonlinear_arith)
        requires
            0real <= a <= 1real / 2real,
            0real <= big,
    ;
    assert(a * big <= a * next) by (nonlinear_arith)
        requires
            0real <= a,
            big <= next,
    ;
    assert(size(s + p) <= 2real * next);
    assert((a + 3real * e) * next == a * next + 3real * (e * next)) by (nonlinear_arith);
}

/// The computed sum of squares is near the true one.
pub proof fn lemma_sum_squares(f: Meaning, v: Seq<u32>, n: nat)
    requires
        rounds(f),
        n <= v.len() <= length_limit(),
        all_finite(v),
        total_square(v, n) <= 1329227995784915872903807060280344576real,
    ensures
        0real <= total_square(v, n),
        finite(sum_squares(f, v, n)),
        size(value(sum_squares(f, v, n)) - total_square(v, n)) <= 3real * (n as real) * eps() * (
        total_square(v, n) + 2real * (n as real) * tiny()),
    decreases n,
{
    lemma_constants();
    if n > 0 {
        let m = (n - 1) as nat;
        let x = value(v[n - 1]);
        let w = x * x;
        assert(w >= 0real) by (nonlinear_arith)
            requires
                w == x * x,
        ;
        lemma_sum_squares(f, v, m);
        let prev = sum_squares(f, v, m);
        let before = total_square(v, m);
        let sq = f(Op::Mul, v[n - 1], v[n - 1]);
        let r = f(Op::Add, prev, sq);
        let a = 3real * (m as real) * eps();
        let big = before + 2real * (m as real) * tiny();
        assert(near(sq, w));
        assert(2real * (m as real) * tiny() <= 1real) by (nonlinear_arith)
            requires
                0real <= (m as real) <= 262144real,
                0real < tiny(),
                tiny() * 1208925819614629174706176real * 1024real <= 1real,
        ;
        assert(0real <= 2real * (m as real) * tiny()) by (nonlinear_arith)
            requires
                0real <= (m as real),
                0real < tiny(),
        ;
        assert(0real <= a * big <= big) by (nonlinear_arith)
            requires
                0real <= a <= 1real,
                0real <= big,
        ;
        assert(near(r, value(prev) + value(sq)));
        lemma_square_step(a, big, w, value(prev), value(sq), value(r), before);
        assert(n as real == m as real + 1real);
        assert(a + 3real * eps() == 3real * (n as real) * eps()) by (nonlinear_arith)
            requires
                a == 3real * (m as real) * eps(),
                n as real == m as real + 1real,
        ;
        assert(2real * (m as real) * tiny() + 2real * tiny() == 2real * (n as real) * tiny())
            by (nonlinear_arith)
            requires
                n as real == m as real + 1real,
        ;
        assert(total_square(v, n) + 2real * (n as real) * tiny() == big + w + 2real * tiny());
    } else {
        assert(3real * (n as real) * eps() * (0real + 2real * (n as real) * tiny()) == 0real)
            by (nonlinear_arith)
            requires
                n as real == 0real,
        ;
    }
}

/// How much of a square the rounding of a norm of `n` entries can lose, as a
/// part of it.
pub open spec fn loss(n: nat) -> real {
    4real * (n as real + 1real) * eps()
}

/// The loss is small.
pub proof fn lemma_loss(n: nat)
    requires
        n <= length_limit(),
    ensures
        0real <= loss(n) <= 1real / 8real,
{
    let m = n as real;
    assert(0real <= 4real * (m + 1real) * eps() <= 1real / 8real) by (nonlinear_arith)
        requires
            0real <= m <= 262144real,
            eps() == 1real / 16777216real,
    ;
}

/// No square is above the sum of the squares.
pub proof fn lemma_one_square(v: Seq<u32>, n: nat, i: int)
    requires
        0 <= i < n,
    ensures
        value(v[i]) * value(v[i]) <= total_square(v, n),
    decreases n,
{
    lemma_square_sum_sign(v, (n - 1) as nat);
    let x = value(v[n - 1]);
    assert(x * x >= 0real) by (nonlinear_arith);
    if i < n - 1 {
        lemma_one_square(v, (n - 1) as nat, i);
    }
}

/// A sum of squares is not negative.
pub proof fn lemma_square_sum_sign(v: Seq<u32>, n: nat)
    ensures
        0real <= total_square(v, n),
    decreases n,
{
    if n > 0 {
        lemma_square_sum_sign(v, (n - 1) as nat);
        let x = value(v[n - 1]);
        assert(x * x >= 0real) by (nonlinear_arith);
    }
}

proof fn lemma_norm_bounds(n: real, total: real, s: real, q: real)
    requires
        0real <= n <= 262144real,
        1real <= total * 1208925819614629174706176real,
        size(s - total) <= 3real * n * eps() * (total + 2real * n * tiny()),
        s >= 0real ==> size(q - s) <= 4real * eps() * s,
    ensures
        0real < s,
        (1real - 4real * (n + 1real) * eps()) * total <= q,
        q <= (1real + 8real * (n + 1real) * eps()) * total,
{
    lemma_constants();
    let e = eps();
    assert(2real * n * tiny() <= e * total) by (nonlinear_arith)
        requires
            0real <= n <= 262144real,
            1real <= total * 1208925819614629174706176real,
            e == 1real / 16777216real,
            tiny() * 42535295865117307932921825928971026432real == 1real,
    ;
    let k = n * e;
    assert(0real <= k <= 1real / 64real);
    assert(3real * n * e * (total + 2real * n * tiny()) <= 4real * k * total) by (nonlinear_arith)
        requires
            k == n * e,
            0real <= k,
            2real * n * tiny() <= e * total,
            0real < total,
            e == 1real / 16777216real,
    ;
    let d = 4real * k * total;
    assert(0real <= d <= total / 16real) by (nonlinear_arith)
        requires
            d == 4real * k * total,
            0real <= k <= 1real / 64real,
            0real < total,
    ;
    assert(4real * (n + 1real) * e * total == d + 4real * (e * total)) by (nonlinear_arith)
        requires
            d == 4real * k * total,
            k == n * e,
    ;
    assert((1real - 4real * (n + 1real) * e) * total == total - 4real * (n + 1real) * e * total)
        by (nonlinear_arith);
    assert((1real + 8real * (n + 1real) * e) * total == total + 2real * (4real * (n + 1real) * e
        * total)) by (nonlinear_arith);
}

/// The computed norm of a tame vector is near its norm.
pub proof fn lemma_norm(f: Meaning, v: Seq<u32>)
    requires
        rounds(f),
        tame(v),
    ensures
        ({
            let q = value(norm(f, v)) * value(norm(f, v));
            let total = total_square(v, v.len());
            &&& finite(norm(f, v))
            &&& value(norm(f, v)) > 0real
            &&& (1real - loss(v.len())) * total <= q
            &&& q <= (1real + 2real * loss(v.len())) * total
            &&& total <= 2real * q
        }),
{
    lemma_constants();
    let n = v.len();
    let total = total_square(v, n);
    lemma_sum_squares(f, v, n);
    lemma_loss(n);
    let s = sum_squares(f, v, n);
    let r = value(norm(f, v));
    lemma_norm_bounds(n as real, total, value(s), r * r);
    assert(total <= 2real * (r * r)) by (nonlinear_arith)
        requires
            (1real - loss(n)) * total <= r * r,
            0real <= loss(n) <= 1real / 8real,
            0real < total,
    ;
    assert(r > 0real) by (nonlinear_arith)
        requires
            r >= 0real,
            0real < total,
            total <= 2real * (r * r),
    ;
}

/// The square of a rounded number is not much above that of the number.
pub proof fn lemma_rounded_square(r: real, y: real)
    requires
        size(r - y) <= eps() * (size(y) + tiny()),
    ensures
        r * r <= (1real + 4real * eps()) * (y * y) + tiny(),
{
    lemma_constants();
    let e = eps();
    let t = tiny();
    let a = size(y);
    let b = size(r);
    assert(b <= a + e * (a + t));
    assert(r * r == b * b && y * y == a * a) by (nonlinear_arith)
        requires
            b == r || b == -r,
            a == y || a == -y,
    ;
    assert(b * b <= (a + e * (a + t)) * (a + e * (a + t))) by (nonlinear_arith)
        requires
            0real <= b <= a + e * (a + t),
    ;
    assert((a + e * (a + t)) * (a + e * (a + t)) <= (1real + 4real * e) * (a * a) + t)
        by (nonlinear_arith)
        requires
            e == 1real / 16777216real,
            0real < t <= 1real,
            0real <= a,
    ;
}

/// The square of a rounded number is not much below that of the number.
pub proof fn lemma_rounded_square_low(r: real, y: real)
    requires
        size(r - y) <= eps() * (size(y) + tiny()),
    ensures
        (1real - 4real * eps()) * (y * y) <= r * r + tiny(),
{
    lemma_constants();
    let e = eps();
    let t = tiny();
    let a = size(y);
    let b = size(r);
    let c = a - e * (a + t);
    assert(b >= c);
    assert(r * r == b * b && y * y == a * a) by (nonlinear_arith)
        requires
            b == r || b == -r,
            a == y || a == -y,
    ;
    if c < 0real {
        assert(a <= t);
        assert(a * a <= t && (1real - 4real * e) * (a * a) <= a * a && b * b >= 0real)
            by (nonlinear_arith)
            requires
                0real <= a <= t,
                t <= 1real,
                e == 1real / 16777216real,
        ;
    } else {
        assert(b * b >= c * c) by (nonlinear_arith)
            requires
                b >= c >= 0real,
        ;
        assert((1real - 4real * e) * (a * a) <= c * c + t) by (nonlinear_arith)
            requires
                c == a - e * (a + t),
                e == 1real / 16777216real,
                0real < t <= 1real,
                0real <= a,
        ;
    }
}

proof fn lemma_quotient_squares(x: real, c: real)
    by (nonlinear_arith)
    requires
        c > 0real,
    ensures
        (x / c) * (x / c) * (c * c) == x * x,
{
}

/// A number divided by one that is not smaller by too much.
pub proof fn lemma_division(f: Meaning, a: u32, b: u32)
    requires
        rounds(f),
        finite(a),
        finite(b),
        value(b) > 0real,
        value(a) * value(a) <= 1099511627776real * (value(b) * value(b)),
    ensures
        ({
            let r = value(f(Op::Div, a, b));
            let y = value(a) / value(b);
            &&& finite(f(Op::Div, a, b))
            &&& size(r - y) <= eps() * (size(y) + tiny())
            &&& r * r * (value(b) * value(b)) <= (1real + 4real * eps()) * (value(a) * value(a))
                + tiny() * (value(b) * value(b))
            &&& (1real - 4real * eps()) * (value(a) * value(a)) <= r * r * (value(b) * value(b))
                + tiny() * (value(b) * value(b))
            &&& value(a) * value(a) <= 2real * (value(b) * value(b)) ==> size(r) <= 2real
        }),
{
    lemma_constants();
    let x = value(a);
    let c = value(b);
    let y = x / c;
    let r = value(f(Op::Div, a, b));
    lemma_quotient_squares(x, c);
    let cc = c * c;
    assert(cc > 0real) by (nonlinear_arith)
        requires
            c > 0real,
            cc == c * c,
    ;
    assert(y * y <= 1099511627776real) by (nonlinear_arith)
        requires
            y * y * cc == x * x,
            x * x <= 1099511627776real * cc,
            cc > 0real,
    ;
    assert(size(y) <= 1048576real) by (nonlinear_arith)
        requires
            y * y <= 1099511627776real,
    ;
    if x * x <= 2real * cc {
        assert(y * y <= 2real) by (nonlinear_arith)
            requires
                y * y * cc == x * x,
                x * x <= 2real * cc,
                cc > 0real,
        ;
        assert(size(y) <= 3real / 2real) by (nonlinear_arith)
            requires
                y * y <= 2real,
        ;
    }
    lemma_rounded_square(r, y);
    let bound = (1real + 4real * eps()) * (y * y) + tiny();
    assert(r * r * cc <= bound * cc) by (nonlinear_arith)
        requires
            r * r <= bound,
            cc > 0real,
    ;
    assert(bound * cc == (1real + 4real * eps()) * (y * y * cc) + tiny() * cc) by (nonlinear_arith)
        requires
            bound == (1real + 4real * eps()) * (y * y) + tiny(),
    ;
    lemma_rounded_square_low(r, y);
    let low = (1real - 4real * eps()) * (y * y);
    assert(low * cc <= r * r * cc + tiny() * cc) by (nonlinear_arith)
        requires
            low <= r * r + tiny(),
            cc > 0real,
    ;
    assert(low * cc == (1real - 4real * eps()) * (y * y * cc)) by (nonlinear_arith)
        requires
            low == (1real - 4real * eps()) * (y * y),
    ;
}

/// The squares of the entries of a vector divided by its norm.
proof fn lemma_unit_squares(f: Meaning, v: Seq<u32>, k: nat)
    requires
        rounds(f),
        tame(v),
        k <= v.len(),
    ensures
        ({
            let c = value(norm(f, v));
            total_square(divided(f, v, norm(f, v)), k) * (c * c) <= (1real + 4real * eps())
                * total_square(v, k) + (k as real) * tiny() * (c * c)
        }),
        ({
            let c = value(norm(f, v));
            (1real - 4real * eps()) * total_square(v, k) <= total_square(
                divided(f, v, norm(f, v)),
                k,
            ) * (c * c) + (k as real) * tiny() * (c * c)
        }),
        forall|i: int|
            0 <= i < k ==> finite(#[trigger] divided(f, v, norm(f, v))[i]) && size(
                value(divided(f, v, norm(f, v))[i]),
            ) <= 2real,
    decreases k,
{
    lemma_norm(f, v);
    let w = divided(f, v, norm(f, v));
    let c = value(norm(f, v));
    let cc = c * c;
    let g = 1real + 4real * eps();
    let h = 1real - 4real * eps();
    if k > 0 {
        let m = (k - 1) as nat;
        lemma_unit_squares(f, v, m);
        lemma_one_square(v, v.len(), k - 1);
        let z = value(v[k - 1]);
        assert(z * z <= 1099511627776real * cc) by (nonlinear_arith)
            requires
                z * z <= 2real * cc,
        ;
        lemma_division(f, v[k - 1], norm(f, v));
        let x = value(v[k - 1]);
        let y = value(w[k - 1]);
        assert((total_square(w, m) + y * y) * cc == total_square(w, m) * cc + y * y * cc)
            by (nonlinear_arith);
        assert(g * (total_square(v, m) + x * x) == g * total_square(v, m) + g * (x * x))
            by (nonlinear_arith);
        assert(h * (total_square(v, m) + x * x) == h * total_square(v, m) + h * (x * x))
            by (nonlinear_arith);
        assert((k as real) * tiny() * cc == (m as real) * tiny() * cc + tiny() * cc)
            by (nonlinear_arith)
            requires
                k as real == m as real + 1real,
        ;
    } else {
        assert(0real * cc == 0real && g * 0real == 0real && h * 0real == 0real && (k as real) * tiny() * cc == 0real)
            by (nonlinear_arith)
            requires
                k as real == 0real,
        ;
    }
}

/// A tame vector divided by its norm has a norm of one, up to rounding.
pub proof fn lemma_unit(f: Meaning, v: Seq<u32>)
    requires
        rounds(f),
        tame(v),
    ensures
        ({
            let w = divided(f, v, norm(f, v));
            &&& all_finite(w)
            &&& forall|i: int| 0 <= i < w.len() ==> size(value(#[trigger] w[i])) <= 2real
            &&& (1real - loss(v.len())) * total_square(w, w.len()) <= 1real + 5real * eps()
            &&& 1real - 5real * eps() <= (1real + 2real * loss(v.len())) * total_square(w, w.len())
            &&& 1real / 2real <= total_square(w, w.len()) <= 2real
        }),
{
    lemma_constants();
    let n = v.len();
    let w = divided(f, v, norm(f, v));
    lemma_unit_squares(f, v, n);
    lemma_norm(f, v);
    lemma_loss(n);
    let c = value(norm(f, v));
    lemma_unit_total(
        n as real,
        loss(n),
        total_square(v, n),
        total_square(w, n),
        c * c,
    );
    lemma_unit_size(n as real, loss(n), total_square(v, n), total_square(w, n), c * c);
}

proof fn lemma_unit_size(n: real, l: real, total: real, unit: real, cc: real)
    requires
        0real <= n <= 262144real,
        0real <= l <= 1real / 8real,
        0real < total,
        (1real - l) * total <= cc,
        cc <= (1real + 2real * l) * total,
        (1real - 4real * eps()) * total <= unit * cc + n * tiny() * cc,
        (1real - l) * unit <= 1real + 5real * eps(),
    ensures
        1real / 2real <= unit <= 2real,
        1real - 5real * eps() <= (1real + 2real * l) * unit,
{
    lemma_constants();
    let e = eps();
    let nt = n * tiny();
    assert(0real <= nt && nt * 64real <= e) by (nonlinear_arith)
        requires
            nt == n * tiny(),
            0real <= n <= 262144real,
            0real < tiny(),
            tiny() * 1208925819614629174706176real * 1024real <= 1real,
            e == 1real / 16777216real,
    ;
    assert(unit <= 2real) by (nonlinear_arith)
        requires
            (1real - l) * unit <= 1real + 5real * e,
            0real <= l <= 1real / 8real,
            e == 1real / 16777216real,
    ;
    assert(cc <= 5real / 4real * total) by (nonlinear_arith)
        requires
            cc <= (1real + 2real * l) * total,
            l <= 1real / 8real,
            0real < total,
    ;
    assert(0real < cc) by (nonlinear_arith)
        requires
            (1real - l) * total <= cc,
            0real <= l <= 1real / 8real,
            0real < total,
    ;
    let g = 1real + 2real * l;
    let u = unit + nt;
    assert((1real - 4real * e) * total <= u * cc) by (nonlinear_arith)
        requires
            (1real - 4real * e) * total <= unit * cc + n * tiny() * cc,
            u == unit + nt,
            nt == n * tiny(),
    ;
    assert(u >= 0real) by (nonlinear_arith)
        requires
            (1real - 4real * e) * total <= u * cc,
            0real < total,
            0real < cc,
            e == 1real / 16777216real,
    ;
    assert(u * cc <= u * (g * total)) by (nonlinear_arith)
        requires
            u >= 0real,
            cc <= g * total,
    ;
    assert(1real - 4real * e <= u * g) by (nonlinear_arith)
        requires
            (1real - 4real * e) * total <= u * (g * total),
            0real < total,
    ;
    assert(u * g == g * unit + g * nt) by (nonlinear_arith)
        requires
            u == unit + nt,
    ;
    assert(g * nt <= e) by (nonlinear_arith)
        requires
            nt * 64real <= e,
            0real <= nt,
            0real <= g <= 2real,
    ;
    assert(1real / 2real <= unit) by (nonlinear_arith)
        requires
            (1real - 4real * e) * total <= unit * cc + nt * cc,
            cc <= 5real / 4real * total,
            0real < cc,
            0real < total,
            0real <= nt <= e,
            e == 1real / 16777216real,
    ;
}

proof fn lemma_unit_total(n: real, l: real, total: real, unit: real, cc: real)
    requires
        0real <= n <= 262144real,
        0real <= l <= 1real / 8real,
        0real < total,
        (1real - l) * total <= cc,
        unit * cc <= (1real + 4real * eps()) * total + n * tiny() * cc,
    ensures
        (1real - l) * unit <= 1real + 5real * eps(),
{
    lemma_constants();
    let e = eps();
    let h = 1real - l;
    assert(cc > 0real) by (nonlinear_arith)
        requires
            h * total <= cc,
            h >= 7real / 8real,
            0real < total,
    ;
    assert(0real <= n * tiny() <= e) by (nonlinear_arith)
        requires
            0real <= n <= 262144real,
            0real < tiny(),
            tiny() * 1208925819614629174706176real * 1024real <= 1real,
            e == 1real / 16777216real,
    ;
    let nt = n * tiny();
    assert(h * (unit * cc) <= (1real + 4real * e) * (h * total) + nt * cc) by (nonlinear_arith)
        requires
            unit * cc <= (1real + 4real * e) * total + nt * cc,
            0real <= h <= 1real,
            0real <= nt,
            0real < cc,
    ;
    assert((1real + 4real * e) * (h * total) <= (1real + 4real * e) * cc) by (nonlinear_arith)
        requires
            h * total <= cc,
            e == 1real / 16777216real,
    ;
    assert(h * unit <= 1real + 5real * e) by (nonlinear_arith)
        requires
            h * (unit * cc) <= (1real + 4real * e) * cc + nt * cc,
            nt <= e,
            0real < cc,
    ;
}

/// The order of finite numbers is that of their values; what is not a number is above
/// nothing, and nothing is above it; a positive infinity is above every finite number.
pub proof fn law_above_compares_values(x: u32, y: u32)
    ensures
        finite(x) && finite(y) ==> (above(x, y) <==> value(x) > value(y)),
        x % 0x8000_0000 > 0x7F80_0000 || y % 0x8000_0000 > 0x7F80_0000 ==> !above(x, y),
        x == 0x7F80_0000 && finite(y) ==> above(x, y) && !above(y, x),
        x == 0xFF80_0000 && finite(y) ==> above(y, x) && !above(x, y),
{
    if finite(x) && finite(y) {
        lemma_constants();
        lemma_magnitude(x);
        lemma_magnitude(y);
        let a = (x % 0x8000_0000) as u32;
        let b = (y % 0x8000_0000) as u32;
        if a < b {
            lemma_value_increasing(a, b);
        }
        if b < a {
            lemma_value_increasing(b, a);
        }
        if a > 0 {
            lemma_value_increasing(0, a);
        }
        if b > 0 {
            lemma_value_increasing(0, b);
        }
    }
}

} // verus!
