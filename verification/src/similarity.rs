//! With rounded arithmetic, a score is a cosine up to rounding.

use vstd::arithmetic::power2::{lemma_pow2_pos, pow2};
use vstd::prelude::*;

use crate::arith::{divided, norm, Meaning, Op, ONE, ZERO};
use crate::codes::{code_at, law_code_at_range};
use crate::half::{half_of, law_round_trip, single_of, single_units};
use crate::lloyd::{centroid_table, is_width, level_count};
use crate::rounding::{
    all_finite, eps, finite, lemma_constants, lemma_division, lemma_loss, lemma_magnitude, lemma_norm, lemma_powers,
    lemma_unit, lemma_value_increasing, length_limit, loss, near, rounds, size, tame, tiny,
    total_square, value,
};
use crate::reload::{stored, stored_slot};
use crate::rhdh::law_padded_len;
use crate::score::{bucket, pair_count, pair_term, raw_score, reduced, tail};
use crate::spread::law_rotation_stays_in_range;
use crate::state::{
    lemma_rotation_len, live_slots, query_rotation, rotation, slot_score, IndexState, Slot,
};

verus! {

/// The centroids that packed codes stand for.
pub open spec fn centroids_at(codes: Seq<u8>, bits: u8, n: nat) -> Seq<u32> {
    Seq::new(n, |i: int| centroid_table(bits)[code_at(codes, bits, i) as int])
}

/// Every centroid is finite, and its magnitude is between 2^-6 and 4.
proof fn lemma_centroid(bits: u8, c: int)
    requires
        is_width(bits),
        0 <= c < level_count(bits),
    ensures
        finite(centroid_table(bits)[c]),
        size(value(centroid_table(bits)[c])) * 64real >= 1real,
        size(value(centroid_table(bits)[c])) <= 4real,
{
    reveal(centroid_table);
    let x = centroid_table(bits)[c];
    let m = (x % 0x8000_0000) as u32;
    assert(0x3C80_0000 < m < 0x4080_0000);
    lemma_powers();
    lemma_value_increasing(0x3C80_0000, m);
    lemma_value_increasing(m, 0x4080_0000);
    lemma_magnitude(x);
}

/// The squares of centroids add up to neither too little nor too much.
proof fn lemma_centroid_squares(codes: Seq<u8>, bits: u8, n: nat, k: nat)
    requires
        is_width(bits),
        k <= n,
    ensures
        (k as real) <= 4096real * total_square(centroids_at(codes, bits, n), k),
        total_square(centroids_at(codes, bits, n), k) <= 16real * (k as real),
        forall|i: int|
            0 <= i < k ==> finite(#[trigger] centroids_at(codes, bits, n)[i]) && size(
                value(centroids_at(codes, bits, n)[i]),
            ) <= 4real,
    decreases k,
{
    if k > 0 {
        lemma_centroid_squares(codes, bits, n, (k - 1) as nat);
        law_code_at_range(codes, bits, k - 1);
        lemma_centroid(bits, code_at(codes, bits, k - 1) as int);
        let d = value(centroids_at(codes, bits, n)[k - 1]);
        assert(d * d <= 16real && d * d * 4096real >= 1real) by (nonlinear_arith)
            requires
                size(d) * 64real >= 1real,
                size(d) <= 4real,
        ;
    }
}

/// The centroids of a vector are tame.
pub proof fn lemma_centroids_tame(codes: Seq<u8>, bits: u8, n: nat)
    requires
        is_width(bits),
        1 <= n <= length_limit(),
    ensures
        ({
            let d = centroids_at(codes, bits, n);
            &&& tame(d)
            &&& 1real <= 4096real * total_square(d, n)
            &&& total_square(d, n) <= 4194304real
            &&& forall|i: int| 0 <= i < n ==> size(value(#[trigger] d[i])) <= 4real
        }),
{
    lemma_centroid_squares(codes, bits, n, n);
}

/// What coordinate `i` can add to a score at most, before rounding, and room for
/// results too small to be rounded.
pub open spec fn weight(q: Seq<u32>, d: Seq<u32>, i: int) -> real {
    size(value(q[i]) * value(d[i])) + tiny()
}

/// The weight of the first `n` coordinates.
pub open spec fn weights(q: Seq<u32>, d: Seq<u32>, n: nat) -> real
    decreases n,
{
    if n == 0 {
        0real
    } else {
        weights(q, d, (n - 1) as nat) + weight(q, d, n - 1)
    }
}

/// The inner product of the first `n` values of two vectors.
pub open spec fn inner(q: Seq<u32>, d: Seq<u32>, n: nat) -> real
    decreases n,
{
    if n == 0 {
        0real
    } else {
        inner(q, d, (n - 1) as nat) + value(q[n - 1]) * value(d[n - 1])
    }
}

/// The weight of a pair.
spec fn pair_weight(q: Seq<u32>, d: Seq<u32>, u: int) -> real {
    weight(q, d, 2 * u) + weight(q, d, 2 * u + 1)
}

/// The part of a pair in the inner product.
spec fn pair_sum(q: Seq<u32>, d: Seq<u32>, u: int) -> real {
    value(q[2 * u]) * value(d[2 * u]) + value(q[2 * u + 1]) * value(d[2 * u + 1])
}

/// The weight of a bucket.
spec fn bucket_weight(q: Seq<u32>, d: Seq<u32>, j: int, blocks: nat) -> real
    decreases blocks,
{
    if blocks == 0 {
        tiny()
    } else {
        bucket_weight(q, d, j, (blocks - 1) as nat) + pair_weight(q, d, 8 * (blocks - 1) + j)
    }
}

/// The part of a bucket in the inner product.
spec fn bucket_sum(q: Seq<u32>, d: Seq<u32>, j: int, blocks: nat) -> real
    decreases blocks,
{
    if blocks == 0 {
        0real
    } else {
        bucket_sum(q, d, j, (blocks - 1) as nat) + pair_sum(q, d, 8 * (blocks - 1) + j)
    }
}

/// The weight of a tail.
spec fn tail_weight(q: Seq<u32>, d: Seq<u32>, from: int, to: int) -> real
    decreases to - from,
{
    if to <= from {
        tiny()
    } else {
        tail_weight(q, d, from, to - 1) + pair_weight(q, d, to - 1)
    }
}

/// The part of a tail in the inner product.
spec fn tail_sum(q: Seq<u32>, d: Seq<u32>, from: int, to: int) -> real
    decreases to - from,
{
    if to <= from {
        0real
    } else {
        tail_sum(q, d, from, to - 1) + pair_sum(q, d, to - 1)
    }
}

/// `x` is near the sum `s` of terms of weight `w`, up to `g` times the weight.
#[verifier::opaque]
spec fn held(x: u32, g: real, w: real, s: real) -> bool {
    &&& finite(x)
    &&& tiny() <= w
    &&& size(s) <= w
    &&& size(value(x) - s) <= g * w
}

/// A larger allowance does as well.
proof fn lemma_held_longer(x: u32, g: real, h: real, w: real, s: real)
    requires
        held(x, g, w, s),
        g <= h,
    ensures
        held(x, h, w, s),
{
    reveal(held);
    lemma_constants();
    lemma_allow(size(value(x) - s), g, h, w);
}

/// A larger allowance bounds what a smaller one does.
proof fn lemma_allow(x: real, g: real, h: real, w: real)
    by (nonlinear_arith)
    requires
        x <= g * w,
        g <= h,
        0real <= w,
    ensures
        x <= h * w,
{
}

/// A rounded sum of numbers that are near theirs.
proof fn lemma_add(
    f: Meaning,
    a: u32,
    b: u32,
    g: real,
    wa: real,
    wb: real,
    sa: real,
    sb: real,
)
    requires
        rounds(f),
        0real <= g <= 1real,
        wa + wb <= 1099511627776real,
        held(a, g, wa, sa),
        held(b, g, wb, sb),
    ensures
        held(f(Op::Add, a, b), g + 3real * eps(), wa + wb, sa + sb),
{
    reveal(held);
    lemma_constants();
    let e = eps();
    let x = value(a) + value(b);
    let w = wa + wb;
    assert(g * wa + g * wb == g * w) by (nonlinear_arith)
        requires
            w == wa + wb,
    ;
    assert(g * w <= w) by (nonlinear_arith)
        requires
            g <= 1real,
            w >= 0real,
    ;
    assert(near(f(Op::Add, a, b), x));
    assert(e * (size(x) + tiny()) <= 3real * (e * w));
    assert((g + 3real * e) * w == g * w + 3real * (e * w)) by (nonlinear_arith);
}

/// What the rounding bounds need of a query and the values of codes.
spec fn scorable(q: Seq<u32>, d: Seq<u32>) -> bool {
    &&& q.len() == d.len()
    &&& q.len() <= length_limit()
    &&& q.len() % 2 == 0
    &&& all_finite(q)
    &&& all_finite(d)
    &&& forall|i: int| 0 <= i < q.len() ==> size(value(#[trigger] q[i])) <= 2real
    &&& forall|i: int| 0 <= i < d.len() ==> size(value(#[trigger] d[i])) <= 4real
}

proof fn lemma_weight(f: Meaning, q: Seq<u32>, d: Seq<u32>, i: int)
    requires
        rounds(f),
        scorable(q, d),
        0 <= i < q.len(),
    ensures
        tiny() <= weight(q, d, i) <= 9real,
        held(f(Op::Mul, q[i], d[i]), eps(), weight(q, d, i), value(q[i]) * value(d[i])),
{
    reveal(held);
    lemma_constants();
    let a = value(q[i]);
    let b = value(d[i]);
    assert(size(a * b) <= 8real) by (nonlinear_arith)
        requires
            size(a) <= 2real,
            size(b) <= 4real,
    ;
    assert(near(f(Op::Mul, q[i], d[i]), a * b));
}

proof fn lemma_pair(f: Meaning, codes: Seq<u8>, bits: u8, q: Seq<u32>, u: int)
    requires
        rounds(f),
        is_width(bits),
        scorable(q, centroids_at(codes, bits, q.len())),
        0 <= u,
        2 * u + 1 < q.len(),
    ensures
        ({
            let d = centroids_at(codes, bits, q.len());
            let t = pair_term(f, codes, bits, q, centroid_table(bits), u);
            &&& tiny() <= pair_weight(q, d, u) <= 18real
            &&& held(t, 4real * eps(), pair_weight(q, d, u), pair_sum(q, d, u))
        }),
{
    lemma_constants();
    let d = centroids_at(codes, bits, q.len());
    let i = 2 * u;
    lemma_weight(f, q, d, i);
    lemma_weight(f, q, d, i + 1);
    lemma_add(
        f,
        f(Op::Mul, q[i], d[i]),
        f(Op::Mul, q[i + 1], d[i + 1]),
        eps(),
        weight(q, d, i),
        weight(q, d, i + 1),
        value(q[i]) * value(d[i]),
        value(q[i + 1]) * value(d[i + 1]),
    );
}

/// The allowance of a bucket or a tail of `n` pairs.
spec fn allowance(n: nat) -> real {
    (4real + 3real * (n as real)) * eps()
}

proof fn lemma_allowance(n: nat)
    requires
        n <= length_limit(),
    ensures
        4real * eps() <= allowance(n) <= 1real / 8real,
        allowance(n + 1) == allowance(n) + 3real * eps(),
{
    lemma_constants();
    let m = n as real;
    assert((4real + 3real * m) * eps() == 4real * eps() + 3real * (m * eps())) by (nonlinear_arith);
    assert(0real <= m * eps() <= 1real / 64real) by (nonlinear_arith)
        requires
            0real <= m <= 262144real,
            eps() == 1real / 16777216real,
    ;
    assert((4real + 3real * (m + 1real)) * eps() == (4real + 3real * m) * eps() + 3real * eps())
        by (nonlinear_arith);
    assert((n + 1) as real == m + 1real);
}

proof fn lemma_allowance_order(a: nat, b: nat)
    requires
        a <= b,
    ensures
        allowance(a) <= allowance(b),
{
    lemma_constants();
    let x = a as real;
    let y = b as real;
    assert((4real + 3real * x) * eps() <= (4real + 3real * y) * eps()) by (nonlinear_arith)
        requires
            x <= y,
            eps() > 0real,
    ;
}

/// Zero is near an empty sum.
proof fn lemma_nothing(g: real)
    requires
        0real <= g,
    ensures
        held(ZERO, g, tiny(), 0real),
{
    reveal(held);
    lemma_constants();
    assert(0real <= g * tiny()) by (nonlinear_arith)
        requires
            0real <= g,
            0real < tiny(),
    ;
}

proof fn lemma_bucket(f: Meaning, codes: Seq<u8>, bits: u8, q: Seq<u32>, j: int, blocks: nat)
    requires
        rounds(f),
        is_width(bits),
        scorable(q, centroids_at(codes, bits, q.len())),
        0 <= j < 8,
        16 * blocks <= q.len(),
    ensures
        ({
            let d = centroids_at(codes, bits, q.len());
            let t = bucket(f, codes, bits, q, centroid_table(bits), j, blocks);
            let w = bucket_weight(q, d, j, blocks);
            &&& w <= 1real + 18real * (blocks as real)
            &&& held(t, allowance(blocks), w, bucket_sum(q, d, j, blocks))
        }),
    decreases blocks,
{
    lemma_constants();
    let d = centroids_at(codes, bits, q.len());
    lemma_allowance(blocks);
    if blocks > 0 {
        let m = (blocks - 1) as nat;
        let u = 8 * m + j;
        lemma_bucket(f, codes, bits, q, j, m);
        lemma_pair(f, codes, bits, q, u);
        lemma_allowance(m);
        let t = pair_term(f, codes, bits, q, centroid_table(bits), u);
        lemma_held_longer(t, 4real * eps(), allowance(m), pair_weight(q, d, u), pair_sum(q, d, u));
        lemma_add(
            f,
            bucket(f, codes, bits, q, centroid_table(bits), j, m),
            t,
            allowance(m),
            bucket_weight(q, d, j, m),
            pair_weight(q, d, u),
            bucket_sum(q, d, j, m),
            pair_sum(q, d, u),
        );
    } else {
        lemma_nothing(allowance(0));
    }
}

proof fn lemma_tail(f: Meaning, codes: Seq<u8>, bits: u8, q: Seq<u32>, from: int, to: int)
    requires
        rounds(f),
        is_width(bits),
        scorable(q, centroids_at(codes, bits, q.len())),
        0 <= from <= to,
        2 * to <= q.len(),
    ensures
        ({
            let d = centroids_at(codes, bits, q.len());
            let t = tail(f, codes, bits, q, centroid_table(bits), from, to);
            let w = tail_weight(q, d, from, to);
            &&& w <= 1real + 18real * ((to - from) as real)
            &&& held(t, allowance((to - from) as nat), w, tail_sum(q, d, from, to))
        }),
    decreases to - from,
{
    lemma_constants();
    let d = centroids_at(codes, bits, q.len());
    lemma_allowance((to - from) as nat);
    if from < to {
        let m = (to - 1 - from) as nat;
        let u = to - 1;
        lemma_tail(f, codes, bits, q, from, u);
        lemma_pair(f, codes, bits, q, u);
        lemma_allowance(m);
        let t = pair_term(f, codes, bits, q, centroid_table(bits), u);
        lemma_held_longer(t, 4real * eps(), allowance(m), pair_weight(q, d, u), pair_sum(q, d, u));
        lemma_add(
            f,
            tail(f, codes, bits, q, centroid_table(bits), from, u),
            t,
            allowance(m),
            tail_weight(q, d, from, u),
            pair_weight(q, d, u),
            tail_sum(q, d, from, u),
            pair_sum(q, d, u),
        );
    } else {
        lemma_nothing(allowance(0));
    }
}

/// The weight of one more pair, and its part.
proof fn lemma_pair_weight(q: Seq<u32>, d: Seq<u32>, u: nat)
    ensures
        weights(q, d, 2 * u + 2) == weights(q, d, 2 * u) + pair_weight(q, d, u as int),
        inner(q, d, 2 * u + 2) == inner(q, d, 2 * u) + pair_sum(q, d, u as int),
{
    let i = 2 * u as int;
    assert(weights(q, d, 2 * u + 2) == weights(q, d, 2 * u + 1) + weight(q, d, i + 1));
    assert(weights(q, d, 2 * u + 1) == weights(q, d, 2 * u) + weight(q, d, i));
    assert(inner(q, d, 2 * u + 2) == inner(q, d, 2 * u + 1) + value(q[i + 1]) * value(d[i + 1]));
    assert(inner(q, d, 2 * u + 1) == inner(q, d, 2 * u) + value(q[i]) * value(d[i]));
}

/// The buckets share out the weight and the inner product of their blocks.
proof fn lemma_bucket_weights(q: Seq<u32>, d: Seq<u32>, blocks: nat)
    ensures
        bucket_weight(q, d, 0, blocks) + bucket_weight(q, d, 1, blocks) + bucket_weight(
            q,
            d,
            2,
            blocks,
        ) + bucket_weight(q, d, 3, blocks) + bucket_weight(q, d, 4, blocks) + bucket_weight(
            q,
            d,
            5,
            blocks,
        ) + bucket_weight(q, d, 6, blocks) + bucket_weight(q, d, 7, blocks) == weights(
            q,
            d,
            16 * blocks,
        ) + 8real * tiny(),
        bucket_sum(q, d, 0, blocks) + bucket_sum(q, d, 1, blocks) + bucket_sum(q, d, 2, blocks)
            + bucket_sum(q, d, 3, blocks) + bucket_sum(q, d, 4, blocks) + bucket_sum(
            q,
            d,
            5,
            blocks,
        ) + bucket_sum(q, d, 6, blocks) + bucket_sum(q, d, 7, blocks) == inner(q, d, 16 * blocks),
    decreases blocks,
{
    if blocks > 0 {
        let m = (blocks - 1) as nat;
        lemma_bucket_weights(q, d, m);
        lemma_pair_weight(q, d, 8 * m);
        lemma_pair_weight(q, d, 8 * m + 1);
        lemma_pair_weight(q, d, 8 * m + 2);
        lemma_pair_weight(q, d, 8 * m + 3);
        lemma_pair_weight(q, d, 8 * m + 4);
        lemma_pair_weight(q, d, 8 * m + 5);
        lemma_pair_weight(q, d, 8 * m + 6);
        lemma_pair_weight(q, d, 8 * m + 7);
    }
}

/// The tail has the weight and the inner product of what is left.
proof fn lemma_tail_weight(q: Seq<u32>, d: Seq<u32>, from: nat, to: nat)
    requires
        from <= to,
    ensures
        tail_weight(q, d, from as int, to as int) == weights(q, d, 2 * to) - weights(
            q,
            d,
            2 * from,
        ) + tiny(),
        tail_sum(q, d, from as int, to as int) == inner(q, d, 2 * to) - inner(q, d, 2 * from),
    decreases to - from,
{
    if from < to {
        lemma_tail_weight(q, d, from, (to - 1) as nat);
        lemma_pair_weight(q, d, (to - 1) as nat);
    }
}

/// A sum of two; the allowance grows by a step.
proof fn lemma_node(
    f: Meaning,
    a: u32,
    b: u32,
    k: nat,
    wa: real,
    wb: real,
    sa: real,
    sb: real,
)
    requires
        rounds(f),
        k <= length_limit(),
        wa + wb <= 1099511627776real,
        held(a, allowance(k), wa, sa),
        held(b, allowance(k), wb, sb),
    ensures
        held(f(Op::Add, a, b), allowance(k + 1), wa + wb, sa + sb),
{
    lemma_constants();
    lemma_allowance(k);
    lemma_add(f, a, b, allowance(k), wa, wb, sa, sb);
}

/// The pairwise tree is near the sum of all.
proof fn lemma_tree(
    f: Meaning,
    b: Seq<u32>,
    w: Seq<real>,
    s: Seq<real>,
    rest: u32,
    wt: real,
    st: real,
    k: nat,
)
    requires
        rounds(f),
        k + 4 <= length_limit(),
        b.len() == 8,
        w.len() == 8,
        s.len() == 8,
        forall|j: int| 0 <= j < 8 ==> held(#[trigger] b[j], allowance(k), w[j], s[j]),
        forall|j: int| 0 <= j < 8 ==> #[trigger] w[j] <= 1073741824real,
        held(rest, allowance(k + 3), wt, st),
        wt <= 1073741824real,
    ensures
        held(
            reduced(f, b, rest),
            allowance(k + 4),
            w[0] + w[1] + w[2] + w[3] + w[4] + w[5] + w[6] + w[7] + wt,
            s[0] + s[1] + s[2] + s[3] + s[4] + s[5] + s[6] + s[7] + st,
        ),
{
    let w01 = w[0] + w[1];
    let w23 = w[2] + w[3];
    let w45 = w[4] + w[5];
    let w67 = w[6] + w[7];
    let s01 = s[0] + s[1];
    let s23 = s[2] + s[3];
    let s45 = s[4] + s[5];
    let s67 = s[6] + s[7];
    lemma_node(f, b[0], b[1], k, w[0], w[1], s[0], s[1]);
    lemma_node(f, b[2], b[3], k, w[2], w[3], s[2], s[3]);
    lemma_node(f, b[4], b[5], k, w[4], w[5], s[4], s[5]);
    lemma_node(f, b[6], b[7], k, w[6], w[7], s[6], s[7]);
    let b01 = f(Op::Add, b[0], b[1]);
    let b23 = f(Op::Add, b[2], b[3]);
    let b45 = f(Op::Add, b[4], b[5]);
    let b67 = f(Op::Add, b[6], b[7]);
    lemma_node(f, b01, b23, k + 1, w01, w23, s01, s23);
    lemma_node(f, b45, b67, k + 1, w45, w67, s45, s67);
    let left = f(Op::Add, b01, b23);
    let right = f(Op::Add, b45, b67);
    lemma_node(f, left, right, k + 2, w01 + w23, w45 + w67, s01 + s23, s45 + s67);
    lemma_node(
        f,
        f(Op::Add, left, right),
        rest,
        k + 3,
        (w01 + w23) + (w45 + w67),
        wt,
        (s01 + s23) + (s45 + s67),
        st,
    );
}

/// An unscaled score is near the inner product of the query and the centroids.
proof fn lemma_raw(f: Meaning, codes: Seq<u8>, bits: u8, q: Seq<u32>)
    requires
        rounds(f),
        is_width(bits),
        scorable(q, centroids_at(codes, bits, q.len())),
    ensures
        ({
            let d = centroids_at(codes, bits, q.len());
            let raw = raw_score(f, codes, bits, q, centroid_table(bits));
            let n = q.len();
            let w = weights(q, d, n) + 9real * tiny();
            &&& finite(raw)
            &&& 0real <= weights(q, d, n)
            &&& size(value(raw) - inner(q, d, n)) <= (n as real + 40real) * eps() * w
            &&& size(value(raw)) <= (1real + (n as real + 40real) * eps()) * w
        }),
{
    let n = q.len();
    let d = centroids_at(codes, bits, n);
    let lut = centroid_table(bits);
    let pairs = pair_count(n, bits);
    assert(2 * pairs == n);
    let blocks = pairs / 8;
    let k = blocks + 8;
    let b = Seq::new(8, |j: int| bucket(f, codes, bits, q, lut, j, blocks));
    let w = Seq::new(8, |j: int| bucket_weight(q, d, j, blocks));
    let s = Seq::new(8, |j: int| bucket_sum(q, d, j, blocks));
    assert forall|j: int| 0 <= j < 8 implies #[trigger] w[j] <= 1073741824real by {
        lemma_bucket(f, codes, bits, q, j, blocks);
    }
    lemma_allowance_order(blocks, k);
    assert forall|j: int| 0 <= j < 8 implies held(#[trigger] b[j], allowance(k), w[j], s[j]) by {
        lemma_bucket(f, codes, bits, q, j, blocks);
        lemma_held_longer(b[j], allowance(blocks), allowance(k), w[j], s[j]);
    }
    let from = 8 * blocks;
    lemma_tail(f, codes, bits, q, from as int, pairs as int);
    let rest = tail(f, codes, bits, q, lut, from as int, pairs as int);
    let wt = tail_weight(q, d, from as int, pairs as int);
    let st = tail_sum(q, d, from as int, pairs as int);
    lemma_allowance_order((pairs - from) as nat, k + 3);
    lemma_held_longer(rest, allowance((pairs - from) as nat), allowance(k + 3), wt, st);
    lemma_tree(f, b, w, s, rest, wt, st, k);
    lemma_bucket_weights(q, d, blocks);
    lemma_tail_weight(q, d, from, pairs);
    lemma_weights_sign(q, d, n);
    let total = weights(q, d, n) + 9real * tiny();
    let raw = raw_score(f, codes, bits, q, lut);
    assert(raw == reduced(f, b, rest)) by {
        reveal(raw_score);
    }
    assert(held(raw, allowance(k + 4), total, inner(q, d, n)));
    lemma_raw_allowance(raw, k + 4, n, total, inner(q, d, n));
}

proof fn lemma_raw_allowance(raw: u32, k: nat, n: nat, total: real, sum: real)
    requires
        held(raw, allowance(k), total, sum),
        3 * k <= n + 36,
    ensures
        finite(raw),
        size(value(raw) - sum) <= (n as real + 40real) * eps() * total,
        size(value(raw)) <= (1real + (n as real + 40real) * eps()) * total,
{
    lemma_constants();
    let x = k as real;
    let y = n as real;
    assert((4real + 3real * x) * eps() <= (y + 40real) * eps()) by (nonlinear_arith)
        requires
            3real * x <= y + 36real,
            eps() > 0real,
    ;
    let g = (y + 40real) * eps();
    lemma_held_longer(raw, allowance(k), g, total, sum);
    reveal(held);
    assert((1real + g) * total == total + g * total) by (nonlinear_arith);
}

proof fn lemma_weights_sign(q: Seq<u32>, d: Seq<u32>, n: nat)
    ensures
        0real <= weights(q, d, n),
    decreases n,
{
    lemma_constants();
    if n > 0 {
        lemma_weights_sign(q, d, (n - 1) as nat);
    }
}

/// A scaled weight is at most the mean of the squares of its two sides.
proof fn lemma_weights_mean(q: Seq<u32>, d: Seq<u32>, n: nat, s: real)
    requires
        0real <= s,
    ensures
        2real * (s * weights(q, d, n)) <= total_square(q, n) + s * s * total_square(d, n) + 2real * (
        n as real) * tiny() * s,
    decreases n,
{
    if n > 0 {
        let m = (n - 1) as nat;
        lemma_weights_mean(q, d, m, s);
        let a = value(q[n - 1]);
        let b = value(d[n - 1]);
        let c = size(a * b);
        let t = tiny();
        assert(2real * (s * c) <= a * a + s * s * (b * b)) by (nonlinear_arith)
            requires
                c == a * b || c == -(a * b),
        ;
        assert(s * (weights(q, d, m) + (c + t)) == s * weights(q, d, m) + s * c + s * t)
            by (nonlinear_arith);
        assert(s * s * (total_square(d, m) + b * b) == s * s * total_square(d, m) + s * s * (b * b))
            by (nonlinear_arith);
        assert(2real * (n as real) * t * s == 2real * (m as real) * t * s + 2real * (s * t))
            by (nonlinear_arith)
            requires
                n as real == m as real + 1real,
        ;
    } else {
        assert(s * 0real == 0real && s * s * 0real == 0real && 2real * (n as real) * tiny() * s
            == 0real) by (nonlinear_arith)
            requires
                n as real == 0real,
        ;
    }
}

/// The scale that goes with codes: the reciprocal norm of their centroids.
pub open spec fn scale_of(f: Meaning, codes: Seq<u8>, bits: u8, n: nat) -> u32 {
    f(Op::Div, ONE, norm(f, centroids_at(codes, bits, n)))
}

/// A scale makes the squares of its centroids add up to one, up to rounding, and
/// is between 2^-14 and 2^15.
pub proof fn lemma_scale(f: Meaning, codes: Seq<u8>, bits: u8, n: nat)
    requires
        rounds(f),
        is_width(bits),
        1 <= n <= length_limit(),
    ensures
        ({
            let s = value(scale_of(f, codes, bits, n));
            &&& finite(scale_of(f, codes, bits, n))
            &&& 1real < s * 16384real
            &&& s < 256real
            &&& (1real - loss(n)) * (s * s * total_square(centroids_at(codes, bits, n), n))
                <= 1real + 5real * eps()
            &&& 1real - 5real * eps() <= (1real + 2real * loss(n)) * (s * s * total_square(
                centroids_at(codes, bits, n),
                n,
            ))
        }),
{
    lemma_constants();
    lemma_centroids_tame(codes, bits, n);
    let d = centroids_at(codes, bits, n);
    let total = total_square(d, n);
    lemma_norm(f, d);
    lemma_loss(n);
    let c = value(norm(f, d));
    let cc = c * c;
    let l = loss(n);
    assert(cc <= 8388608real) by (nonlinear_arith)
        requires
            cc <= (1real + 2real * l) * total,
            0real <= l <= 1real / 8real,
            0real < total <= 4194304real,
    ;
    assert(c <= 4096real) by (nonlinear_arith)
        requires
            cc == c * c,
            cc <= 8388608real,
    ;
    assert(1real <= 8192real * cc);
    let one = value(ONE);
    assert(one * one == 1real);
    assert(one * one <= 1099511627776real * (c * c));
    lemma_division(f, ONE, norm(f, d));
    let y = one / c;
    let s = value(scale_of(f, codes, bits, n));
    assert(y * 4096real >= 1real && y * y * cc == 1real && y > 0real) by (nonlinear_arith)
        requires
            y == 1real / c,
            0real < c <= 4096real,
            cc == c * c,
    ;
    assert(y <= 100real) by (nonlinear_arith)
        requires
            y > 0real,
            y * y * cc == 1real,
            1real <= 8192real * cc,
    ;
    let h = 1real - l;
    let e = eps();
    assert(s * s * cc <= 1real + 4real * e + tiny() * cc);
    assert(tiny() * cc <= e) by (nonlinear_arith)
        requires
            0real < cc <= 8388608real,
            0real < tiny(),
            tiny() * 1208925819614629174706176real * 1024real <= 1real,
            e == 1real / 16777216real,
    ;
    assert(h * (s * s * total) <= s * s * cc) by (nonlinear_arith)
        requires
            h * total <= cc,
    ;
    let g = 1real + 2real * l;
    assert(s * s * cc <= g * (s * s * total)) by (nonlinear_arith)
        requires
            cc <= g * total,
    ;
}

proof fn lemma_mean_bound(n: real, l: real, w: real, r: real, sd: real, s: real)
    requires
        0real <= n <= 262144real,
        0real <= l <= 1real / 8real,
        0real <= s < 256real,
        2real * (s * w) <= r + sd + 2real * n * tiny() * s,
        (1real - l) * r <= 1real + 5real * eps(),
        (1real - l) * sd <= 1real + 5real * eps(),
    ensures
        (1real - l) * (s * (w + 9real * tiny())) <= 1real + 6real * eps(),
{
    lemma_constants();
    let e = eps();
    let t = tiny();
    let h = 1real - l;
    let ts = t * s;
    assert(0real <= ts <= 256real * t) by (nonlinear_arith)
        requires
            ts == t * s,
            0real < t,
            0real <= s < 256real,
    ;
    assert(0real <= n * ts <= 262144real * ts) by (nonlinear_arith)
        requires
            0real <= n <= 262144real,
            0real <= ts,
    ;
    assert(2real * n * t * s == 2real * (n * ts)) by (nonlinear_arith)
        requires
            ts == t * s,
    ;
    assert(s * (w + 9real * t) == s * w + 9real * ts) by (nonlinear_arith)
        requires
            ts == t * s,
    ;
    let sum = s * w + 9real * ts;
    let small = n * ts + 9real * ts;
    assert(sum <= (r + sd) / 2real + small);
    assert(h * sum <= (h * r + h * sd) / 2real + small) by (nonlinear_arith)
        requires
            sum <= (r + sd) / 2real + small,
            0real <= h <= 1real,
            0real <= small,
    ;
    assert(small <= e);
}

proof fn lemma_product_bound(n: real, p: real, l: real, sw: real)
    requires
        0real <= n <= 262144real,
        l == 4real * (n + 1real) * eps(),
        0real <= sw,
        (1real - l) * sw <= 1real + 6real * eps(),
        p <= (1real + (n + 40real) * eps()) * sw,
    ensures
        p <= 1real + 16real * (n + 7real) * eps(),
{
    lemma_constants();
    let e = eps();
    let z = n * e;
    assert(0real <= z <= 1real / 64real);
    let h = 1real - l;
    assert(h == 1real - 4real * z - 4real * e) by (nonlinear_arith)
        requires
            h == 1real - l,
            l == 4real * (n + 1real) * e,
            z == n * e,
    ;
    let a = 1real + (n + 40real) * e;
    assert(a == 1real + z + 40real * e) by (nonlinear_arith)
        requires
            a == 1real + (n + 40real) * e,
            z == n * e,
    ;
    let b = 1real + 16real * (n + 7real) * e;
    assert(b == 1real + 16real * z + 112real * e) by (nonlinear_arith)
        requires
            b == 1real + 16real * (n + 7real) * e,
            z == n * e,
    ;
    assert(h * p <= a * (1real + 6real * e)) by (nonlinear_arith)
        requires
            p <= a * sw,
            h * sw <= 1real + 6real * e,
            0real <= h,
            0real <= a,
    ;
    assert(a * (1real + 6real * e) <= h * b) by (nonlinear_arith)
        requires
            a == 1real + z + 40real * e,
            h == 1real - 4real * z - 4real * e,
            b == 1real + 16real * z + 112real * e,
            0real <= z <= 1real / 64real,
            e == 1real / 16777216real,
    ;
    assert(p <= b) by (nonlinear_arith)
        requires
            h * p <= h * b,
            h > 0real,
    ;
}

/// A product of an unscaled score and the scale that goes with the codes, for a
/// query of norm one.
proof fn lemma_product(f: Meaning, codes: Seq<u8>, bits: u8, x: Seq<u32>)
    requires
        rounds(f),
        is_width(bits),
        tame(x),
        2 <= x.len(),
        x.len() % 2 == 0,
    ensures
        ({
            let q = divided(f, x, norm(f, x));
            let raw = raw_score(f, codes, bits, q, centroid_table(bits));
            let scale = scale_of(f, codes, bits, x.len());
            &&& finite(raw)
            &&& finite(scale)
            &&& size(value(raw) * value(scale)) <= 1real + 16real * (x.len() as real + 7real)
                * eps()
            &&& size(
                value(raw) * value(scale) - value(scale) * inner(
                    q,
                    centroids_at(codes, bits, x.len()),
                    x.len(),
                ),
            ) <= 2real * (x.len() as real + 40real) * eps()
        }),
{
    lemma_constants();
    let n = x.len();
    let q = divided(f, x, norm(f, x));
    let d = centroids_at(codes, bits, n);
    lemma_unit(f, x);
    lemma_centroids_tame(codes, bits, n);
    lemma_scale(f, codes, bits, n);
    lemma_loss(n);
    lemma_raw(f, codes, bits, q);
    let s = value(scale_of(f, codes, bits, n));
    let r = value(raw_score(f, codes, bits, q, centroid_table(bits)));
    lemma_weights_mean(q, d, n, s);
    let w = weights(q, d, n);
    lemma_mean_bound(
        n as real,
        loss(n),
        w,
        total_square(q, n),
        s * s * total_square(d, n),
        s,
    );
    let g = 1real + (n as real + 40real) * eps();
    let wt = w + 9real * tiny();
    assert(size(r * s) <= g * (s * wt)) by (nonlinear_arith)
        requires
            size(r) <= g * wt,
            0real <= s,
    ;
    assert(0real <= s * wt) by (nonlinear_arith)
        requires
            0real <= s,
            0real <= wt,
    ;
    lemma_product_bound(n as real, size(r * s), loss(n), s * wt);
    let dot = inner(q, d, n);
    let e = (n as real + 40real) * eps();
    assert(size(r * s - s * dot) <= e * (s * wt)) by (nonlinear_arith)
        requires
            size(r - dot) <= e * wt,
            0real <= s,
    ;
    assert(s * wt <= 2real) by (nonlinear_arith)
        requires
            (1real - loss(n)) * (s * wt) <= 1real + 6real * eps(),
            0real <= loss(n) <= 1real / 8real,
            eps() == 1real / 16777216real,
    ;
    assert(e * (s * wt) <= 2real * (n as real + 40real) * eps()) by (nonlinear_arith)
        requires
            e == (n as real + 40real) * eps(),
            0real <= s * wt <= 2real,
            0real <= e,
    ;
}

/// How far above one a score can be: a part in 2^20 for every coordinate, and
/// eight more.
pub open spec fn slack(n: nat) -> real {
    (n as real + 8real) / 1048576real
}

/// A slot has the scale that goes with its codes. So has every slot of an index
/// without a second pass that was filled by adding vectors.
pub open spec fn scaled(f: Meaning, st: IndexState, s: Slot) -> bool {
    s.scale == scale_of(f, s.codes, st.bits, st.padded())
}

/// A score is an estimate of a cosine: with rounded arithmetic its magnitude is
/// at most one, up to rounding.
pub proof fn law_score_is_at_most_one(f: Meaning, st: IndexState, s: Slot, q: Seq<u32>)
    requires
        rounds(f),
        st.valid(),
        !st.residual,
        2 <= st.working_dim <= q.len(),
        scaled(f, st, s),
        tame(q.take(st.working_dim as int)),
    ensures
        ({
            let rot = query_rotation(f, st.signs(), st.working_dim, q);
            let score = slot_score(f, st, s, rot, centroid_table(st.bits));
            &&& finite(score)
            &&& size(value(score)) <= 1real + slack(st.padded())
        }),
{
    lemma_constants();
    let x = rotation(f, st.signs(), st.working_dim, q);
    let n = st.padded();
    law_rotation_stays_in_range(f, st, q);
    lemma_rotation_len(f, st, q);
    law_padded_len(st.working_dim);
    lemma_product(f, s.codes, st.bits, x);
    let raw = raw_score(f, s.codes, st.bits, divided(f, x, norm(f, x)), centroid_table(st.bits));
    let p = value(raw) * value(s.scale);
    let m = n as real;
    assert(near(f(Op::Mul, raw, s.scale), p));
    assert(16real * (m + 7real) * eps() == (m + 7real) / 1048576real) by (nonlinear_arith)
        requires
            eps() == 1real / 16777216real,
    ;
}

/// A score is the inner product of the query and the vector, each scaled to norm one:
/// it is near the inner product of the prepared query with the centroids that the
/// slot's codes stand for, times the slot's scale; the squares of the prepared query
/// add up to one, and so do those of the scaled centroids, up to rounding.
pub proof fn law_score_is_the_inner_product(f: Meaning, st: IndexState, s: Slot, q: Seq<u32>)
    requires
        rounds(f),
        st.valid(),
        !st.residual,
        2 <= st.working_dim <= q.len(),
        scaled(f, st, s),
        tame(q.take(st.working_dim as int)),
    ensures
        ({
            let n = st.padded();
            let rot = query_rotation(f, st.signs(), st.working_dim, q);
            let score = slot_score(f, st, s, rot, centroid_table(st.bits));
            let d = centroids_at(s.codes, st.bits, n);
            let scale = value(s.scale);
            let vector = scale * scale * total_square(d, n);
            &&& finite(score)
            &&& size(value(score) - scale * inner(rot, d, n)) <= (n as real + 42real) / 8388608real
            &&& scale > 0real
            &&& (1real - loss(n)) * vector <= 1real + 5real * eps()
            &&& 1real - 5real * eps() <= (1real + 2real * loss(n)) * vector
            &&& (1real - loss(n)) * total_square(rot, n) <= 1real + 5real * eps()
            &&& 1real - 5real * eps() <= (1real + 2real * loss(n)) * total_square(rot, n)
        }),
{
    lemma_constants();
    let x = rotation(f, st.signs(), st.working_dim, q);
    let n = st.padded();
    law_rotation_stays_in_range(f, st, q);
    lemma_rotation_len(f, st, q);
    law_padded_len(st.working_dim);
    lemma_product(f, s.codes, st.bits, x);
    lemma_scale(f, s.codes, st.bits, n);
    lemma_unit(f, x);
    let raw = raw_score(f, s.codes, st.bits, divided(f, x, norm(f, x)), centroid_table(st.bits));
    let p = value(raw) * value(s.scale);
    let m = n as real;
    assert(near(f(Op::Mul, raw, s.scale), p));
    assert(16real * (m + 7real) * eps() <= 1real / 2real && 2real * (m + 40real) * eps() == (m
        + 40real) / 8388608real) by (nonlinear_arith)
        requires
            0real <= m <= 262144real,
            eps() == 1real / 16777216real,
    ;
}

/// A positive value between 2^-14 and 2^15 has a pattern between theirs.
proof fn lemma_pattern_range(x: u32)
    requires
        finite(x),
        1real < value(x) * 16384real,
        value(x) < 32768real,
    ensures
        0x3880_0000 <= x < 0x4700_0000,
{
    lemma_constants();
    lemma_powers();
    lemma_magnitude(x);
    if x < 0x3880_0000 {
        lemma_value_increasing(x, 0x3880_0000);
    }
    if 0x4700_0000 < x < 0x8000_0000 {
        lemma_value_increasing(0x4700_0000, x);
    }
}

/// A scale from 2^-14 to below 65520 is moved by at most one part in 2048 by the half
/// precision of a file.
proof fn lemma_stored_scale(x: u32)
    requires
        0x3880_0000 <= x < 0x477F_F000,
    ensures
        finite(single_of(half_of(x))),
        2048real * size(value(single_of(half_of(x))) - value(x)) <= value(x),
{
    reveal(value);
    law_round_trip(x);
    let y = single_of(half_of(x));
    let c = pow2(149) as real;
    lemma_pow2_pos(149);
    let u = single_units((x % 0x8000_0000) as u32) as real;
    let w = single_units((y % 0x8000_0000) as u32) as real;
    assert(2048real * size(w / c - u / c) <= u / c) by (nonlinear_arith)
        requires
            c > 0real,
            -u <= 2048real * (w - u) <= u,
    ;
}

/// Writing an index and reading it back moves no score by a thousandth or more.
/// The score of what is read back at position `i` is compared with that of the
/// live slot which was written there.
pub proof fn law_reload_moves_scores_little(f: Meaning, st: IndexState, i: int, q: Seq<u32>)
    requires
        rounds(f),
        st.valid(),
        !st.residual,
        2 <= st.working_dim <= q.len(),
        0 <= i < live_slots(st.slots).len(),
        scaled(f, st, live_slots(st.slots)[i]),
        tame(q.take(st.working_dim as int)),
    ensures
        ({
            let rot = query_rotation(f, st.signs(), st.working_dim, q);
            let lut = centroid_table(st.bits);
            let before = slot_score(f, st, live_slots(st.slots)[i], rot, lut);
            let after = slot_score(f, stored(st), stored(st).slots[i], rot, lut);
            &&& finite(before)
            &&& finite(after)
            &&& 1000real * size(value(after) - value(before)) < 1real
        }),
{
    lemma_constants();
    let x = rotation(f, st.signs(), st.working_dim, q);
    let n = st.padded();
    let s = live_slots(st.slots)[i];
    law_rotation_stays_in_range(f, st, q);
    lemma_rotation_len(f, st, q);
    law_padded_len(st.working_dim);
    lemma_product(f, s.codes, st.bits, x);
    lemma_scale(f, s.codes, st.bits, n);
    lemma_pattern_range(s.scale);
    lemma_stored_scale(s.scale);
    let raw = raw_score(f, s.codes, st.bits, divided(f, x, norm(f, x)), centroid_table(st.bits));
    let t = stored(st).slots[i];
    assert(t == stored_slot(false, s));
    let r = value(raw);
    let a = value(s.scale);
    let b = value(t.scale);
    assert(16real * (n as real + 7real) * eps() <= 1real / 2real) by (nonlinear_arith)
        requires
            0real <= n as real <= 262144real,
            eps() == 1real / 16777216real,
    ;
    lemma_moved_product(r, a, b);
    assert(near(f(Op::Mul, raw, s.scale), r * a));
    assert(near(f(Op::Mul, raw, t.scale), r * b));
}

/// The same with a second pass, for slots whose scales are within the range of
/// half precision and whose two parts of the score, before rounding, are not
/// above three halves together.
pub proof fn law_reload_moves_two_pass_scores_little(
    f: Meaning,
    st: IndexState,
    i: int,
    rot: Seq<u32>,
    lut: Seq<u32>,
)
    requires
        rounds(f),
        st.valid(),
        st.residual,
        0 <= i < live_slots(st.slots).len(),
        ({
            let s = live_slots(st.slots)[i];
            let first = raw_score(f, s.codes, st.bits, rot, lut);
            let second = raw_score(f, s.codes2, st.bits, rot, lut);
            &&& 0x3880_0000 <= s.scale < 0x477F_F000
            &&& 0x3880_0000 <= s.scale2 < 0x477F_F000
            &&& finite(first)
            &&& finite(second)
            &&& 2real * (size(value(first) * value(s.scale)) + size(
                value(second) * value(s.scale2),
            )) <= 3real
        }),
    ensures
        ({
            let before = slot_score(f, st, live_slots(st.slots)[i], rot, lut);
            let after = slot_score(f, stored(st), stored(st).slots[i], rot, lut);
            &&& finite(before)
            &&& finite(after)
            &&& 1000real * size(value(after) - value(before)) < 1real
        }),
{
    lemma_constants();
    let s = live_slots(st.slots)[i];
    let t = stored(st).slots[i];
    assert(t == stored_slot(true, s));
    lemma_stored_scale(s.scale);
    lemma_stored_scale(s.scale2);
    let first = raw_score(f, s.codes, st.bits, rot, lut);
    let second = raw_score(f, s.codes2, st.bits, rot, lut);
    lemma_part_moves(f, first, s.scale, t.scale);
    lemma_part_moves(f, second, s.scale2, t.scale2);
    lemma_sum_moves(
        f,
        f(Op::Mul, first, s.scale),
        f(Op::Mul, second, s.scale2),
        f(Op::Mul, first, t.scale),
        f(Op::Mul, second, t.scale2),
    );
}

/// The sum of two parts that move little.
proof fn lemma_sum_moves(f: Meaning, p: u32, p2: u32, w: u32, w2: u32)
    requires
        rounds(f),
        finite(p),
        finite(p2),
        finite(w),
        finite(w2),
        size(value(p)) <= 2real,
        size(value(p2)) <= 2real,
        size(value(w)) <= 2real,
        size(value(w2)) <= 2real,
        2048real * (size(value(w) - value(p)) + size(value(w2) - value(p2))) <= 1502real / 1000real,
    ensures
        finite(f(Op::Add, p, p2)),
        finite(f(Op::Add, w, w2)),
        1000real * size(value(f(Op::Add, w, w2)) - value(f(Op::Add, p, p2))) < 1real,
{
    lemma_constants();
    assert(near(f(Op::Add, p, p2), value(p) + value(p2)));
    assert(near(f(Op::Add, w, w2), value(w) + value(w2)));
}

/// One part of a score, and what the rounding of its scale makes of it.
proof fn lemma_part_moves(f: Meaning, raw: u32, a: u32, b: u32)
    requires
        rounds(f),
        finite(raw),
        finite(a),
        finite(b),
        2048real * size(value(b) - value(a)) <= value(a),
        2real * size(value(raw) * value(a)) <= 3real,
    ensures
        ({
            let p = f(Op::Mul, raw, a);
            let w = f(Op::Mul, raw, b);
            &&& finite(p)
            &&& finite(w)
            &&& size(value(p)) <= 2real
            &&& size(value(w)) <= 2real
            &&& 2048real * size(value(w) - value(p)) <= size(value(raw) * value(a)) + 1real
                / 1000real
        }),
{
    lemma_constants();
    let x = value(raw) * value(a);
    let y = value(raw) * value(b);
    lemma_moved_product(value(raw), value(a), value(b));
    assert(near(f(Op::Mul, raw, a), x));
    assert(near(f(Op::Mul, raw, b), y));
}

proof fn lemma_moved_product(r: real, a: real, b: real)
    by (nonlinear_arith)
    requires
        2048real * size(b - a) <= a,
    ensures
        2048real * size(r * b - r * a) <= size(r * a),
{
}

} // verus!
