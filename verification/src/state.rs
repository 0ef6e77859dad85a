//! The mathematical model of an index: what its slots hold, how vectors are
//! encoded into them, and how they are scored and searched.

use vstd::prelude::*;
use vstd::slice::slice_subrange;

use crate::arith::{
    above, divide, divided, gt, is_arithmetic, meaning, norm, norm_of, norm_squared, operate,
    sum_squares, Meaning,
    Op, ONE, ZERO,
};
use crate::codes::{pack, packed, packed_len};
use crate::lloyd::{
    centroid_table, code_of, dequantize, is_width, level_count, quantize,
};
use crate::rhdh::{law_padded_len, lemma_butterflies_len, padded_len, rotated, sign_diagonal, Rhdh};
use crate::score::raw_score;
use crate::topk::{order_key, top_k, Candidate};

verus! {

/// One stored vector.
pub struct Slot {
    /// Packed codes.
    pub codes: Seq<u8>,
    /// Dequantization scale, a binary32 pattern.
    pub scale: u32,
    /// Packed codes of the second pass; empty without one.
    pub codes2: Seq<u8>,
    /// Scale of the second pass; zero without one.
    pub scale2: u32,
    /// The caller's key, if the vector has one.
    pub key: Option<u64>,
    /// Whether the vector is searchable; a removed one is not.
    pub alive: bool,
}

/// An index: its parameters, and its slots in order.
pub struct IndexState {
    /// Length of the vectors that are added and of the queries.
    pub dim: nat,
    /// How many leading coordinates are quantized.
    pub working_dim: nat,
    /// Width of the codes.
    pub bits: u8,
    /// Whether a second pass codes what the first one left.
    pub residual: bool,
    /// Seed of the sign diagonal.
    pub seed: u64,
    /// The stored vectors.
    pub slots: Seq<Slot>,
}

/// A working dimension whose padded length fits in memory.
pub open spec fn dim_fits(working_dim: nat) -> bool {
    working_dim <= usize::MAX / 16 + 1
}

/// An index that holds nothing yet.
pub open spec fn empty_index(
    dim: nat,
    working_dim: nat,
    bits: u8,
    residual: bool,
    seed: u64,
) -> IndexState {
    IndexState { dim, working_dim, bits, residual, seed, slots: Seq::empty() }
}

impl IndexState {
    /// The padded working dimension.
    pub open spec fn padded(self) -> nat {
        padded_len(self.working_dim)
    }

    /// Bytes of codes per vector.
    pub open spec fn code_len(self) -> nat {
        packed_len(self.padded(), self.bits)
    }

    /// The sign diagonal.
    pub open spec fn signs(self) -> Seq<u32> {
        sign_diagonal(self.seed, self.padded())
    }

    /// The same parameters with other slots.
    pub open spec fn with_slots(self, slots: Seq<Slot>) -> IndexState {
        IndexState { slots, ..self }
    }

    /// The parameters are in range and every slot has the shape that they ask
    /// for; only live slots have keys.
    pub open spec fn valid(self) -> bool {
        &&& 1 <= self.working_dim <= self.dim <= usize::MAX
        &&& dim_fits(self.working_dim)
        &&& is_width(self.bits)
        &&& self.residual ==> self.bits == 4
        &&& self.slots.len() <= usize::MAX
        &&& forall|i: int| 0 <= i < self.slots.len() ==> self.fits(#[trigger] self.slots[i])
    }

    /// A slot has the shape that the parameters ask for.
    pub open spec fn fits(self, s: Slot) -> bool {
        &&& s.codes.len() == self.code_len()
        &&& s.codes2.len() == if self.residual {
            self.code_len()
        } else {
            0
        }
        &&& !self.residual ==> s.scale2 == ZERO
        &&& s.key is Some ==> s.alive
    }
}

/// The slots that are alive, in order.
pub open spec fn live_slots(slots: Seq<Slot>) -> Seq<Slot>
    decreases slots.len(),
{
    if slots.len() == 0 {
        Seq::empty()
    } else if slots.last().alive {
        live_slots(slots.drop_last()).push(slots.last())
    } else {
        live_slots(slots.drop_last())
    }
}

/// How many slots were removed and not dropped yet.
pub open spec fn removed_slots(slots: Seq<Slot>) -> nat
    decreases slots.len(),
{
    if slots.len() == 0 {
        0
    } else {
        removed_slots(slots.drop_last()) + if slots.last().alive {
            0nat
        } else {
            1nat
        }
    }
}

/// Slots in use are live ones and removed ones.
pub proof fn law_slots_are_live_or_removed(slots: Seq<Slot>)
    ensures
        slots.len() == live_slots(slots).len() + removed_slots(slots),
    decreases slots.len(),
{
    if slots.len() > 0 {
        law_slots_are_live_or_removed(slots.drop_last());
    }
}

/// The slots, in order, that hold a vector under `key`.
pub open spec fn slots_with_key(slots: Seq<Slot>, key: u64) -> Seq<usize>
    decreases slots.len(),
{
    if slots.len() == 0 {
        Seq::empty()
    } else if slots.last().key == Some(key) {
        slots_with_key(slots.drop_last(), key).push((slots.len() - 1) as usize)
    } else {
        slots_with_key(slots.drop_last(), key)
    }
}

/// The norm of the leading coordinates of a vector.
pub open spec fn working_norm(f: Meaning, working_dim: nat, v: Seq<u32>) -> u32 {
    norm(f, v.take(working_dim as int))
}

/// The leading coordinates of a vector, divided by their norm.
pub open spec fn unit(f: Meaning, working_dim: nat, v: Seq<u32>) -> Seq<u32> {
    divided(f, v.take(working_dim as int), working_norm(f, working_dim, v))
}

/// A vector can be encoded or asked for: its working norm is above zero.
pub open spec fn has_direction(f: Meaning, working_dim: nat, v: Seq<u32>) -> bool {
    above(working_norm(f, working_dim, v), ZERO)
}

/// A vector, truncated, normalized and rotated.
pub open spec fn rotation(f: Meaning, signs: Seq<u32>, working_dim: nat, v: Seq<u32>) -> Seq<u32> {
    rotated(f, signs, unit(f, working_dim, v))
}

/// A rotated vector has the padded length.
pub proof fn lemma_rotation_len(f: Meaning, st: IndexState, v: Seq<u32>)
    ensures
        rotation(f, st.signs(), st.working_dim, v).len() == st.padded(),
{
    let u = unit(f, st.working_dim, v);
    let signs = st.signs();
    lemma_butterflies_len(
        f,
        Seq::new(
            signs.len(),
            |i: int|
                f(
                    Op::Mul,
                    if i < u.len() {
                        u[i]
                    } else {
                        ZERO
                    },
                    signs[i],
                ),
        ),
        1,
    );
}

/// The codes of coordinates.
pub open spec fn codes_of(x: Seq<u32>, bits: u8) -> Seq<u8> {
    x.map_values(|c: u32| code_of(c, bits))
}

/// The centroids of codes.
pub open spec fn values_of(codes: Seq<u8>, bits: u8) -> Seq<u32> {
    codes.map_values(|c: u8| centroid_table(bits)[c as int])
}

/// The binary32 pattern of a power of two.
pub open spec fn power_pattern(n: nat) -> u32
    decreases n,
{
    if n <= 1 {
        ONE
    } else {
        (power_pattern((n / 2) as nat) + 0x80_0000) as u32
    }
}

/// What the first pass leaves: coordinates less their centroids.
pub open spec fn leftover(f: Meaning, x: Seq<u32>, d: Seq<u32>) -> Seq<u32> {
    Seq::new(x.len(), |i: int| f(Op::Sub, x[i], d[i]))
}

/// The root mean square of a vector whose length is a power of two.
pub open spec fn root_mean_square(f: Meaning, x: Seq<u32>) -> u32 {
    f(
        Op::Sqrt,
        f(Op::Div, sum_squares(f, x, x.len()), power_pattern(x.len())),
        ZERO,
    )
}

/// The sum of a vector and a multiple of another one.
pub open spec fn combined(f: Meaning, d0: Seq<u32>, m: u32, d1: Seq<u32>) -> Seq<u32> {
    Seq::new(d0.len(), |i: int| f(Op::Add, d0[i], f(Op::Mul, m, d1[i])))
}

/// The encoding of rotated coordinates, as a live slot without a key. Without a
/// second pass the scale is the reciprocal norm of the centroids. With one, the
/// second pass codes the leftover divided by its root mean square, the two
/// passes together reconstruct the vector, and both scales carry the reciprocal
/// norm of that reconstruction.
pub open spec fn encoding(f: Meaning, bits: u8, residual: bool, x: Seq<u32>) -> Slot {
    let c0 = codes_of(x, bits);
    let d0 = values_of(c0, bits);
    if residual {
        let rest = leftover(f, x, d0);
        let rms = root_mean_square(f, rest);
        let c1 = codes_of(divided(f, rest, rms), bits);
        let d1 = values_of(c1, bits);
        let n = norm(f, combined(f, d0, rms, d1));
        Slot {
            codes: packed(c0, bits),
            scale: f(Op::Div, ONE, n),
            codes2: packed(c1, bits),
            scale2: f(Op::Div, rms, n),
            key: None,
            alive: true,
        }
    } else {
        Slot {
            codes: packed(c0, bits),
            scale: f(Op::Div, ONE, norm(f, d0)),
            codes2: Seq::empty(),
            scale2: ZERO,
            key: None,
            alive: true,
        }
    }
}

/// The slot that a vector becomes.
pub open spec fn encoded(f: Meaning, st: IndexState, v: Seq<u32>) -> Slot {
    encoding(f, st.bits, st.residual, rotation(f, st.signs(), st.working_dim, v))
}

/// A vector can be added: there is a code for its coordinates, and it has a
/// direction. An index over one dimension has no bytes for codes of four bits.
pub open spec fn can_add(f: Meaning, st: IndexState, v: Seq<u32>) -> bool {
    &&& v.len() == st.dim
    &&& st.code_len() > 0
    &&& has_direction(f, st.working_dim, v)
}

/// The index after a vector is added.
pub open spec fn added(f: Meaning, st: IndexState, v: Seq<u32>) -> IndexState {
    st.with_slots(st.slots.push(encoded(f, st, v)))
}

/// The index after a vector is added under a key, in the place of the first one
/// that the key has.
pub open spec fn added_keyed(f: Meaning, st: IndexState, key: u64, v: Seq<u32>) -> IndexState {
    let held = slots_with_key(st.slots, key);
    let new = Slot { key: Some(key), ..encoded(f, st, v) };
    st.with_slots(
        if held.len() > 0 {
            st.slots.update(held[0] as int, new)
        } else {
            st.slots.push(new)
        },
    )
}

/// The index after one more vector is added under a key.
pub open spec fn added_beside(f: Meaning, st: IndexState, key: u64, v: Seq<u32>) -> IndexState {
    st.with_slots(st.slots.push(Slot { key: Some(key), ..encoded(f, st, v) }))
}

/// A query in rotated space, of norm one.
pub open spec fn query_rotation(
    f: Meaning,
    signs: Seq<u32>,
    working_dim: nat,
    q: Seq<u32>,
) -> Seq<u32> {
    let x = rotation(f, signs, working_dim, q);
    divided(f, x, norm(f, x))
}

/// The score of a slot against a rotated query.
pub open spec fn slot_score(
    f: Meaning,
    st: IndexState,
    s: Slot,
    rot: Seq<u32>,
    lut: Seq<u32>,
) -> u32 {
    let first = f(Op::Mul, raw_score(f, s.codes, st.bits, rot, lut), s.scale);
    if st.residual {
        f(Op::Add, first, f(Op::Mul, raw_score(f, s.codes2, st.bits, rot, lut), s.scale2))
    } else {
        first
    }
}

/// The live slots among the first `n`, each with the key of its score.
pub open spec fn candidates(
    f: Meaning,
    st: IndexState,
    rot: Seq<u32>,
    lut: Seq<u32>,
    n: nat,
) -> Seq<Candidate>
    decreases n,
{
    if n == 0 {
        Seq::empty()
    } else {
        let rest = candidates(f, st, rot, lut, (n - 1) as nat);
        if st.slots[n - 1].alive {
            rest.push(
                (order_key(slot_score(f, st, st.slots[n - 1], rot, lut)), (n - 1) as usize),
            )
        } else {
            rest
        }
    }
}

/// How many hits a search for `k` is after: at most the live vectors, at least
/// one.
pub open spec fn wanted(k: nat, live: nat) -> nat {
    let m = if k < live {
        k
    } else {
        live
    };
    if m < 1 {
        1
    } else {
        m
    }
}

/// The answer of a search: slots and scores, best first.
pub open spec fn answer(f: Meaning, st: IndexState, q: Seq<u32>, k: nat) -> Seq<(usize, u32)> {
    top_k(
        candidates(
            f,
            st,
            query_rotation(f, st.signs(), st.working_dim, q),
            centroid_table(st.bits),
            st.slots.len(),
        ),
        wanted(k, live_slots(st.slots).len()),
    )
}

/// What the padded length of a working dimension that fits is bounded by.
pub proof fn lemma_padded_fits(working_dim: nat, bits: u8)
    requires
        dim_fits(working_dim),
        is_width(bits),
    ensures
        1 <= padded_len(working_dim),
        working_dim <= padded_len(working_dim),
        padded_len(working_dim) * bits + 15 <= usize::MAX,
        padded_len(working_dim) <= usize::MAX / 8 + 1,
        packed_len(padded_len(working_dim), bits) <= padded_len(working_dim),
{
    law_padded_len(working_dim);
    let p = padded_len(working_dim);
    assert(p * bits <= p * 6) by (nonlinear_arith)
        requires
            bits <= 6,
    ;
    assert(p * 4 <= p * bits) by (nonlinear_arith)
        requires
            4 <= bits,
    ;
    assert(usize::MAX >= 0xFFFF_FFFF);
}

/// Whether a vector can be encoded or asked for.
pub fn is_directed<A: Fn(Op, u32, u32) -> u32>(working_dim: usize, v: &[u32], arith: &A) -> (r:
    bool)
    requires
        is_arithmetic(*arith),
        working_dim <= v@.len(),
    ensures
        r == has_direction(meaning(*arith), working_dim as nat, v@),
{
    let w = slice_subrange(v, 0, working_dim);
    proof {
        assert(w@ =~= v@.take(working_dim as int));
    }
    gt(norm_of(w, arith), ZERO)
}

/// Truncate, normalize and rotate a vector. The norm comes along.
pub fn rotate<A: Fn(Op, u32, u32) -> u32>(
    transform: &Rhdh,
    working_dim: usize,
    v: &[u32],
    arith: &A,
) -> (r: (Vec<u32>, u32))
    requires
        is_arithmetic(*arith),
        transform.wf(),
        working_dim <= v@.len(),
        working_dim <= transform.padded,
        has_direction(meaning(*arith), working_dim as nat, v@),
    ensures
        r.0@ == rotation(meaning(*arith), transform.signs@, working_dim as nat, v@),
        r.0@.len() == transform.padded,
        r.1 == working_norm(meaning(*arith), working_dim as nat, v@),
{
    let w = slice_subrange(v, 0, working_dim);
    proof {
        assert(w@ =~= v@.take(working_dim as int));
    }
    let n: u32 = norm_of(w, arith);
    let direction = divide(w, n, arith);
    let mut out: Vec<u32> = Vec::new();
    transform.apply(direction.as_slice(), &mut out, arith);
    (out, n)
}

/// Rotate a query and scale it to norm one. The working norm comes along.
pub fn rotate_query<A: Fn(Op, u32, u32) -> u32>(
    transform: &Rhdh,
    working_dim: usize,
    q: &[u32],
    arith: &A,
) -> (r: (Vec<u32>, u32))
    requires
        is_arithmetic(*arith),
        transform.wf(),
        working_dim <= q@.len(),
        working_dim <= transform.padded,
        has_direction(meaning(*arith), working_dim as nat, q@),
    ensures
        r.0@ == query_rotation(meaning(*arith), transform.signs@, working_dim as nat, q@),
        r.0@.len() == transform.padded,
        r.1 == working_norm(meaning(*arith), working_dim as nat, q@),
{
    let (x, n) = rotate(transform, working_dim, q, arith);
    let rnorm: u32 = norm_of(x.as_slice(), arith);
    let out = divide(x.as_slice(), rnorm, arith);
    (out, n)
}

/// The binary32 pattern of a power of two.
fn pattern_of_power(n: usize) -> (r: u32)
    ensures
        r == power_pattern(n as nat),
{
    let mut p: usize = n;
    let mut r: u32 = ONE;
    proof {
        vstd::arithmetic::power2::lemma2_to64();
        vstd::arithmetic::power2::lemma2_to64_rest();
        lemma_power_pattern_bound(n as nat, 64);
    }
    while p > 1
        invariant
            power_pattern(n as nat) == power_pattern(p as nat) + (r - ONE),
            power_pattern(n as nat) <= ONE + 64 * 0x80_0000,
            r >= ONE,
            power_pattern(p as nat) >= ONE,
        decreases p,
    {
        proof {
            lemma_power_pattern_step(p as nat);
        }
        p = p / 2;
        r = r + 0x80_0000;
    }
    r
}

proof fn lemma_power_pattern_bound(n: nat, k: nat)
    requires
        n <= vstd::arithmetic::power2::pow2(k),
        k <= 64,
    ensures
        ONE <= power_pattern(n) <= ONE + k * 0x80_0000,
    decreases n,
{
    if n > 1 {
        if k == 0 {
            vstd::arithmetic::power2::lemma2_to64();
        } else {
            vstd::arithmetic::power2::lemma_pow2_unfold(k);
            lemma_power_pattern_bound((n / 2) as nat, (k - 1) as nat);
        }
    }
}

proof fn lemma_power_pattern_step(n: nat)
    requires
        n > 1,
        n <= usize::MAX,
    ensures
        power_pattern(n) == power_pattern((n / 2) as nat) + 0x80_0000,
        power_pattern((n / 2) as nat) >= ONE,
{
    vstd::arithmetic::power2::lemma2_to64();
    vstd::arithmetic::power2::lemma2_to64_rest();
    lemma_power_pattern_bound((n / 2) as nat, 64);
}

/// Quantize coordinates.
fn quantize_all(x: &[u32], bits: u8) -> (r: Vec<u8>)
    requires
        is_width(bits),
    ensures
        r@ == codes_of(x@, bits),
        forall|i: int| 0 <= i < r@.len() ==> #[trigger] r@[i] < level_count(bits),
{
    let mut out: Vec<u8> = Vec::new();
    let mut i: usize = 0;
    while i < x.len()
        invariant
            is_width(bits),
            i <= x@.len(),
            out@ == codes_of(x@.take(i as int), bits),
            forall|j: int| 0 <= j < out@.len() ==> #[trigger] out@[j] < level_count(bits),
        decreases x@.len() - i,
    {
        let c: u8 = quantize(x[i], bits);
        out.push(c);
        i = i + 1;
        proof {
            assert(out@ =~= codes_of(x@.take(i as int), bits));
        }
    }
    proof {
        assert(x@.take(x@.len() as int) =~= x@);
    }
    out
}

/// Dequantize codes.
fn dequantize_all(codes: &[u8], bits: u8) -> (r: Vec<u32>)
    requires
        is_width(bits),
        forall|i: int| 0 <= i < codes@.len() ==> #[trigger] codes@[i] < level_count(bits),
    ensures
        r@ == values_of(codes@, bits),
{
    let mut out: Vec<u32> = Vec::new();
    let mut i: usize = 0;
    while i < codes.len()
        invariant
            is_width(bits),
            forall|j: int| 0 <= j < codes@.len() ==> #[trigger] codes@[j] < level_count(bits),
            i <= codes@.len(),
            out@ == values_of(codes@.take(i as int), bits),
        decreases codes@.len() - i,
    {
        let x: u32 = dequantize(codes[i], bits);
        out.push(x);
        i = i + 1;
        proof {
            assert(out@ =~= values_of(codes@.take(i as int), bits));
        }
    }
    proof {
        assert(codes@.take(codes@.len() as int) =~= codes@);
    }
    out
}

/// What the first pass leaves of coordinates.
fn left_over<A: Fn(Op, u32, u32) -> u32>(x: &[u32], d: &[u32], arith: &A) -> (r: Vec<u32>)
    requires
        is_arithmetic(*arith),
        x@.len() == d@.len(),
    ensures
        r@ == leftover(meaning(*arith), x@, d@),
{
    let mut out: Vec<u32> = Vec::new();
    while out.len() < x.len()
        invariant
            is_arithmetic(*arith),
            x@.len() == d@.len(),
            out@.len() <= x@.len(),
            out@ == leftover(meaning(*arith), x@, d@).take(out@.len() as int),
        decreases x@.len() - out@.len(),
    {
        let i: usize = out.len();
        let y: u32 = operate(arith, Op::Sub, x[i], d[i]);
        out.push(y);
        proof {
            assert(out@ =~= leftover(meaning(*arith), x@, d@).take(out@.len() as int));
        }
    }
    proof {
        assert(out@ =~= leftover(meaning(*arith), x@, d@));
    }
    out
}

/// Add a multiple of a vector to another one.
fn combine<A: Fn(Op, u32, u32) -> u32>(d0: &[u32], m: u32, d1: &[u32], arith: &A) -> (r: Vec<u32>)
    requires
        is_arithmetic(*arith),
        d0@.len() == d1@.len(),
    ensures
        r@ == combined(meaning(*arith), d0@, m, d1@),
{
    let mut out: Vec<u32> = Vec::new();
    while out.len() < d0.len()
        invariant
            is_arithmetic(*arith),
            d0@.len() == d1@.len(),
            out@.len() <= d0@.len(),
            out@ == combined(meaning(*arith), d0@, m, d1@).take(out@.len() as int),
        decreases d0@.len() - out@.len(),
    {
        let i: usize = out.len();
        let y: u32 = operate(arith, Op::Mul, m, d1[i]);
        let z: u32 = operate(arith, Op::Add, d0[i], y);
        out.push(z);
        proof {
            assert(out@ =~= combined(meaning(*arith), d0@, m, d1@).take(out@.len() as int));
        }
    }
    proof {
        assert(out@ =~= combined(meaning(*arith), d0@, m, d1@));
    }
    out
}

/// The parts of an encoded vector.
pub struct Encoded {
    /// Packed codes.
    pub codes: Vec<u8>,
    /// Dequantization scale.
    pub scale: u32,
    /// Packed codes of the second pass; empty without one.
    pub codes2: Vec<u8>,
    /// Scale of the second pass; zero without one.
    pub scale2: u32,
}

impl Encoded {
    /// The encoded vector as a live slot.
    pub open spec fn slot(self, key: Option<u64>) -> Slot {
        Slot {
            codes: self.codes@,
            scale: self.scale,
            codes2: self.codes2@,
            scale2: self.scale2,
            key,
            alive: true,
        }
    }
}

/// Encode rotated coordinates.
pub fn encode<A: Fn(Op, u32, u32) -> u32>(
    x: &[u32],
    bits: u8,
    residual: bool,
    arith: &A,
) -> (r: Encoded)
    requires
        is_arithmetic(*arith),
        is_width(bits),
        x@.len() * bits + 15 <= usize::MAX,
    ensures
        r.slot(None) == encoding(meaning(*arith), bits, residual, x@),
        r.codes@.len() == packed_len(x@.len(), bits),
        r.codes2@.len() == if residual {
            packed_len(x@.len(), bits)
        } else {
            0
        },
{
    let c0 = quantize_all(x, bits);
    let d0 = dequantize_all(c0.as_slice(), bits);
    let codes = pack(c0.as_slice(), bits);
    if residual {
        let rest = left_over(x, d0.as_slice(), arith);
        let n: u32 = norm_squared(rest.as_slice(), arith);
        let length: u32 = pattern_of_power(rest.len());
        let mean: u32 = operate(arith, Op::Div, n, length);
        let rms: u32 = operate(arith, Op::Sqrt, mean, ZERO);
        let scaled = divide(rest.as_slice(), rms, arith);
        let c1 = quantize_all(scaled.as_slice(), bits);
        let d1 = dequantize_all(c1.as_slice(), bits);
        let codes2 = pack(c1.as_slice(), bits);
        let both = combine(d0.as_slice(), rms, d1.as_slice(), arith);
        let total: u32 = norm_of(both.as_slice(), arith);
        let scale: u32 = operate(arith, Op::Div, ONE, total);
        let scale2: u32 = operate(arith, Op::Div, rms, total);
        Encoded { codes, scale, codes2, scale2 }
    } else {
        let total: u32 = norm_of(d0.as_slice(), arith);
        let scale: u32 = operate(arith, Op::Div, ONE, total);
        let r = Encoded { codes, scale, codes2: Vec::new(), scale2: ZERO };
        proof {
            assert(r.codes2@ =~= Seq::<u8>::empty());
        }
        r
    }
}

} // verus!
