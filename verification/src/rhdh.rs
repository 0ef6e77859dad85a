//! Randomized Hadamard transform (RHDH): a diagonal of random signs followed by
//! the Walsh-Hadamard transform.
//!
//! The signs are derived deterministically from a seed, so the same seed gives
//! the same rotation everywhere. The transform is unnormalized: for a unit
//! input, coordinates of the output are approximately N(0,1), which is what the
//! quantizer tables assume.

use vstd::arithmetic::div_mod::lemma_fundamental_div_mod_converse;
use vstd::arithmetic::mul::{lemma_mul_inequality, lemma_mul_is_commutative};
use vstd::arithmetic::power2::{
    lemma2_to64, lemma_pow2_adds, lemma_pow2_pos, lemma_pow2_strictly_increases, lemma_pow2_unfold,
    pow2,
};
use vstd::prelude::*;

use crate::arith::{operate, is_arithmetic, meaning, Meaning, Op, MINUS_ONE, ONE, ZERO};

verus! {

/// `n` is a power of two.
pub open spec fn is_power_of_two(n: int) -> bool {
    exists|k: nat| n == #[trigger] pow2(k)
}

/// The least power of two that is at least `dim`, and at least one.
pub open spec fn padded_len(dim: nat) -> nat
    decreases dim,
{
    if dim <= 1 {
        1
    } else {
        2 * padded_len(((dim + 1) / 2) as nat)
    }
}

/// `padded_len` is a power of two, covers the dimension, and is the least such.
pub proof fn law_padded_len(dim: nat)
    ensures
        is_power_of_two(padded_len(dim) as int),
        padded_len(dim) >= dim,
        padded_len(dim) >= 1,
        padded_len(dim) < 2 * dim || padded_len(dim) == 1,
        forall|p: int| is_power_of_two(p) && p >= dim ==> padded_len(dim) <= p,
    decreases dim,
{
    if dim <= 1 {
        lemma2_to64();
        assert(1 == pow2(0));
        assert forall|p: int| is_power_of_two(p) && p >= dim implies padded_len(dim) <= p by {
            let k = choose|k: nat| p == pow2(k);
            lemma_pow2_pos(k);
        }
    } else {
        let half = ((dim + 1) / 2) as nat;
        law_padded_len(half);
        let k = choose|k: nat| padded_len(half) == pow2(k);
        lemma_pow2_unfold((k + 1) as nat);
        assert(padded_len(dim) == pow2((k + 1) as nat));
        assert forall|p: int| is_power_of_two(p) && p >= dim implies padded_len(dim) <= p by {
            let m = choose|m: nat| p == pow2(m);
            if m == 0 {
                lemma2_to64();
            } else {
                lemma_pow2_unfold(m);
                assert(is_power_of_two(pow2((m - 1) as nat) as int));
            }
        }
    }
}

/// Pad a dimension up to the next power of two.
pub fn padded_dim(dim: usize) -> (r: usize)
    requires
        dim <= usize::MAX / 2 + 1,
    ensures
        r == padded_len(dim as nat),
{
    let mut p: usize = 1;
    let ghost mut k: nat = 0;
    proof {
        lemma2_to64();
        law_padded_len(dim as nat);
    }
    while p < dim
        invariant
            dim <= usize::MAX / 2 + 1,
            p == pow2(k),
            p <= padded_len(dim as nat),
            is_power_of_two(padded_len(dim as nat) as int),
            padded_len(dim as nat) >= dim,
            forall|q: int| is_power_of_two(q) && q >= dim ==> padded_len(dim as nat) <= q,
            p >= 1,
        decreases 2 * dim - p,
    {
        proof {
            lemma_pow2_unfold((k + 1) as nat);
            let m = choose|m: nat| padded_len(dim as nat) == pow2(m);
            if m <= k {
                if m < k {
                    lemma_pow2_strictly_increases(m, k);
                }
                assert(false);
            }
            if m > k + 1 {
                lemma_pow2_strictly_increases((k + 1) as nat, m);
            }
            k = k + 1;
        }
        p = p * 2;
    }
    proof {
        assert(is_power_of_two(p as int));
    }
    p
}

/// One step of the xorshift generator.
pub open spec fn xorshift(x: u64) -> u64 {
    let a = x ^ (x >> 12);
    let b = a ^ (a << 25);
    b ^ (b >> 27)
}

/// The multiplier of the generator's output.
pub const MULTIPLIER: u64 = 0x2545_F491_4F6C_DD1D;

/// The output of the generator in a state, as a numerator over 2^53.
pub open spec fn output(state: u64) -> u64 {
    (((state * MULTIPLIER) % 0x1_0000_0000_0000_0000) / 2048) as u64
}

/// The state from which a seed starts.
pub open spec fn initial_state(seed: u64) -> u64 {
    if seed == 0 {
        0x9E37_79B9_7F4A_7C15
    } else {
        seed
    }
}

/// The state after `n` steps.
pub open spec fn state_after(seed: u64, n: nat) -> u64
    decreases n,
{
    if n == 0 {
        initial_state(seed)
    } else {
        xorshift(state_after(seed, (n - 1) as nat))
    }
}

/// The sign that an output stands for: minus one below one half, else one.
pub open spec fn sign_of(numerator: u64) -> u32 {
    if numerator < 0x10_0000_0000_0000 {
        MINUS_ONE
    } else {
        ONE
    }
}

/// The first `n` signs of a seed.
pub open spec fn sign_diagonal(seed: u64, n: nat) -> Seq<u32> {
    Seq::new(n, |i: int| sign_of(output(state_after(seed, (i + 1) as nat))))
}

/// The generator never reaches the all-zero state from another one.
proof fn lemma_xorshift_nonzero(x: u64)
    requires
        x != 0,
    ensures
        xorshift(x) != 0,
{
    let a = x ^ (x >> 12);
    let b = a ^ (a << 25);
    assert(x != 0 ==> x ^ (x >> 12) != 0) by (bit_vector);
    assert(a != 0 ==> a ^ (a << 25) != 0) by (bit_vector);
    assert(b != 0 ==> b ^ (b >> 27) != 0) by (bit_vector);
}

/// Whatever the seed, no state of its stream is zero (a zero state would give
/// the same sign for ever).
pub proof fn law_stream_never_zero(seed: u64, n: nat)
    ensures
        state_after(seed, n) != 0,
    decreases n,
{
    if n > 0 {
        law_stream_never_zero(seed, (n - 1) as nat);
        lemma_xorshift_nonzero(state_after(seed, (n - 1) as nat));
    }
}

/// Deterministic pseudo-random signs from a seed.
pub struct SignStream {
    state: u64,
}

impl SignStream {
    /// The state of the generator.
    pub closed spec fn state(&self) -> u64 {
        self.state
    }

    /// A stream that starts from `seed`.
    pub fn new(seed: u64) -> (r: Self)
        ensures
            r.state() == initial_state(seed),
    {
        let state: u64 = if seed == 0 {
            0x9E37_79B9_7F4A_7C15
        } else {
            seed
        };
        Self { state }
    }

    /// The next output, in `0..2^53`: the numerator over 2^53 of a number in
    /// `[0, 1)`.
    pub fn next_numerator(&mut self) -> (r: u64)
        ensures
            final(self).state() == xorshift(old(self).state()),
            r == output(final(self).state()),
            r < 0x20_0000_0000_0000,
    {
        let mut x: u64 = self.state;
        x = x ^ (x >> 12);
        x = x ^ (x << 25);
        x = x ^ (x >> 27);
        self.state = x;
        let v: u64 = x.wrapping_mul(MULTIPLIER);
        v / 2048
    }

    /// The next sign.
    pub fn next_sign(&mut self) -> (r: u32)
        ensures
            final(self).state() == xorshift(old(self).state()),
            r == sign_of(output(final(self).state())),
    {
        if self.next_numerator() < 0x10_0000_0000_0000 {
            MINUS_ONE
        } else {
            ONE
        }
    }
}

/// One stage of the Walsh-Hadamard transform: in each block of `2 * h` entries,
/// entry `j` of the first half becomes the sum of the entries `j` and `j + h`,
/// and entry `j + h` their difference.
pub open spec fn butterfly(f: Meaning, v: Seq<u32>, h: int) -> Seq<u32> {
    Seq::new(
        v.len(),
        |j: int|
            if (j / h) % 2 == 0 {
                f(Op::Add, v[j], v[j + h])
            } else {
                f(Op::Sub, v[j - h], v[j])
            },
    )
}

/// The stages `h`, `2 * h`, `4 * h`, and so on below the length.
pub open spec fn butterflies(f: Meaning, v: Seq<u32>, h: int) -> Seq<u32>
    decreases 2 * v.len() - h,
{
    if h <= 0 || h >= v.len() {
        v
    } else {
        butterflies(f, butterfly(f, v, h), 2 * h)
    }
}

/// The unnormalized Walsh-Hadamard transform.
pub open spec fn hadamard(f: Meaning, v: Seq<u32>) -> Seq<u32> {
    butterflies(f, v, 1)
}

/// The stages keep the length.
pub proof fn lemma_butterflies_len(f: Meaning, v: Seq<u32>, h: int)
    ensures
        butterflies(f, v, h).len() == v.len(),
    decreases 2 * v.len() - h,
{
    if 0 < h < v.len() {
        lemma_butterflies_len(f, butterfly(f, v, h), 2 * h);
    }
}

/// Where a stage reads: block `t` of width `2 * h`, offset `d` in its half.
proof fn lemma_block(h: int, t: int, d: int)
    requires
        0 < h,
        0 <= d < h,
        0 <= t,
    ensures
        ((2 * h * t + d) / h) % 2 == 0,
        ((2 * h * t + d + h) / h) % 2 == 1,
{
    assert(2 * h * t + d == (2 * t) * h + d) by (nonlinear_arith);
    assert(2 * h * t + d + h == (2 * t + 1) * h + d) by (nonlinear_arith);
    lemma_fundamental_div_mod_converse(2 * h * t + d, h, 2 * t, d);
    lemma_fundamental_div_mod_converse(2 * h * t + d + h, h, 2 * t + 1, d);
}

/// Fast in-place Walsh-Hadamard transform (unnormalized). The length must be a
/// power of two.
pub fn fwht<A: Fn(Op, u32, u32) -> u32>(v: &mut Vec<u32>, arith: &A)
    requires
        is_arithmetic(*arith),
        is_power_of_two(old(v)@.len() as int),
    ensures
        final(v)@ == hadamard(meaning(*arith), old(v)@),
        final(v)@.len() == old(v)@.len(),
{
    let ghost f = meaning(*arith);
    let ghost start = v@;
    let n: usize = v.len();
    let ghost top = choose|k: nat| n == pow2(k);
    let ghost mut level: nat = 0;
    let mut h: usize = 1;
    proof {
        lemma2_to64();
    }
    while h < n
        invariant
            is_arithmetic(*arith),
            f == meaning(*arith),
            v@.len() == n,
            n == pow2(top),
            h == pow2(level),
            level <= top,
            hadamard(f, start) == butterflies(f, v@, h as int),
        decreases n - h,
    {
        let ghost before = v@;
        let ghost blocks = pow2((top - level - 1) as nat) as int;
        proof {
            if level == top {
                assert(false);
            }
            lemma_pow2_pos(level);
            lemma_pow2_unfold((level + 1) as nat);
            lemma_pow2_adds((level + 1) as nat, (top - level - 1) as nat);
            assert(n == 2 * h * blocks);
        }
        let mut i: usize = 0;
        let ghost mut t: int = 0;
        while i < n
            invariant
                is_arithmetic(*arith),
                f == meaning(*arith),
                0 < h < n,
                v@.len() == n,
                before.len() == n,
                n == 2 * h * blocks,
                i == 2 * h * t,
                0 <= t <= blocks,
                forall|p: int| 0 <= p < i ==> v@[p] == butterfly(f, before, h as int)[p],
                forall|p: int| i <= p < n ==> v@[p] == before[p],
            decreases n - i,
        {
            proof {
                if t >= blocks {
                    lemma_mul_inequality(blocks, t, 2 * h as int);
                    lemma_mul_is_commutative(t, 2 * h as int);
                    lemma_mul_is_commutative(blocks, 2 * h as int);
                }
                assert(2 * h * (t + 1) == 2 * h * t + 2 * h) by (nonlinear_arith);
                lemma_mul_inequality(t + 1, blocks, 2 * h as int);
                lemma_mul_is_commutative(t + 1, 2 * h as int);
                lemma_mul_is_commutative(blocks, 2 * h as int);
                assert(i + 2 * h <= n);
            }
            let mut j: usize = i;
            while j < i + h
                invariant
                    is_arithmetic(*arith),
                    f == meaning(*arith),
                    0 < h < n,
                    v@.len() == n,
                    before.len() == n,
                    i == 2 * h * t,
                    0 <= t,
                    i + 2 * h <= n,
                    i <= j <= i + h,
                    forall|p: int| 0 <= p < j ==> v@[p] == butterfly(f, before, h as int)[p],
                    forall|p: int| j <= p < i + h ==> v@[p] == before[p],
                    forall|p: int|
                        i + h <= p < j + h ==> v@[p] == butterfly(f, before, h as int)[p],
                    forall|p: int| j + h <= p < n ==> v@[p] == before[p],
                decreases i + h - j,
            {
                let x: u32 = v[j];
                let y: u32 = v[j + h];
                proof {
                    lemma_block(h as int, t, j - i);
                }
                let sum: u32 = operate(arith, Op::Add, x, y);
                let difference: u32 = operate(arith, Op::Sub, x, y);
                v.set(j, sum);
                v.set(j + h, difference);
                j = j + 1;
            }
            i = i + h + h;
            proof {
                t = t + 1;
            }
        }
        proof {
            assert(v@ =~= butterfly(f, before, h as int));
            level = level + 1;
            if level < top {
                lemma_pow2_strictly_increases(level, top);
            }
        }
        h = h + h;
    }
}

/// The rotation of `v` by a sign diagonal: pad with zeros to the length of the
/// diagonal, multiply by the signs, and transform.
pub open spec fn rotated(f: Meaning, signs: Seq<u32>, v: Seq<u32>) -> Seq<u32> {
    hadamard(
        f,
        Seq::new(
            signs.len(),
            |i: int|
                f(
                    Op::Mul,
                    if i < v.len() {
                        v[i]
                    } else {
                        ZERO
                    },
                    signs[i],
                ),
        ),
    )
}

/// A reusable RHDH context: the random sign diagonal for a padded dimension.
pub struct Rhdh {
    /// The padded dimension.
    pub padded: usize,
    /// The sign of each padded coordinate: one or minus one.
    pub signs: Vec<u32>,
}

impl Rhdh {
    /// The diagonal covers the padded dimension, which is a power of two.
    pub open spec fn wf(&self) -> bool {
        &&& self.signs@.len() == self.padded
        &&& is_power_of_two(self.padded as int)
    }

    /// Build the transform for `dim` dimensions from a deterministic seed.
    pub fn new(dim: usize, seed: u64) -> (r: Self)
        requires
            dim <= usize::MAX / 2 + 1,
        ensures
            r.wf(),
            r.padded == padded_len(dim as nat),
            r.signs@ == sign_diagonal(seed, padded_len(dim as nat)),
    {
        let padded: usize = padded_dim(dim);
        let mut s = SignStream::new(seed);
        let mut signs: Vec<u32> = Vec::new();
        while signs.len() < padded
            invariant
                padded == padded_len(dim as nat),
                signs@.len() <= padded,
                s.state() == state_after(seed, signs@.len()),
                signs@ == sign_diagonal(seed, signs@.len()),
            decreases padded - signs@.len(),
        {
            let sign: u32 = s.next_sign();
            signs.push(sign);
            proof {
                assert(signs@ =~= sign_diagonal(seed, signs@.len()));
            }
        }
        proof {
            law_padded_len(dim as nat);
        }
        Self { padded, signs }
    }

    /// Apply the randomized Hadamard transform to an input of at most `padded`
    /// values; `out` receives `padded` values. The padding zeros receive random
    /// signs too, which keeps energy spread uniformly.
    pub fn apply<A: Fn(Op, u32, u32) -> u32>(&self, v: &[u32], out: &mut Vec<u32>, arith: &A)
        requires
            self.wf(),
            is_arithmetic(*arith),
            v@.len() <= self.padded,
        ensures
            final(out)@ == rotated(meaning(*arith), self.signs@, v@),
            final(out)@.len() == self.padded,
    {
        let ghost f = meaning(*arith);
        let ghost signed = Seq::new(
            self.padded as nat,
            |i: int|
                f(
                    Op::Mul,
                    if i < v@.len() {
                        v@[i]
                    } else {
                        ZERO
                    },
                    self.signs@[i],
                ),
        );
        out.clear();
        while out.len() < self.padded
            invariant
                self.wf(),
                is_arithmetic(*arith),
                f == meaning(*arith),
                v@.len() <= self.padded,
                out@.len() <= self.padded,
                signed == Seq::new(
                    self.padded as nat,
                    |i: int|
                        f(
                            Op::Mul,
                            if i < v@.len() {
                                v@[i]
                            } else {
                                ZERO
                            },
                            self.signs@[i],
                        ),
                ),
                out@ == signed.take(out@.len() as int),
            decreases self.padded - out@.len(),
        {
            let i: usize = out.len();
            let x: u32 = if i < v.len() {
                v[i]
            } else {
                ZERO
            };
            let y: u32 = operate(arith, Op::Mul, x, self.signs[i]);
            out.push(y);
            proof {
                assert(out@ =~= signed.take(out@.len() as int));
            }
        }
        proof {
            assert(out@ =~= signed);
        }
        fwht(out, arith);
    }
}

} // verus!
