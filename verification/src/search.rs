//! Scoring and brute-force search over any source of encoded vectors.

use vstd::prelude::*;

use crate::arith::{is_arithmetic, meaning, operate, Op};
use crate::codes::piece;
use crate::lloyd::{is_width, level_count};
use crate::score::{raw_score, score_batch4, score_scalar};
use crate::state::{candidates, slot_score, IndexState};
use crate::topk::{considered, kept_of, order_key, top_k, Candidate, TopK};

verus! {

/// Where encoded vectors come from: an index in memory, or the bytes of a file.
pub trait SlotSource {
    /// What the source holds.
    spec fn state(&self) -> IndexState;

    /// The source can be read.
    spec fn sound(&self) -> bool;

    /// What can be relied on in a source that can be read.
    proof fn lemma_sound(&self)
        requires
            self.sound(),
        ensures
            is_width(self.state().bits),
            self.state().padded() * self.state().bits + 7 <= usize::MAX,
            self.state().slots.len() <= usize::MAX,
    ;

    /// Number of slots.
    fn source_len(&self) -> (r: usize)
        requires
            self.sound(),
        ensures
            r == self.state().slots.len(),
    ;

    /// Width of the codes.
    fn source_bits(&self) -> (r: u8)
        requires
            self.sound(),
        ensures
            r == self.state().bits,
    ;

    /// Whether there is a second pass.
    fn source_residual(&self) -> (r: bool)
        requires
            self.sound(),
        ensures
            r == self.state().residual,
    ;

    /// Whether a slot is alive.
    fn source_alive(&self, i: usize) -> (r: bool)
        requires
            self.sound(),
            i < self.state().slots.len(),
        ensures
            r == self.state().slots[i as int].alive,
    ;

    /// The scale of a slot.
    fn source_scale(&self, i: usize) -> (r: u32)
        requires
            self.sound(),
            i < self.state().slots.len(),
        ensures
            r == self.state().slots[i as int].scale,
    ;

    /// The scale of a slot's second pass.
    fn source_scale2(&self, i: usize) -> (r: u32)
        requires
            self.sound(),
            self.state().residual,
            i < self.state().slots.len(),
        ensures
            r == self.state().slots[i as int].scale2,
    ;

    /// The codes of `m` consecutive slots.
    fn source_codes(&self, i: usize, m: usize) -> (r: &[u8])
        requires
            self.sound(),
            i + m <= self.state().slots.len(),
        ensures
            r@.len() == m * self.state().code_len(),
            forall|j: int|
                0 <= j < m ==> #[trigger] piece(r@, self.state().code_len(), j)
                    == self.state().slots[i + j].codes,
    ;

    /// The codes of the second pass of `m` consecutive slots.
    fn source_codes2(&self, i: usize, m: usize) -> (r: &[u8])
        requires
            self.sound(),
            self.state().residual,
            i + m <= self.state().slots.len(),
        ensures
            r@.len() == m * self.state().code_len(),
            forall|j: int|
                0 <= j < m ==> #[trigger] piece(r@, self.state().code_len(), j)
                    == self.state().slots[i + j].codes2,
    ;
}

/// One more considered candidate.
proof fn lemma_kept_step(c: Seq<Candidate>, x: Candidate, k: nat)
    ensures
        kept_of(c.push(x), k) == considered(kept_of(c, k), x, k),
{
    assert(c.push(x).drop_last() =~= c);
}

/// The score of a slot against a rotated query.
pub fn score_slot<S: SlotSource, A: Fn(Op, u32, u32) -> u32>(
    src: &S,
    rot: &[u32],
    lut: &[u32],
    i: usize,
    arith: &A,
) -> (r: u32)
    requires
        src.sound(),
        is_arithmetic(*arith),
        rot@.len() == src.state().padded(),
        lut@.len() == level_count(src.state().bits),
        i < src.state().slots.len(),
    ensures
        r == slot_score(
            meaning(*arith),
            src.state(),
            src.state().slots[i as int],
            rot@,
            lut@,
        ),
{
    proof {
        src.lemma_sound();
    }
    let bits: u8 = src.source_bits();
    let ghost w = src.state().code_len();
    let codes = src.source_codes(i, 1);
    proof {
        assert(1 * w == w);
        assert(0 * w == 0);
        assert(piece(codes@, w, 0) =~= codes@);
    }
    let raw: u32 = score_scalar(codes, bits, rot, lut, arith);
    let first: u32 = operate(arith, Op::Mul, raw, src.source_scale(i));
    if src.source_residual() {
        let codes2 = src.source_codes2(i, 1);
        proof {
            assert(piece(codes2@, w, 0) =~= codes2@);
        }
        let raw2: u32 = score_scalar(codes2, bits, rot, lut, arith);
        let second: u32 = operate(arith, Op::Mul, raw2, src.source_scale2(i));
        operate(arith, Op::Add, first, second)
    } else {
        first
    }
}

/// The scores of four consecutive slots against a rotated query.
pub fn score_four<S: SlotSource, A: Fn(Op, u32, u32) -> u32>(
    src: &S,
    rot: &[u32],
    lut: &[u32],
    i: usize,
    arith: &A,
) -> (r: [u32; 4])
    requires
        src.sound(),
        is_arithmetic(*arith),
        rot@.len() == src.state().padded(),
        lut@.len() == level_count(src.state().bits),
        i + 4 <= src.state().slots.len(),
    ensures
        forall|v: int|
            0 <= v < 4 ==> #[trigger] r@[v] == slot_score(
                meaning(*arith),
                src.state(),
                src.state().slots[i + v],
                rot@,
                lut@,
            ),
{
    proof {
        src.lemma_sound();
    }
    let bits: u8 = src.source_bits();
    let residual: bool = src.source_residual();
    let ghost f = meaning(*arith);
    let ghost w = src.state().code_len();
    let codes = src.source_codes(i, 4);
    let raw = score_batch4(codes, bits, rot, lut, arith);
    proof {
        assert forall|v: int| 0 <= v < 4 implies #[trigger] raw@[v] == raw_score(
            f,
            src.state().slots[i + v].codes,
            bits,
            rot@,
            lut@,
        ) by {
            assert(piece(codes@, w, v) == src.state().slots[i + v].codes);
        }
    }
    let mut out: [u32; 4] = raw;
    let mut v: usize = 0;
    while v < 4
        invariant
            src.sound(),
            is_arithmetic(*arith),
            f == meaning(*arith),
            i + 4 <= src.state().slots.len() <= usize::MAX,
            v <= 4,
            forall|u: int| v <= u < 4 ==> #[trigger] out@[u] == raw@[u],
            forall|u: int|
                0 <= u < v ==> #[trigger] out@[u] == f(
                    Op::Mul,
                    raw@[u],
                    src.state().slots[i + u].scale,
                ),
        decreases 4 - v,
    {
        out[v] = operate(arith, Op::Mul, raw[v], src.source_scale(i + v));
        v = v + 1;
    }
    if residual {
        let codes2 = src.source_codes2(i, 4);
        let raw2 = score_batch4(codes2, bits, rot, lut, arith);
        let ghost firsts = out@;
        proof {
            assert forall|v: int| 0 <= v < 4 implies #[trigger] raw2@[v]
                == raw_score(f, src.state().slots[i + v].codes2, bits, rot@, lut@) by {
                assert(piece(codes2@, w, v) == src.state().slots[i + v].codes2);
            }
        }
        let mut u: usize = 0;
        while u < 4
            invariant
                src.sound(),
                src.state().residual,
                is_arithmetic(*arith),
                f == meaning(*arith),
                i + 4 <= src.state().slots.len() <= usize::MAX,
                u <= 4,
                firsts.len() == 4,
                forall|t: int| u <= t < 4 ==> #[trigger] out@[t] == firsts[t],
                forall|t: int|
                    0 <= t < u ==> #[trigger] out@[t] == f(
                        Op::Add,
                        firsts[t],
                        f(Op::Mul, raw2@[t], src.state().slots[i + t].scale2),
                    ),
            decreases 4 - u,
        {
            let second: u32 = operate(arith, Op::Mul, raw2[u], src.source_scale2(i + u));
            out[u] = operate(arith, Op::Add, out[u], second);
            u = u + 1;
        }
        proof {
            assert forall|t: int| 0 <= t < 4 implies #[trigger] out@[t] == slot_score(
                f,
                src.state(),
                src.state().slots[i + t],
                rot@,
                lut@,
            ) by {
                assert(firsts[t] == f(Op::Mul, raw@[t], src.state().slots[i + t].scale));
                assert(raw2@[t] == raw_score(
                    f,
                    src.state().slots[i + t].codes2,
                    bits,
                    rot@,
                    lut@,
                ));
            }
        }
    }
    out
}

/// The best slots for a rotated query.
pub fn scan<S: SlotSource, A: Fn(Op, u32, u32) -> u32>(
    src: &S,
    rot: &[u32],
    lut: &[u32],
    k: usize,
    arith: &A,
) -> (r: Vec<(usize, u32)>)
    requires
        src.sound(),
        is_arithmetic(*arith),
        rot@.len() == src.state().padded(),
        lut@.len() == level_count(src.state().bits),
        k >= 1,
    ensures
        r@ == top_k(
            candidates(meaning(*arith), src.state(), rot@, lut@, src.state().slots.len()),
            k as nat,
        ),
{
    let ghost f = meaning(*arith);
    let ghost st = src.state();
    let n: usize = src.source_len();
    let mut best = TopK::new(k);
    let mut idx: usize = 0;
    // Removed slots are scored along with their neighbours, which keeps the
    // batch dense, but never considered.
    while n - idx >= 4
        invariant
            src.sound(),
            st == src.state(),
            n == st.slots.len(),
            is_arithmetic(*arith),
            f == meaning(*arith),
            rot@.len() == st.padded(),
            lut@.len() == level_count(st.bits),
            k >= 1,
            idx <= n,
            best.k == k,
            best.kept@ == kept_of(candidates(f, st, rot@, lut@, idx as nat), k as nat),
        decreases n - idx,
    {
        let scores = score_four(src, rot, lut, idx, arith);
        let mut v: usize = 0;
        while v < 4
            invariant
                src.sound(),
                st == src.state(),
                n == st.slots.len(),
                f == meaning(*arith),
                k >= 1,
                idx + 4 <= n,
                v <= 4,
                forall|u: int|
                    0 <= u < 4 ==> #[trigger] scores@[u] == slot_score(
                        f,
                        st,
                        st.slots[idx + u],
                        rot@,
                        lut@,
                    ),
                best.k == k,
                best.kept@ == kept_of(candidates(f, st, rot@, lut@, (idx + v) as nat), k as nat),
            decreases 4 - v,
        {
            if src.source_alive(idx + v) {
                proof {
                    lemma_kept_step(
                        candidates(f, st, rot@, lut@, (idx + v) as nat),
                        (order_key(scores@[v as int]), (idx + v) as usize),
                        k as nat,
                    );
                }
                best.consider(scores[v], idx + v);
            }
            v = v + 1;
        }
        idx = idx + 4;
    }
    while idx < n
        invariant
            src.sound(),
            st == src.state(),
            n == st.slots.len(),
            is_arithmetic(*arith),
            f == meaning(*arith),
            rot@.len() == st.padded(),
            lut@.len() == level_count(st.bits),
            k >= 1,
            idx <= n,
            best.k == k,
            best.kept@ == kept_of(candidates(f, st, rot@, lut@, idx as nat), k as nat),
        decreases n - idx,
    {
        if src.source_alive(idx) {
            let s: u32 = score_slot(src, rot, lut, idx, arith);
            proof {
                lemma_kept_step(
                    candidates(f, st, rot@, lut@, idx as nat),
                    (order_key(s), idx),
                    k as nat,
                );
            }
            best.consider(s, idx);
        }
        idx = idx + 1;
    }
    best.into_hits()
}

} // verus!
