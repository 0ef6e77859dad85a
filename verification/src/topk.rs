//! Bounded selection of the best-scored slots.
//!
//! Scores are compared through a monotone key, so that every bit pattern has a
//! place in the order. While the selection is not full every candidate enters;
//! afterwards one enters only if its key beats the least kept key, and the
//! least pair of key and slot leaves.

use vstd::prelude::*;

use crate::arith::above;

verus! {

/// The monotone key of a score: all bits of a negative pattern are flipped, the
/// sign bit of the others.
pub open spec fn order_key(score: u32) -> u32 {
    if score >= 0x8000_0000 {
        (0xFFFF_FFFF - score) as u32
    } else {
        (score + 0x8000_0000) as u32
    }
}

/// The score that has a key.
pub open spec fn score_of_key(key: u32) -> u32 {
    if key >= 0x8000_0000 {
        (key - 0x8000_0000) as u32
    } else {
        (0xFFFF_FFFF - key) as u32
    }
}

/// The key loses nothing, and it orders numbers as binary32 does.
pub proof fn law_key_is_monotone(x: u32, y: u32)
    ensures
        score_of_key(order_key(x)) == x,
        order_key(score_of_key(x)) == x,
        above(x, y) ==> order_key(x) > order_key(y),
        order_key(x) == order_key(y) ==> x == y,
{
}

/// Compute the monotone key of a score.
pub fn key_of_score(score: u32) -> (r: u32)
    ensures
        r == order_key(score),
{
    if score >= 0x8000_0000 {
        0xFFFF_FFFF - score
    } else {
        score + 0x8000_0000
    }
}

/// Recover the score from its key.
pub fn undo_key(key: u32) -> (r: u32)
    ensures
        r == score_of_key(key),
{
    if key >= 0x8000_0000 {
        key - 0x8000_0000
    } else {
        0xFFFF_FFFF - key
    }
}

/// A candidate: the key of its score, and its slot.
pub type Candidate = (u32, usize);

/// The order of candidates: by key, then by slot.
pub open spec fn precedes(a: Candidate, b: Candidate) -> bool {
    a.0 < b.0 || (a.0 == b.0 && a.1 < b.1)
}

/// `s` with `c` put behind the last candidate that precedes it.
pub open spec fn inserted(s: Seq<Candidate>, c: Candidate) -> Seq<Candidate>
    decreases s.len(),
{
    if s.len() == 0 || precedes(s.last(), c) {
        s.push(c)
    } else {
        inserted(s.drop_last(), c).push(s.last())
    }
}

/// The kept candidates after one more was considered, with room for `k`.
pub open spec fn considered(s: Seq<Candidate>, c: Candidate, k: nat) -> Seq<Candidate> {
    if s.len() < k {
        inserted(s, c)
    } else if c.0 > s[0].0 {
        inserted(s, c).drop_first()
    } else {
        s
    }
}

/// The candidates that are kept of a sequence, least first.
pub open spec fn kept_of(candidates: Seq<Candidate>, k: nat) -> Seq<Candidate>
    decreases candidates.len(),
{
    if candidates.len() == 0 {
        Seq::empty()
    } else {
        considered(kept_of(candidates.drop_last(), k), candidates.last(), k)
    }
}

/// Where the run of candidates that share the last key starts, looked for from
/// `i` downwards.
pub open spec fn last_run(s: Seq<Candidate>, i: int) -> int
    decreases i,
{
    if i > 0 && s[i - 1].0 == s.last().0 {
        last_run(s, i - 1)
    } else {
        i
    }
}

/// Kept candidates in the order of the answer: best key first, and the lower
/// slot first among equal keys.
pub open spec fn best_first(s: Seq<Candidate>) -> Seq<Candidate>
    decreases s.len(),
{
    if s.len() == 0 {
        s
    } else {
        let g = last_run(s, s.len() - 1);
        if 0 <= g < s.len() {
            s.skip(g) + best_first(s.take(g))
        } else {
            s
        }
    }
}

/// The slots and scores of candidates.
pub open spec fn hits(s: Seq<Candidate>) -> Seq<(usize, u32)> {
    s.map_values(|c: Candidate| (c.1, score_of_key(c.0)))
}

/// The answer for a sequence of candidates: the `k` best.
pub open spec fn top_k(candidates: Seq<Candidate>, k: nat) -> Seq<(usize, u32)> {
    hits(best_first(kept_of(candidates, k)))
}

proof fn lemma_last_run(s: Seq<Candidate>, i: int)
    requires
        0 <= i < s.len(),
        forall|p: int| i <= p < s.len() ==> (#[trigger] s[p]).0 == s.last().0,
    ensures
        0 <= last_run(s, i) <= i,
        forall|p: int| last_run(s, i) <= p < s.len() ==> (#[trigger] s[p]).0 == s.last().0,
        last_run(s, i) > 0 ==> s[last_run(s, i) - 1].0 != s.last().0,
    decreases i,
{
    if i > 0 && s[i - 1].0 == s.last().0 {
        lemma_last_run(s, i - 1);
    }
}

proof fn lemma_inserted_at(s: Seq<Candidate>, c: Candidate, pos: int)
    requires
        0 <= pos <= s.len(),
        pos > 0 ==> precedes(s[pos - 1], c),
        forall|i: int| pos <= i < s.len() ==> !precedes(#[trigger] s[i], c),
    ensures
        inserted(s, c) == s.insert(pos, c),
    decreases s.len(),
{
    if pos == s.len() {
        assert(s.insert(pos, c) =~= s.push(c));
    } else {
        assert(!precedes(s[s.len() - 1], c));
        lemma_inserted_at(s.drop_last(), c, pos);
        assert(s.drop_last().insert(pos, c).push(s.last()) =~= s.insert(pos, c));
    }
}

/// A bounded selection in progress.
pub struct TopK {
    /// How many candidates are kept at most.
    pub k: usize,
    /// The kept candidates, least first.
    pub kept: Vec<Candidate>,
}

impl TopK {
    /// An empty selection with room for `k`.
    pub fn new(k: usize) -> (r: Self)
        ensures
            r.k == k,
            r.kept@ == kept_of(Seq::empty(), k as nat),
    {
        TopK { k, kept: Vec::new() }
    }

    /// Consider one scored slot.
    pub fn consider(&mut self, score: u32, slot: usize)
        requires
            old(self).k >= 1,
        ensures
            final(self).k == old(self).k,
            final(self).kept@ == considered(
                old(self).kept@,
                (order_key(score), slot),
                old(self).k as nat,
            ),
    {
        let key: u32 = key_of_score(score);
        let full: bool = self.kept.len() >= self.k;
        if full && key <= self.kept[0].0 {
            return ;
        }
        let ghost before = self.kept@;
        let ghost c: Candidate = (key, slot);
        let mut pos: usize = self.kept.len();
        while pos > 0 && !(self.kept[pos - 1].0 < key || (self.kept[pos - 1].0 == key
            && self.kept[pos - 1].1 < slot))
            invariant
                self.kept@ == before,
                c == (key, slot),
                pos <= before.len(),
                forall|i: int| pos <= i < before.len() ==> !precedes(#[trigger] before[i], c),
            decreases pos,
        {
            pos = pos - 1;
        }
        proof {
            lemma_inserted_at(before, c, pos as int);
        }
        self.kept.insert(pos, (key, slot));
        if full {
            self.kept.remove(0);
            proof {
                assert(self.kept@ =~= inserted(before, c).drop_first());
            }
        }
    }

    /// The selection in the order of the answer, with the scores.
    pub fn into_hits(self) -> (r: Vec<(usize, u32)>)
        ensures
            r@ == hits(best_first(self.kept@)),
    {
        let mut out: Vec<(usize, u32)> = Vec::new();
        let ghost all = self.kept@;
        let mut end: usize = self.kept.len();
        proof {
            assert(all.take(end as int) =~= all);
            assert(hits(best_first(all)) =~= out@ + hits(best_first(all.take(end as int))));
        }
        while end > 0
            invariant
                self.kept@ == all,
                end <= all.len(),
                hits(best_first(all)) == out@ + hits(best_first(all.take(end as int))),
            decreases end,
        {
            let ghost s = all.take(end as int);
            let ghost before = out@;
            let key: u32 = self.kept[end - 1].0;
            let mut start: usize = end - 1;
            proof {
                lemma_last_run(s, s.len() - 1);
            }
            while start > 0 && self.kept[start - 1].0 == key
                invariant
                    self.kept@ == all,
                    end <= all.len(),
                    s == all.take(end as int),
                    start < end,
                    key == s.last().0,
                    last_run(s, s.len() - 1) == last_run(s, start as int),
                decreases start,
            {
                assert(s[start - 1] == all[start - 1]);
                start = start - 1;
            }
            proof {
                if start > 0 {
                    assert(s[start - 1] == all[start - 1]);
                }
                assert(last_run(s, s.len() - 1) == start);
                assert(best_first(s) == s.skip(start as int) + best_first(s.take(start as int)));
                assert(s.take(start as int) =~= all.take(start as int));
            }
            let ghost run = hits(s.skip(start as int));
            let mut i: usize = start;
            while i < end
                invariant
                    self.kept@ == all,
                    end <= all.len(),
                    start <= i <= end,
                    s == all.take(end as int),
                    run == hits(s.skip(start as int)),
                    out@ == before + run.take(i - start),
                decreases end - i,
            {
                let c: Candidate = self.kept[i];
                let score: u32 = undo_key(c.0);
                out.push((c.1, score));
                proof {
                    assert(run[i - start] == (c.1, score));
                    assert(run.take(i + 1 - start) =~= run.take(i - start).push((c.1, score)));
                }
                i = i + 1;
            }
            proof {
                assert(run.take(end - start) =~= run);
                assert(hits(best_first(s)) =~= run + hits(best_first(s.take(start as int))));
                assert(before + (run + hits(best_first(all.take(start as int)))) =~= (before + run)
                    + hits(best_first(all.take(start as int))));
            }
            end = start;
        }
        proof {
            assert(all.take(0) =~= Seq::<Candidate>::empty());
            assert(out@ + hits(best_first(all.take(0))) =~= out@);
        }
        out
    }
}

/// Each candidate precedes the later ones.
pub open spec fn ascending(s: Seq<Candidate>) -> bool {
    forall|i: int, j: int| 0 <= i < j < s.len() ==> precedes(#[trigger] s[i], #[trigger] s[j])
}

/// Candidates come in the order of their slots.
pub open spec fn in_slot_order(s: Seq<Candidate>) -> bool {
    forall|i: int, j: int| 0 <= i < j < s.len() ==> (#[trigger] s[i]).1 < (#[trigger] s[j]).1
}

proof fn lemma_inserted(s: Seq<Candidate>, c: Candidate)
    requires
        ascending(s),
        forall|i: int| 0 <= i < s.len() ==> (#[trigger] s[i]).1 != c.1,
    ensures
        ascending(inserted(s, c)),
        inserted(s, c).len() == s.len() + 1,
        forall|x: Candidate| #[trigger] inserted(s, c).contains(x) <==> s.contains(x) || x == c,
    decreases s.len(),
{
    let r = inserted(s, c);
    if s.len() == 0 || precedes(s.last(), c) {
        assert forall|i: int, j: int| 0 <= i < j < r.len() implies precedes(
            #[trigger] r[i],
            #[trigger] r[j],
        ) by {
            if j == s.len() && i < s.len() - 1 {
                assert(precedes(s[i], s[s.len() - 1]));
            }
        }
        assert forall|x: Candidate| #[trigger] r.contains(x) <==> s.contains(x) || x == c by {
            if s.contains(x) {
                let i = choose|i: int| 0 <= i < s.len() && s[i] == x;
                assert(r[i] == x);
            }
            assert(r[s.len() as int] == c);
        }
    } else {
        let t = s.drop_last();
        lemma_inserted(t, c);
        let u = inserted(t, c);
        assert forall|i: int, j: int| 0 <= i < j < r.len() implies precedes(
            #[trigger] r[i],
            #[trigger] r[j],
        ) by {
            if j == u.len() {
                assert(u.contains(u[i]));
                if u[i] != c {
                    let p = choose|p: int| 0 <= p < t.len() && t[p] == u[i];
                    assert(precedes(s[p], s[s.len() - 1]));
                }
            }
        }
        assert forall|x: Candidate| #[trigger] r.contains(x) <==> s.contains(x) || x == c by {
            if r.contains(x) {
                let i = choose|i: int| 0 <= i < r.len() && r[i] == x;
                if i < u.len() {
                    assert(u[i] == x);
                    assert(u.contains(x));
                    if t.contains(x) {
                        let p = choose|p: int| 0 <= p < t.len() && t[p] == x;
                        assert(s[p] == x);
                    }
                } else {
                    assert(s[s.len() - 1] == x);
                }
            }
            if s.contains(x) {
                let p = choose|p: int| 0 <= p < s.len() && s[p] == x;
                if p < t.len() {
                    assert(t[p] == x);
                    assert(u.contains(x));
                    let i = choose|i: int| 0 <= i < u.len() && u[i] == x;
                    assert(r[i] == x);
                } else {
                    assert(r[u.len() as int] == x);
                }
            }
            if x == c {
                assert(u.contains(x));
                let i = choose|i: int| 0 <= i < u.len() && u[i] == x;
                assert(r[i] == x);
            }
        }
    }
}

proof fn lemma_kept(candidates: Seq<Candidate>, k: nat)
    requires
        in_slot_order(candidates),
        k >= 1,
    ensures
        ({
            let s = kept_of(candidates, k);
            &&& ascending(s)
            &&& s.len() == if candidates.len() < k {
                candidates.len()
            } else {
                k
            }
            &&& forall|x: Candidate| #[trigger] s.contains(x) ==> candidates.contains(x)
            &&& forall|j: int|
                0 <= j < candidates.len() ==> s.contains(#[trigger] candidates[j]) || (s.len() == k
                    && candidates[j].0 <= s[0].0)
        }),
    decreases candidates.len(),
{
    if candidates.len() > 0 {
        let rest = candidates.drop_last();
        let c = candidates.last();
        lemma_kept(rest, k);
        let s = kept_of(rest, k);
        let r = kept_of(candidates, k);
        assert forall|i: int| 0 <= i < s.len() implies (#[trigger] s[i]).1 != c.1 by {
            assert(s.contains(s[i]));
            let j = choose|j: int| 0 <= j < rest.len() && rest[j] == s[i];
            assert(candidates[j].1 < candidates[candidates.len() - 1].1);
        }
        lemma_inserted(s, c);
        let u = inserted(s, c);
        if s.len() >= k && c.0 > s[0].0 {
            // The least pair leaves: it is the old first, which precedes `c`.
            assert(u.contains(u[0]));
            assert(precedes(s[0], c));
            assert(u.contains(s[0]));
            let p = choose|p: int| 0 <= p < u.len() && u[p] == s[0];
            assert(u[0] == s[0]) by {
                if u[0] == c {
                    assert(p > 0);
                    assert(precedes(u[0], u[p]));
                } else {
                    let q = choose|q: int| 0 <= q < s.len() && s[q] == u[0];
                    if q > 0 {
                        assert(precedes(s[0], s[q]));
                        assert(p > 0);
                        assert(precedes(u[0], u[p]));
                    }
                }
            }
            assert(r == u.drop_first());
            assert forall|x: Candidate| #[trigger] r.contains(x) implies candidates.contains(x) by {
                let i = choose|i: int| 0 <= i < r.len() && r[i] == x;
                assert(u[i + 1] == x);
                assert(u.contains(x));
                lemma_from_rest(candidates, s, x);
            }
            assert forall|j: int| 0 <= j < candidates.len() implies r.contains(
                #[trigger] candidates[j],
            ) || (r.len() == k && candidates[j].0 <= r[0].0) by {
                let x = candidates[j];
                assert(r[0] == u[1]);
                assert(precedes(u[0], u[1]));
                if j < rest.len() {
                    assert(rest[j] == x);
                    if s.contains(x) {
                        lemma_stays(u, x);
                    }
                } else {
                    assert(x == c);
                    lemma_stays(u, x);
                }
            }
            assert forall|i: int, j: int| 0 <= i < j < r.len() implies precedes(
                #[trigger] r[i],
                #[trigger] r[j],
            ) by {
                assert(precedes(u[i + 1], u[j + 1]));
            }
        } else if s.len() < k {
            assert(r == u);
            assert forall|x: Candidate| #[trigger] r.contains(x) implies candidates.contains(x) by {
                lemma_from_rest(candidates, s, x);
            }
            assert forall|j: int| 0 <= j < candidates.len() implies r.contains(
                #[trigger] candidates[j],
            ) || (r.len() == k && candidates[j].0 <= r[0].0) by {
                if j < rest.len() {
                    assert(rest[j] == candidates[j]);
                }
            }
        } else {
            assert(r == s);
            assert forall|x: Candidate| #[trigger] r.contains(x) implies candidates.contains(x) by {
                lemma_from_rest(candidates, s, x);
            }
            assert forall|j: int| 0 <= j < candidates.len() implies r.contains(
                #[trigger] candidates[j],
            ) || (r.len() == k && candidates[j].0 <= r[0].0) by {
                if j < rest.len() {
                    assert(rest[j] == candidates[j]);
                }
            }
        }
    }
}

/// What comes from the kept part of the front, or is the last, is a candidate.
proof fn lemma_from_rest(candidates: Seq<Candidate>, s: Seq<Candidate>, x: Candidate)
    requires
        candidates.len() > 0,
        forall|y: Candidate| #[trigger] s.contains(y) ==> candidates.drop_last().contains(y),
        s.contains(x) || x == candidates.last(),
    ensures
        candidates.contains(x),
{
    if s.contains(x) {
        let rest = candidates.drop_last();
        assert(rest.contains(x));
        let j = choose|j: int| 0 <= j < rest.len() && rest[j] == x;
        assert(candidates[j] == x);
    } else {
        assert(candidates[candidates.len() - 1] == x);
    }
}

/// What is not the first stays when the first leaves.
proof fn lemma_stays(u: Seq<Candidate>, x: Candidate)
    requires
        u.len() > 0,
        u.contains(x),
    ensures
        u.drop_first().contains(x) || x == u[0],
{
    let i = choose|i: int| 0 <= i < u.len() && u[i] == x;
    if i > 0 {
        assert(u.drop_first()[i - 1] == x);
    }
}

proof fn lemma_best_first(s: Seq<Candidate>)
    requires
        ascending(s),
    ensures
        best_first(s).len() == s.len(),
        forall|x: Candidate| #[trigger] best_first(s).contains(x) <==> s.contains(x),
        forall|i: int, j: int|
            0 <= i < j < s.len() ==> {
                let a = #[trigger] best_first(s)[i];
                let b = #[trigger] best_first(s)[j];
                a.0 > b.0 || (a.0 == b.0 && a.1 < b.1)
            },
    decreases s.len(),
{
    if s.len() > 0 {
        lemma_last_run(s, s.len() - 1);
        let g = last_run(s, s.len() - 1);
        let front = s.take(g);
        let run = s.skip(g);
        lemma_best_first(front);
        let rest = best_first(front);
        let r = best_first(s);
        assert(r == run + rest);
        assert forall|x: Candidate| #[trigger] r.contains(x) <==> s.contains(x) by {
            if r.contains(x) {
                let i = choose|i: int| 0 <= i < r.len() && r[i] == x;
                if i < run.len() {
                    assert(s[g + i] == x);
                } else {
                    assert(rest[i - run.len()] == x);
                    assert(rest.contains(x));
                    let p = choose|p: int| 0 <= p < front.len() && front[p] == x;
                    assert(s[p] == x);
                }
            }
            if s.contains(x) {
                let i = choose|i: int| 0 <= i < s.len() && s[i] == x;
                if i >= g {
                    assert(r[i - g] == x);
                } else {
                    assert(front[i] == x);
                    assert(rest.contains(x));
                    let p = choose|p: int| 0 <= p < rest.len() && rest[p] == x;
                    assert(r[run.len() + p] == x);
                }
            }
        }
        assert forall|i: int, j: int| 0 <= i < j < s.len() implies {
            let a = #[trigger] r[i];
            let b = #[trigger] r[j];
            a.0 > b.0 || (a.0 == b.0 && a.1 < b.1)
        } by {
            if j < run.len() {
                assert(precedes(s[g + i], s[g + j]));
            } else if i < run.len() {
                let b = rest[j - run.len()];
                assert(rest.contains(b));
                let p = choose|p: int| 0 <= p < front.len() && front[p] == b;
                assert(s[p] == b);
                assert(s[g + i].0 == s.last().0);
                assert(s[g - 1].0 != s.last().0);
                assert(precedes(s[g - 1], s[s.len() - 1]));
                if p < g - 1 {
                    assert(precedes(s[p], s[g - 1]));
                }
            } else {
                assert(rest[i - run.len()] == r[i]);
                assert(rest[j - run.len()] == r[j]);
            }
        }
    }
}

/// The answer holds the `k` best candidates: as many as there are up to `k`,
/// best first and the lower slot first among equal scores; each is a candidate
/// with its own score, and no candidate left out scores higher than one in the
/// answer.
pub proof fn law_top_k_is_best(candidates: Seq<Candidate>, k: nat)
    requires
        in_slot_order(candidates),
        k >= 1,
    ensures
        ({
            let r = top_k(candidates, k);
            &&& r.len() == if candidates.len() < k {
                candidates.len()
            } else {
                k
            }
            &&& forall|i: int|
                0 <= i < r.len() ==> candidates.contains(
                    (order_key((#[trigger] r[i]).1), r[i].0),
                )
            &&& forall|i: int, j: int|
                0 <= i < j < r.len() ==> order_key((#[trigger] r[i]).1) > order_key(
                    (#[trigger] r[j]).1,
                ) || (r[i].1 == r[j].1 && r[i].0 < r[j].0)
            &&& forall|j: int|
                0 <= j < candidates.len() ==> r.contains(
                    ((#[trigger] candidates[j]).1, score_of_key(candidates[j].0)),
                ) || forall|i: int|
                    0 <= i < r.len() ==> order_key((#[trigger] r[i]).1) >= candidates[j].0
        }),
{
    lemma_kept(candidates, k);
    let s = kept_of(candidates, k);
    lemma_best_first(s);
    let b = best_first(s);
    let r = top_k(candidates, k);
    assert forall|i: int| 0 <= i < r.len() implies #[trigger] r[i] == (b[i].1, score_of_key(b[i].0))
        && b[i] == (order_key(r[i].1), r[i].0) by {}
    assert forall|i: int| 0 <= i < r.len() implies candidates.contains(
        (order_key((#[trigger] r[i]).1), r[i].0),
    ) by {
        assert(b.contains(b[i]));
        assert(s.contains(b[i]));
    }
    assert forall|i: int, j: int| 0 <= i < j < r.len() implies order_key((#[trigger] r[i]).1)
        > order_key((#[trigger] r[j]).1) || (r[i].1 == r[j].1 && r[i].0 < r[j].0) by {
        let x = b[i];
        let y = b[j];
    }
    assert forall|j: int| 0 <= j < candidates.len() implies r.contains(
        ((#[trigger] candidates[j]).1, score_of_key(candidates[j].0)),
    ) || forall|i: int| 0 <= i < r.len() ==> order_key((#[trigger] r[i]).1) >= candidates[j].0 by {
        let c = candidates[j];
        if s.contains(c) {
            assert(b.contains(c));
            let i = choose|i: int| 0 <= i < b.len() && b[i] == c;
            assert(r[i] == (c.1, score_of_key(c.0)));
        } else {
            assert forall|i: int| 0 <= i < r.len() implies order_key((#[trigger] r[i]).1) >= c.0 by {
                assert(b.contains(b[i]));
                let p = choose|p: int| 0 <= p < s.len() && s[p] == b[i];
                if p > 0 {
                    assert(precedes(s[0], s[p]));
                }
            }
        }
    }
}

/// With room for all, no candidate is left out.
pub proof fn law_top_k_keeps_all(candidates: Seq<Candidate>, k: nat)
    requires
        in_slot_order(candidates),
        k >= 1,
        candidates.len() <= k,
    ensures
        forall|j: int|
            0 <= j < candidates.len() ==> top_k(candidates, k).contains(
                ((#[trigger] candidates[j]).1, score_of_key(candidates[j].0)),
            ),
{
    lemma_kept(candidates, k);
    lemma_kept_all(candidates, k);
    let s = kept_of(candidates, k);
    lemma_best_first(s);
    let b = best_first(s);
    let r = top_k(candidates, k);
    assert forall|j: int| 0 <= j < candidates.len() implies r.contains(
        ((#[trigger] candidates[j]).1, score_of_key(candidates[j].0)),
    ) by {
        let c = candidates[j];
        assert(b.contains(c));
        let i = choose|i: int| 0 <= i < b.len() && b[i] == c;
        assert(r[i] == (c.1, score_of_key(c.0)));
    }
}

proof fn lemma_kept_all(candidates: Seq<Candidate>, k: nat)
    requires
        in_slot_order(candidates),
        k >= 1,
        candidates.len() <= k,
    ensures
        forall|j: int|
            0 <= j < candidates.len() ==> kept_of(candidates, k).contains(
                #[trigger] candidates[j],
            ),
    decreases candidates.len(),
{
    if candidates.len() > 0 {
        let rest = candidates.drop_last();
        let c = candidates.last();
        assert(in_slot_order(rest));
        lemma_kept(rest, k);
        lemma_kept_all(rest, k);
        let s = kept_of(rest, k);
        assert forall|i: int| 0 <= i < s.len() implies (#[trigger] s[i]).1 != c.1 by {
            assert(s.contains(s[i]));
            let j = choose|j: int| 0 <= j < rest.len() && rest[j] == s[i];
            assert(candidates[j].1 < candidates[candidates.len() - 1].1);
        }
        lemma_inserted(s, c);
        assert forall|j: int| 0 <= j < candidates.len() implies kept_of(candidates, k).contains(
            #[trigger] candidates[j],
        ) by {
            if j < rest.len() {
                assert(s.contains(rest[j]));
            }
        }
    }
}

/// Candidates with their slots renumbered.
pub open spec fn renumbered(s: Seq<Candidate>, number: spec_fn(usize) -> usize) -> Seq<Candidate> {
    s.map_values(|c: Candidate| (c.0, number(c.1)))
}

/// A renumbering keeps the order of the slots of `s`.
pub open spec fn keeps_order(s: Seq<Candidate>, number: spec_fn(usize) -> usize) -> bool {
    forall|a: Candidate, b: Candidate|
        s.contains(a) && s.contains(b) ==> (#[trigger] precedes(a, b) <==> precedes(
            (a.0, number(a.1)),
            (b.0, number(b.1)),
        ))
}

proof fn lemma_inserted_renumbered(
    s: Seq<Candidate>,
    c: Candidate,
    number: spec_fn(usize) -> usize,
)
    requires
        forall|i: int|
            0 <= i < s.len() ==> (precedes(#[trigger] s[i], c) <==> precedes(
                (s[i].0, number(s[i].1)),
                (c.0, number(c.1)),
            )),
    ensures
        inserted(renumbered(s, number), (c.0, number(c.1))) == renumbered(
            inserted(s, c),
            number,
        ),
    decreases s.len(),
{
    let m = renumbered(s, number);
    let d = (c.0, number(c.1));
    if s.len() == 0 || precedes(s.last(), c) {
        if s.len() > 0 {
            assert(s[s.len() - 1] == s.last());
            assert(m.last() == (s.last().0, number(s.last().1)));
        }
        assert(m.push(d) =~= renumbered(s.push(c), number));
    } else {
        assert(!precedes(s[s.len() - 1], c));
        let t = s.drop_last();
        assert forall|i: int| 0 <= i < t.len() implies (precedes(#[trigger] t[i], c) <==> precedes(
            (t[i].0, number(t[i].1)),
            (c.0, number(c.1)),
        )) by {
            assert(t[i] == s[i]);
        }
        lemma_inserted_renumbered(t, c, number);
        assert(m.drop_last() =~= renumbered(t, number));
        assert(renumbered(inserted(t, c), number).push(m.last()) =~= renumbered(
            inserted(t, c).push(s.last()),
            number,
        ));
    }
}

proof fn lemma_kept_renumbered(
    candidates: Seq<Candidate>,
    k: nat,
    number: spec_fn(usize) -> usize,
)
    requires
        in_slot_order(candidates),
        k >= 1,
        keeps_order(candidates, number),
    ensures
        kept_of(renumbered(candidates, number), k) == renumbered(kept_of(candidates, k), number),
    decreases candidates.len(),
{
    let m = renumbered(candidates, number);
    if candidates.len() == 0 {
        assert(m =~= Seq::empty());
        assert(renumbered(kept_of(candidates, k), number) =~= Seq::empty());
    } else {
        let rest = candidates.drop_last();
        let c = candidates.last();
        assert forall|a: Candidate| rest.contains(a) implies candidates.contains(a) by {
            let j = choose|j: int| 0 <= j < rest.len() && rest[j] == a;
            assert(candidates[j] == a);
        }
        lemma_kept_renumbered(rest, k, number);
        lemma_kept(rest, k);
        let s = kept_of(rest, k);
        assert(m.drop_last() =~= renumbered(rest, number));
        assert(candidates[candidates.len() - 1] == c);
        assert(candidates.contains(c));
        assert forall|i: int| 0 <= i < s.len() implies (precedes(#[trigger] s[i], c) <==> precedes(
            (s[i].0, number(s[i].1)),
            (c.0, number(c.1)),
        )) by {
            assert(s.contains(s[i]));
            assert(rest.contains(s[i]));
        }
        lemma_inserted_renumbered(s, c, number);
        if s.len() >= k && c.0 > s[0].0 {
            assert(renumbered(inserted(s, c), number).drop_first() =~= renumbered(
                inserted(s, c).drop_first(),
                number,
            ));
        }
    }
}

proof fn lemma_last_run_renumbered(s: Seq<Candidate>, i: int, number: spec_fn(usize) -> usize)
    requires
        0 <= i < s.len(),
    ensures
        last_run(renumbered(s, number), i) == last_run(s, i),
    decreases i,
{
    if i > 0 && s[i - 1].0 == s.last().0 {
        lemma_last_run_renumbered(s, i - 1, number);
    }
}

proof fn lemma_best_first_renumbered(s: Seq<Candidate>, number: spec_fn(usize) -> usize)
    ensures
        best_first(renumbered(s, number)) == renumbered(best_first(s), number),
    decreases s.len(),
{
    let m = renumbered(s, number);
    if s.len() == 0 {
        assert(m =~= renumbered(best_first(s), number));
    } else {
        lemma_last_run_renumbered(s, s.len() - 1, number);
        lemma_last_run(s, s.len() - 1);
        let g = last_run(s, s.len() - 1);
        lemma_best_first_renumbered(s.take(g), number);
        assert(m.take(g) =~= renumbered(s.take(g), number));
        assert(m.skip(g) + renumbered(best_first(s.take(g)), number) =~= renumbered(
            s.skip(g) + best_first(s.take(g)),
            number,
        ));
    }
}

/// Renumbering the slots in a way that keeps their order changes nothing but
/// the numbers in the answer.
pub proof fn law_top_k_renumbered(
    candidates: Seq<Candidate>,
    k: nat,
    number: spec_fn(usize) -> usize,
)
    requires
        in_slot_order(candidates),
        k >= 1,
        keeps_order(candidates, number),
    ensures
        top_k(renumbered(candidates, number), k) == top_k(candidates, k).map_values(
            |h: (usize, u32)| (number(h.0), h.1),
        ),
{
    lemma_kept_renumbered(candidates, k, number);
    lemma_best_first_renumbered(kept_of(candidates, k), number);
    assert(top_k(renumbered(candidates, number), k) =~= top_k(candidates, k).map_values(
        |h: (usize, u32)| (number(h.0), h.1),
    ));
}

/// One more candidate, where as many are kept already as may be. Unless its key is greater
/// than the least kept one, nothing changes. Otherwise it enters, and of the kept ones with
/// the least key the one with the lowest slot leaves.
pub proof fn law_top_k_one_more(candidates: Seq<Candidate>, c: Candidate, k: nat)
    requires
        in_slot_order(candidates.push(c)),
        1 <= k <= candidates.len(),
    ensures
        ({
            let r = top_k(candidates, k);
            let s = top_k(candidates.push(c), k);
            let least = order_key(r[k - 1].1);
            &&& r.len() == k
            &&& c.0 <= least ==> s == r
            &&& c.0 > least ==> s.contains((c.1, score_of_key(c.0)))
            &&& c.0 > least ==> forall|i: int|
                0 <= i < k ==> (s.contains(#[trigger] r[i]) <==> !(order_key(r[i].1) == least
                    && forall|j: int|
                    0 <= j < k && order_key((#[trigger] r[j]).1) == least ==> r[i].0 <= r[j].0))
        }),
{
    let more = candidates.push(c);
    assert(more.drop_last() =~= candidates);
    assert forall|i: int, j: int| 0 <= i < j < candidates.len() implies (#[trigger] candidates[i]).1
        < (#[trigger] candidates[j]).1 by {
        assert(more[i].1 < more[j].1);
    }
    lemma_kept(candidates, k);
    lemma_kept(more, k);
    let a = kept_of(candidates, k);
    let d = kept_of(more, k);
    lemma_best_first(a);
    lemma_best_first(d);
    let b = best_first(a);
    let r = top_k(candidates, k);
    let s = top_k(more, k);
    assert(r.len() == k);
    let last = b[k - 1];
    assert(b.contains(last));
    assert(a.contains(last));
    let low = a[0];
    assert(a.contains(low));
    assert(b.contains(low));
    let p = choose|p: int| 0 <= p < b.len() && b[p] == low;
    let q = choose|q: int| 0 <= q < a.len() && a[q] == last;
    if q > 0 {
        assert(precedes(a[0], a[q]));
    }
    assert(last.0 == low.0);
    law_key_is_monotone(r[k - 1].1, 0);
    assert(order_key(r[k - 1].1) == low.0) by {
        assert(order_key(score_of_key(last.0)) == last.0) by {
            law_key_is_monotone(last.0, 0);
        }
    }
    if c.0 > low.0 {
        assert forall|i: int| 0 <= i < a.len() implies (#[trigger] a[i]).1 != c.1 by {
            assert(a.contains(a[i]));
            let j = choose|j: int| 0 <= j < candidates.len() && candidates[j] == a[i];
            assert(more[j].1 < more[more.len() - 1].1);
        }
        lemma_inserted(a, c);
        let u = inserted(a, c);
        assert(u[0] == low) by {
            assert(u.contains(u[0]));
            assert(u.contains(low));
            let m = choose|m: int| 0 <= m < u.len() && u[m] == low;
            if m > 0 {
                assert(precedes(u[0], u[m]));
                if u[0] != c {
                    let t = choose|t: int| 0 <= t < a.len() && a[t] == u[0];
                    if t > 0 {
                        assert(precedes(a[0], a[t]));
                    }
                }
            }
        }
        assert(d == u.drop_first());
        assert forall|x: Candidate| #[trigger] d.contains(x) <==> u.contains(x) && x != low by {
            if d.contains(x) {
                let m = choose|m: int| 0 <= m < d.len() && d[m] == x;
                assert(u[m + 1] == x);
                assert(precedes(u[0], u[m + 1]));
            }
            if u.contains(x) && x != low {
                lemma_stays(u, x);
            }
        }
        assert(u.contains(c));
        assert(d.contains(c));
        lemma_hit(d, c);
        assert forall|i: int| 0 <= i < k implies (s.contains(#[trigger] r[i]) <==> !(order_key(
            r[i].1,
        ) == low.0 && forall|j: int|
            0 <= j < k && order_key((#[trigger] r[j]).1) == low.0 ==> r[i].0 <= r[j].0)) by {
            let x = b[i];
            assert(b.contains(x));
            assert(a.contains(x));
            law_key_is_monotone(x.0, 0);
            assert(order_key(r[i].1) == x.0);
            if x == low {
                if s.contains(r[i]) {
                    let bd = best_first(d);
                    let m = choose|m: int| 0 <= m < s.len() && s[m] == r[i];
                    law_key_is_monotone(bd[m].0, 0);
                    law_key_is_monotone(x.0, 0);
                    assert(bd[m] == low);
                    assert(bd.contains(low));
                    assert(false);
                }
                assert forall|j: int| 0 <= j < k && order_key((#[trigger] r[j]).1) == low.0 implies r[i].0
                    <= r[j].0 by {
                    let y = b[j];
                    law_key_is_monotone(y.0, 0);
                    assert(b.contains(y));
                    let t = choose|t: int| 0 <= t < a.len() && a[t] == y;
                    if t > 0 {
                        assert(precedes(a[0], a[t]));
                    }
                }
            } else {
                assert(d.contains(x));
                lemma_hit(d, x);
                if x.0 == low.0 {
                    let t = choose|t: int| 0 <= t < a.len() && a[t] == x;
                    assert(precedes(a[0], a[t]));
                    law_key_is_monotone(low.0, 0);
                    assert(order_key(r[p].1) == low.0);
                    assert(r[p].0 < r[i].0);
                }
            }
        }
    }
}

/// What is kept is in the answer.
proof fn lemma_hit(s: Seq<Candidate>, x: Candidate)
    requires
        ascending(s),
        s.contains(x),
    ensures
        hits(best_first(s)).contains((x.1, score_of_key(x.0))),
{
    lemma_best_first(s);
    let b = best_first(s);
    assert(b.contains(x));
    let i = choose|i: int| 0 <= i < b.len() && b[i] == x;
    assert(hits(b)[i] == (x.1, score_of_key(x.0)));
}

} // verus!
