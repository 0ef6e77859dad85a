//! Laws of what a search returns, stated of its hits alone: how many there are,
//! which they are, and in what order they come.

use vstd::prelude::*;

use crate::answers::{
    compacted, law_full_search_finds_all, law_search_finds_the_best, lemma_live_positions,
    live_positions,
};
use crate::arith::{Meaning, Op};
use crate::lloyd::centroid_table;
use crate::score::raw_score;
use crate::state::{
    answer, candidates, live_slots, query_rotation, removed_slots, slot_score, IndexState, Slot,
};
use crate::store::keyed_hits;
use crate::topk::{law_key_is_monotone, law_top_k_one_more, order_key};

verus! {

/// The places of the slots that are alive.
pub open spec fn alive_places(slots: Seq<Slot>) -> Set<int> {
    Set::new(|i: int| 0 <= i < slots.len() && slots[i].alive)
}

/// An index counts as live the slots that are alive, and as removed the others.
pub proof fn law_live_slots_are_counted(slots: Seq<Slot>)
    ensures
        alive_places(slots).finite(),
        live_slots(slots).len() == alive_places(slots).len(),
        removed_slots(slots) == slots.len() - alive_places(slots).len(),
    decreases slots.len(),
{
    if slots.len() == 0 {
        assert(alive_places(slots) =~= Set::empty());
    } else {
        let rest = slots.drop_last();
        law_live_slots_are_counted(rest);
        let last = slots.len() - 1;
        assert forall|i: int| alive_places(slots).contains(i) <==> alive_places(rest).contains(i)
            || (i == last && slots[last].alive) by {
            if 0 <= i < last {
                assert(rest[i] == slots[i]);
            }
        }
        if slots[last].alive {
            assert(alive_places(slots) =~= alive_places(rest).insert(last));
        } else {
            assert(alive_places(slots) =~= alive_places(rest));
        }
    }
}

/// How many hits a search has: as many as it is asked for, or as many as are
/// alive where those are fewer. A search for none is one for a single hit.
pub proof fn law_search_count(f: Meaning, st: IndexState, q: Seq<u32>, k: nat)
    requires
        st.valid(),
    ensures
        1 <= k <= alive_places(st.slots).len() ==> answer(f, st, q, k).len() == k,
        1 <= k && alive_places(st.slots).len() < k ==> answer(f, st, q, k).len() == alive_places(
            st.slots,
        ).len(),
        k == 0 && alive_places(st.slots).len() > 0 ==> answer(f, st, q, k).len() == 1,
        alive_places(st.slots).len() == 0 ==> answer(f, st, q, k).len() == 0,
{
    law_live_slots_are_counted(st.slots);
    law_search_finds_the_best(f, st, q, k);
}

/// The place of a pattern in the order of numbers: its magnitude, with its sign.
pub open spec fn signed_magnitude(x: u32) -> int {
    if x < 0x8000_0000 {
        x as int
    } else {
        0x8000_0000 - x
    }
}

/// Hit `a` comes before hit `b`: its score is higher, or the same and its slot is
/// the lower one. Zero is higher than minus zero.
pub open spec fn comes_before(a: (usize, u32), b: (usize, u32)) -> bool {
    ||| signed_magnitude(a.1) > signed_magnitude(b.1)
    ||| a.1 == 0 && b.1 == 0x8000_0000
    ||| a.1 == b.1 && a.0 < b.0
}

/// The hits of a search are live slots, each once and with its own score, the
/// best first.
pub proof fn law_hits_are_in_order(f: Meaning, st: IndexState, q: Seq<u32>, k: nat, i: int, j: int)
    requires
        st.valid(),
        0 <= i < answer(f, st, q, k).len(),
        0 <= j < answer(f, st, q, k).len(),
    ensures
        ({
            let r = answer(f, st, q, k);
            let s = st.slots[r[i].0 as int];
            let rot = query_rotation(f, st.signs(), st.working_dim, q);
            &&& r[i].0 < st.slots.len()
            &&& s.alive
            &&& r[i].1 == slot_score(f, st, s, rot, centroid_table(st.bits))
            &&& i < j ==> comes_before(r[i], r[j])
            &&& i != j ==> r[i].0 != r[j].0
        }),
{
    law_search_finds_the_best(f, st, q, k);
    let r = answer(f, st, q, k);
    if i < j {
        assert(order_key(r[i].1) > order_key(r[j].1) || (r[i].1 == r[j].1 && r[i].0 < r[j].0));
    } else if j < i {
        assert(order_key(r[j].1) > order_key(r[i].1) || (r[j].1 == r[i].1 && r[j].0 < r[i].0));
        assert(r[j].1 == slot_score(
            f,
            st,
            st.slots[r[j].0 as int],
            query_rotation(f, st.signs(), st.working_dim, q),
            centroid_table(st.bits),
        ));
    }
}

/// A live slot that is not among the hits scores no higher than any of them.
pub proof fn law_no_better_slot_is_left_out(
    f: Meaning,
    st: IndexState,
    q: Seq<u32>,
    k: nat,
    s: int,
    i: int,
)
    requires
        st.valid(),
        0 <= s < st.slots.len(),
        st.slots[s].alive,
        forall|j: int|
            0 <= j < answer(f, st, q, k).len() ==> (#[trigger] answer(f, st, q, k)[j]).0 != s,
        0 <= i < answer(f, st, q, k).len(),
    ensures
        signed_magnitude(answer(f, st, q, k)[i].1) >= signed_magnitude(
            slot_score(
                f,
                st,
                st.slots[s],
                query_rotation(f, st.signs(), st.working_dim, q),
                centroid_table(st.bits),
            ),
        ),
{
    law_search_finds_the_best(f, st, q, k);
    let r = answer(f, st, q, k);
    let rot = query_rotation(f, st.signs(), st.working_dim, q);
    let score = slot_score(f, st, st.slots[s], rot, centroid_table(st.bits));
    assert(!r.contains((s as usize, score)));
    assert(order_key(r[i].1) >= order_key(score));
}

/// A search for at least as many as are alive hits every live slot.
pub proof fn law_wide_search_hits_every_live_slot(
    f: Meaning,
    st: IndexState,
    q: Seq<u32>,
    k: nat,
    s: int,
) -> (i: int)
    requires
        st.valid(),
        alive_places(st.slots).len() <= k,
        0 <= s < st.slots.len(),
        st.slots[s].alive,
    ensures
        0 <= i < answer(f, st, q, k).len(),
        answer(f, st, q, k)[i].0 == s,
{
    law_live_slots_are_counted(st.slots);
    law_full_search_finds_all(f, st, q, k, s);
    let r = answer(f, st, q, k);
    let rot = query_rotation(f, st.signs(), st.working_dim, q);
    let hit = (s as usize, slot_score(f, st, st.slots[s], rot, centroid_table(st.bits)));
    choose|i: int| 0 <= i < r.len() && r[i] == hit
}

/// The score of a slot: each pass's unscaled score times the pass's scale, added
/// where there are two passes.
pub proof fn law_score_is_scaled(
    f: Meaning,
    st: IndexState,
    s: Slot,
    rot: Seq<u32>,
    lut: Seq<u32>,
)
    ensures
        !st.residual ==> slot_score(f, st, s, rot, lut) == f(
            Op::Mul,
            raw_score(f, s.codes, st.bits, rot, lut),
            s.scale,
        ),
        st.residual ==> slot_score(f, st, s, rot, lut) == f(
            Op::Add,
            f(Op::Mul, raw_score(f, s.codes, st.bits, rot, lut), s.scale),
            f(Op::Mul, raw_score(f, s.codes2, st.bits, rot, lut), s.scale2),
        ),
{
}

/// No hit with a key is lost in a keyed search, and none is made up: the result
/// tells, for the hits at the places `at`, which are all whose slot has a key, in
/// order, the key of the slot and the score of the hit.
pub proof fn law_keyed_hits(slots: Seq<Slot>, found: Seq<(usize, u32)>) -> (at: Seq<int>)
    requires
        forall|i: int| 0 <= i < found.len() ==> (#[trigger] found[i]).0 < slots.len(),
    ensures
        keyed_hits(slots, found).len() == at.len(),
        forall|j: int|
            0 <= j < at.len() ==> 0 <= #[trigger] at[j] < found.len() && keyed_hits(
                slots,
                found,
            )[j].1 == found[at[j]].1 && Some(keyed_hits(slots, found)[j].0)
                == slots[found[at[j]].0 as int].key,
        forall|i: int, j: int| 0 <= i < j < at.len() ==> #[trigger] at[i] < #[trigger] at[j],
        forall|i: int|
            0 <= i < found.len() && slots[(#[trigger] found[i]).0 as int].key is Some
                ==> at.contains(i),
    decreases found.len(),
{
    if found.len() == 0 {
        Seq::empty()
    } else {
        let rest = found.drop_last();
        assert forall|i: int| 0 <= i < rest.len() implies (#[trigger] rest[i]).0 < slots.len() by {
            assert(rest[i] == found[i]);
        }
        let before = law_keyed_hits(slots, rest);
        let last = found.len() - 1;
        let keyed = slots[found[last].0 as int].key is Some;
        let at = if keyed {
            before.push(last)
        } else {
            before
        };
        let r = keyed_hits(slots, found);
        let rr = keyed_hits(slots, rest);
        assert(found.last() == found[last]);
        assert forall|j: int| 0 <= j < at.len() implies 0 <= #[trigger] at[j] < found.len()
            && r[j].1 == found[at[j]].1 && Some(r[j].0) == slots[found[at[j]].0 as int].key by {
            if j < before.len() {
                assert(at[j] == before[j]);
                assert(rest[before[j]] == found[before[j]]);
                assert(r[j] == rr[j]);
            }
        }
        assert forall|i: int, j: int| 0 <= i < j < at.len() implies #[trigger] at[i]
            < #[trigger] at[j] by {
            assert(at[i] == before[i]);
            if j < before.len() {
                assert(at[j] == before[j]);
            }
        }
        assert forall|i: int|
            0 <= i < found.len() && slots[(#[trigger] found[i]).0 as int].key is Some implies at.contains(
            i,
        ) by {
            if i < last {
                assert(rest[i] == found[i]);
                assert(before.contains(i));
                let j = choose|j: int| 0 <= j < before.len() && before[j] == i;
                assert(at[j] == i);
            } else {
                assert(at[at.len() - 1] == i);
            }
        }
        at
    }
}

/// A keyed search tells the keys and scores of those hits of the search whose slot
/// has a key, all of them and in order, whatever their scores: the hits at the
/// places `at`. Where every live slot has a key, that is every hit.
pub proof fn law_keyed_search(f: Meaning, st: IndexState, q: Seq<u32>, k: nat) -> (at: Seq<int>)
    requires
        st.valid(),
    ensures
        ({
            let hits = answer(f, st, q, k);
            let r = keyed_hits(st.slots, hits);
            &&& r.len() == at.len()
            &&& forall|j: int|
                0 <= j < at.len() ==> 0 <= #[trigger] at[j] < hits.len() && r[j].1
                    == hits[at[j]].1 && Some(r[j].0) == st.slots[hits[at[j]].0 as int].key
            &&& forall|i: int, j: int| 0 <= i < j < at.len() ==> #[trigger] at[i] < #[trigger] at[j]
            &&& forall|i: int|
                0 <= i < hits.len() && st.slots[(#[trigger] hits[i]).0 as int].key is Some
                    ==> at.contains(i)
            &&& (forall|s: int|
                0 <= s < st.slots.len() && (#[trigger] st.slots[s]).alive ==> st.slots[s].key is Some)
                ==> r.len() == hits.len() && forall|i: int|
                0 <= i < hits.len() ==> (#[trigger] r[i]).1 == hits[i].1 && Some(r[i].0)
                    == st.slots[hits[i].0 as int].key
        }),
{
    law_search_finds_the_best(f, st, q, k);
    let hits = answer(f, st, q, k);
    let at = law_keyed_hits(st.slots, hits);
    if forall|s: int|
        0 <= s < st.slots.len() && (#[trigger] st.slots[s]).alive ==> st.slots[s].key is Some {
        assert forall|i: int| 0 <= i < hits.len() implies at.contains(i) by {
            assert(st.slots[hits[i].0 as int].alive);
        }
        lemma_all_places(at, hits.len());
    }
    at
}

/// Increasing places that hold every place below `n` are these places.
proof fn lemma_all_places(at: Seq<int>, n: nat)
    requires
        forall|j: int| 0 <= j < at.len() ==> 0 <= #[trigger] at[j] < n,
        forall|i: int, j: int| 0 <= i < j < at.len() ==> #[trigger] at[i] < #[trigger] at[j],
        forall|i: int| 0 <= i < n ==> at.contains(i),
    ensures
        at.len() == n,
        forall|j: int| 0 <= j < n ==> #[trigger] at[j] == j,
    decreases n,
{
    if n == 0 {
        if at.len() > 0 {
            assert(0 <= at[0] < n);
        }
    } else {
        assert(at.contains(n - 1));
        let p = choose|p: int| 0 <= p < at.len() && at[p] == n - 1;
        if p < at.len() - 1 {
            assert(at[p] < at[p + 1]);
        }
        let rest = at.drop_last();
        assert forall|i: int| 0 <= i < n - 1 implies rest.contains(i) by {
            assert(at.contains(i));
            let j = choose|j: int| 0 <= j < at.len() && at[j] == i;
            assert(rest[j] == i);
        }
        assert forall|j: int| 0 <= j < rest.len() implies 0 <= #[trigger] rest[j] < n - 1 by {
            assert(at[j] < at[at.len() - 1]);
        }
        assert forall|i: int, j: int| 0 <= i < j < rest.len() implies #[trigger] rest[i]
            < #[trigger] rest[j] by {
            assert(at[i] < at[j]);
        }
        lemma_all_places(rest, (n - 1) as nat);
        assert forall|j: int| 0 <= j < n implies #[trigger] at[j] == j by {
            if j < n - 1 {
                assert(rest[j] == j);
            }
        }
    }
}

/// A compaction keeps the live slots, all of them, unchanged and in order: those
/// at the places `at`.
pub proof fn law_compaction_keeps_live_slots(st: IndexState) -> (at: Seq<usize>)
    requires
        st.slots.len() <= usize::MAX,
    ensures
        ({
            let r = compacted(st);
            &&& r.dim == st.dim && r.working_dim == st.working_dim && r.bits == st.bits
                && r.residual == st.residual && r.seed == st.seed
            &&& r.slots.len() == at.len()
            &&& forall|j: int|
                0 <= j < at.len() ==> #[trigger] at[j] < st.slots.len() && r.slots[j]
                    == st.slots[at[j] as int] && st.slots[at[j] as int].alive
            &&& forall|i: int, j: int| 0 <= i < j < at.len() ==> #[trigger] at[i] < #[trigger] at[j]
            &&& forall|s: int|
                0 <= s < st.slots.len() && (#[trigger] st.slots[s]).alive ==> at.contains(
                    s as usize,
                )
        }),
{
    lemma_live_positions(st.slots);
    let at = live_positions(st.slots);
    let r = live_slots(st.slots);
    assert forall|j: int| 0 <= j < at.len() implies #[trigger] at[j] < st.slots.len() && r[j]
        == st.slots[at[j] as int] && st.slots[at[j] as int].alive by {
        assert(r[j].alive);
    }
    at
}

proof fn lemma_candidates_before(
    f: Meaning,
    st: IndexState,
    more: IndexState,
    rot: Seq<u32>,
    lut: Seq<u32>,
    n: nat,
)
    requires
        st.bits == more.bits,
        st.residual == more.residual,
        n <= st.slots.len() <= more.slots.len(),
        forall|i: int| 0 <= i < st.slots.len() ==> st.slots[i] == #[trigger] more.slots[i],
    ensures
        candidates(f, st, rot, lut, n) == candidates(f, more, rot, lut, n),
    decreases n,
{
    if n > 0 {
        lemma_candidates_before(f, st, more, rot, lut, (n - 1) as nat);
        assert(st.slots[n - 1] == more.slots[n - 1]);
    }
}

/// One more live slot, where a search has as many hits as it is asked for. If its score is
/// not higher than that of the last hit, the answer stays the same. Otherwise it is a hit,
/// and of the hits with the last one's score the one with the lowest slot is none any more;
/// the others are.
pub proof fn law_one_more_slot(f: Meaning, st: IndexState, s: Slot, q: Seq<u32>, k: nat)
    requires
        st.valid(),
        st.slots.len() < usize::MAX,
        s.alive,
        1 <= k <= alive_places(st.slots).len(),
    ensures
        ({
            let r = answer(f, st, q, k);
            let after = answer(f, st.with_slots(st.slots.push(s)), q, k);
            let rot = query_rotation(f, st.signs(), st.working_dim, q);
            let score = slot_score(f, st, s, rot, centroid_table(st.bits));
            let last = r[k - 1].1;
            let enters = signed_magnitude(score) > signed_magnitude(last) || (score == 0 && last
                == 0x8000_0000);
            &&& r.len() == k
            &&& !enters ==> after == r
            &&& enters ==> after.contains((st.slots.len() as usize, score))
            &&& enters ==> forall|i: int|
                0 <= i < k ==> (after.contains(#[trigger] r[i]) <==> !(r[i].1 == last && forall|
                    j: int,
                |
                    0 <= j < k && (#[trigger] r[j]).1 == last ==> r[i].0 <= r[j].0))
        }),
{
    let more = st.with_slots(st.slots.push(s));
    let n = st.slots.len();
    let rot = query_rotation(f, st.signs(), st.working_dim, q);
    let lut = centroid_table(st.bits);
    let score = slot_score(f, st, s, rot, lut);
    law_live_slots_are_counted(st.slots);
    law_live_slots_are_counted(more.slots);
    assert(more.slots.drop_last() =~= st.slots);
    assert(live_slots(more.slots) == live_slots(st.slots).push(s));
    lemma_candidates_before(f, st, more, rot, lut, n);
    let c = candidates(f, st, rot, lut, n);
    let x = (order_key(score), n as usize);
    assert(more.slots[n as int] == s);
    assert(candidates(f, more, rot, lut, n + 1) == c.push(x));
    lemma_candidate_slots(f, st, rot, lut, n);
    assert forall|i: int, j: int| 0 <= i < j < c.push(x).len() implies (#[trigger] c.push(x)[i]).1
        < (#[trigger] c.push(x)[j]).1 by {
        assert(c.push(x)[i] == c[i]);
        if j < c.len() {
            assert(c[i].1 < c[j].1);
        }
    }
    law_top_k_one_more(c, x, k);
    let r = answer(f, st, q, k);
    let last = r[k - 1].1;
    law_key_is_monotone(score, last);
    assert forall|i: int| 0 <= i < k implies (order_key((#[trigger] r[i]).1) == order_key(last)
        <==> r[i].1 == last) by {
        law_key_is_monotone(r[i].1, last);
    }
}

/// The candidates come in slot order, and are as many as are alive.
proof fn lemma_candidate_slots(f: Meaning, st: IndexState, rot: Seq<u32>, lut: Seq<u32>, n: nat)
    requires
        n <= st.slots.len() <= usize::MAX,
    ensures
        forall|i: int|
            0 <= i < candidates(f, st, rot, lut, n).len() ==> (#[trigger] candidates(
                f,
                st,
                rot,
                lut,
                n,
            )[i]).1 < n,
        forall|i: int, j: int|
            0 <= i < j < candidates(f, st, rot, lut, n).len() ==> (#[trigger] candidates(
                f,
                st,
                rot,
                lut,
                n,
            )[i]).1 < (#[trigger] candidates(f, st, rot, lut, n)[j]).1,
        candidates(f, st, rot, lut, n).len() == live_slots(st.slots.take(n as int)).len(),
        n == st.slots.len() ==> candidates(f, st, rot, lut, n).len() == live_slots(st.slots).len(),
    decreases n,
{
    if n > 0 {
        lemma_candidate_slots(f, st, rot, lut, (n - 1) as nat);
        let s = st.slots.take(n as int);
        assert(s.drop_last() =~= st.slots.take(n - 1));
        assert(s.last() == st.slots[n - 1]);
    }
    assert(st.slots.take(st.slots.len() as int) =~= st.slots);
}

} // verus!
