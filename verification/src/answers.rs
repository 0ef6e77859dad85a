//! Laws of searching: what an answer holds, and what does not change it.

use vstd::prelude::*;

use crate::arith::Meaning;
use crate::lloyd::centroid_table;
use crate::state::{
    answer, candidates, live_slots, query_rotation, slot_score, wanted, IndexState, Slot,
};
use crate::store::{keyed_hits, lemma_live_bound, lemma_same_live};
use crate::topk::{
    in_slot_order, law_key_is_monotone, law_top_k_is_best, law_top_k_keeps_all,
    law_top_k_renumbered, order_key, precedes, renumbered, score_of_key, top_k, Candidate,
};

verus! {

/// The slot indices of the live slots, in order.
pub open spec fn live_positions(slots: Seq<Slot>) -> Seq<usize>
    decreases slots.len(),
{
    if slots.len() == 0 {
        Seq::empty()
    } else if slots.last().alive {
        live_positions(slots.drop_last()).push((slots.len() - 1) as usize)
    } else {
        live_positions(slots.drop_last())
    }
}

/// The live slots are those at the live positions, which increase.
pub proof fn lemma_live_positions(slots: Seq<Slot>)
    requires
        slots.len() <= usize::MAX,
    ensures
        live_positions(slots).len() == live_slots(slots).len(),
        forall|j: int|
            #![trigger live_positions(slots)[j]]
            #![trigger live_slots(slots)[j]]
            0 <= j < live_slots(slots).len() ==> {
                &&& live_positions(slots)[j] < slots.len()
                &&& slots[live_positions(slots)[j] as int] == live_slots(slots)[j]
                &&& live_slots(slots)[j].alive
            },
        forall|i: int, j: int|
            0 <= i < j < live_slots(slots).len() ==> #[trigger] live_positions(slots)[i]
                < #[trigger] live_positions(slots)[j],
        forall|s: int|
            0 <= s < slots.len() && (#[trigger] slots[s]).alive ==> live_positions(slots).contains(
                s as usize,
            ),
    decreases slots.len(),
{
    if slots.len() > 0 {
        let rest = slots.drop_last();
        lemma_live_positions(rest);
        let p = live_positions(slots);
        let rp = live_positions(rest);
        let v = live_slots(slots);
        let rv = live_slots(rest);
        assert forall|j: int|
            #![trigger p[j]]
            #![trigger v[j]]
            0 <= j < v.len() implies p[j] < slots.len() && slots[p[j] as int] == v[j]
            && v[j].alive by {
            if j < rv.len() {
                assert(rp[j] < rest.len());
                assert(rest[rp[j] as int] == rv[j]);
                assert(rest[rp[j] as int] == slots[rp[j] as int]);
            }
        }
        assert forall|i: int, j: int| 0 <= i < j < v.len() implies #[trigger] p[i]
            < #[trigger] p[j] by {
            assert(rp[i] < rest.len());
            if j < rv.len() {
                assert(rp[i] < rp[j]);
            }
        }
        assert forall|s: int|
            0 <= s < slots.len() && (#[trigger] slots[s]).alive implies p.contains(s as usize) by {
            if s < rest.len() {
                assert(rest[s] == slots[s]);
                assert(rp.contains(s as usize));
                let j = choose|j: int| 0 <= j < rp.len() && rp[j] == s as usize;
                assert(p[j] == s as usize);
            } else {
                assert(p[p.len() - 1] == s as usize);
            }
        }
    }
}

/// The candidates of a search are the live slots, each with its score.
proof fn lemma_candidates(f: Meaning, st: IndexState, rot: Seq<u32>, lut: Seq<u32>, m: int)
    requires
        0 <= m <= st.slots.len() <= usize::MAX,
    ensures
        ({
            let c = candidates(f, st, rot, lut, m as nat);
            let live = live_slots(st.slots.take(m));
            let at = live_positions(st.slots.take(m));
            &&& c.len() == live.len()
            &&& at.len() == live.len()
            &&& forall|j: int|
                0 <= j < c.len() ==> #[trigger] c[j] == (
                    order_key(slot_score(f, st, live[j], rot, lut)),
                    at[j],
                )
        }),
    decreases m,
{
    if m > 0 {
        lemma_candidates(f, st, rot, lut, m - 1);
        let s = st.slots.take(m);
        assert(s.drop_last() =~= st.slots.take(m - 1));
        assert(s.last() == st.slots[m - 1]);
    }
}

/// The candidates of a whole index.
proof fn lemma_all_candidates(f: Meaning, st: IndexState, rot: Seq<u32>, lut: Seq<u32>)
    requires
        st.slots.len() <= usize::MAX,
    ensures
        ({
            let c = candidates(f, st, rot, lut, st.slots.len());
            let live = live_slots(st.slots);
            let at = live_positions(st.slots);
            &&& c.len() == live.len()
            &&& at.len() == live.len()
            &&& forall|j: int|
                0 <= j < c.len() ==> #[trigger] c[j] == (
                    order_key(slot_score(f, st, live[j], rot, lut)),
                    at[j],
                )
            &&& in_slot_order(c)
        }),
{
    lemma_candidates(f, st, rot, lut, st.slots.len() as int);
    assert(st.slots.take(st.slots.len() as int) =~= st.slots);
    lemma_live_positions(st.slots);
}

/// A search finds the best live vectors: as many as it is after or as there
/// are; each with its own score; best first, and the lower slot first among
/// equal scores; and no live vector left out scores higher than one found.
pub proof fn law_search_finds_the_best(f: Meaning, st: IndexState, q: Seq<u32>, k: nat)
    requires
        st.valid(),
    ensures
        ({
            let r = answer(f, st, q, k);
            let rot = query_rotation(f, st.signs(), st.working_dim, q);
            let lut = centroid_table(st.bits);
            let live = live_slots(st.slots).len();
            &&& r.len() == if live < wanted(k, live) {
                live
            } else {
                wanted(k, live)
            }
            &&& forall|i: int|
                0 <= i < r.len() ==> {
                    &&& (#[trigger] r[i]).0 < st.slots.len()
                    &&& st.slots[r[i].0 as int].alive
                    &&& r[i].1 == slot_score(f, st, st.slots[r[i].0 as int], rot, lut)
                }
            &&& forall|i: int, j: int|
                0 <= i < j < r.len() ==> order_key((#[trigger] r[i]).1) > order_key(
                    (#[trigger] r[j]).1,
                ) || (r[i].1 == r[j].1 && r[i].0 < r[j].0)
            &&& forall|s: int, i: int|
                0 <= s < st.slots.len() && (#[trigger] st.slots[s]).alive && 0 <= i < r.len()
                    && !r.contains((s as usize, slot_score(f, st, st.slots[s], rot, lut)))
                    ==> order_key((#[trigger] r[i]).1) >= order_key(
                    slot_score(f, st, st.slots[s], rot, lut),
                )
        }),
{
    let r = answer(f, st, q, k);
    let rot = query_rotation(f, st.signs(), st.working_dim, q);
    let lut = centroid_table(st.bits);
    let c = candidates(f, st, rot, lut, st.slots.len());
    let live = live_slots(st.slots);
    let at = live_positions(st.slots);
    lemma_all_candidates(f, st, rot, lut);
    lemma_live_positions(st.slots);
    law_top_k_is_best(c, wanted(k, live.len()));
    assert forall|i: int| 0 <= i < r.len() implies (#[trigger] r[i]).0 < st.slots.len()
        && st.slots[r[i].0 as int].alive && r[i].1 == slot_score(
        f,
        st,
        st.slots[r[i].0 as int],
        rot,
        lut,
    ) by {
        let x: Candidate = (order_key(r[i].1), r[i].0);
        assert(c.contains(x));
        let j = choose|j: int| 0 <= j < c.len() && c[j] == x;
        assert(at[j] < st.slots.len());
        law_key_is_monotone(r[i].1, slot_score(f, st, live[j], rot, lut));
    }
    assert forall|s: int, i: int|
        0 <= s < st.slots.len() && (#[trigger] st.slots[s]).alive && 0 <= i < r.len()
            && !r.contains((s as usize, slot_score(f, st, st.slots[s], rot, lut))) implies order_key(
        (#[trigger] r[i]).1,
    ) >= order_key(slot_score(f, st, st.slots[s], rot, lut)) by {
        assert(at.contains(s as usize));
        let j = choose|j: int| 0 <= j < at.len() && at[j] == s as usize;
        assert(c[j].1 == s as usize);
        let score = slot_score(f, st, st.slots[s], rot, lut);
        assert(score_of_key(order_key(score)) == score);
    }
}

/// A search for as many as are alive finds every live vector.
pub proof fn law_full_search_finds_all(f: Meaning, st: IndexState, q: Seq<u32>, k: nat, s: int)
    requires
        st.valid(),
        k >= live_slots(st.slots).len(),
        0 <= s < st.slots.len(),
        st.slots[s].alive,
    ensures
        answer(f, st, q, k).contains(
            (
                s as usize,
                slot_score(
                    f,
                    st,
                    st.slots[s],
                    query_rotation(f, st.signs(), st.working_dim, q),
                    centroid_table(st.bits),
                ),
            ),
        ),
{
    let rot = query_rotation(f, st.signs(), st.working_dim, q);
    let lut = centroid_table(st.bits);
    let c = candidates(f, st, rot, lut, st.slots.len());
    let at = live_positions(st.slots);
    lemma_all_candidates(f, st, rot, lut);
    lemma_live_positions(st.slots);
    assert(at.contains(s as usize));
    let j = choose|j: int| 0 <= j < at.len() && at[j] == s as usize;
    assert(c[j].1 == s as usize);
    law_top_k_keeps_all(c, wanted(k, live_slots(st.slots).len()));
    law_key_is_monotone(slot_score(f, st, st.slots[s], rot, lut), 0);
}

/// An index whose removed slots are dropped.
pub open spec fn compacted(st: IndexState) -> IndexState {
    st.with_slots(live_slots(st.slots))
}

/// Compacting twice does no more than compacting once.
pub proof fn law_compaction_is_idempotent(st: IndexState)
    requires
        st.valid(),
    ensures
        compacted(compacted(st)) == compacted(st),
        live_slots(compacted(st).slots).len() == compacted(st).slots.len(),
{
    lemma_live_positions(st.slots);
    lemma_live_bound(st.slots);
    lemma_dense(live_slots(st.slots));
}

/// Where every slot is alive, the live slots are all, at their own positions.
pub proof fn lemma_dense(slots: Seq<Slot>)
    requires
        forall|i: int| 0 <= i < slots.len() ==> (#[trigger] slots[i]).alive,
        slots.len() <= usize::MAX,
    ensures
        live_slots(slots) == slots,
        live_positions(slots) == Seq::new(slots.len(), |i: int| i as usize),
    decreases slots.len(),
{
    if slots.len() > 0 {
        let rest = slots.drop_last();
        assert forall|i: int| 0 <= i < rest.len() implies (#[trigger] rest[i]).alive by {
            assert(rest[i] == slots[i]);
        }
        lemma_dense(rest);
        assert(slots[slots.len() - 1].alive);
        assert(rest.push(slots.last()) =~= slots);
    }
    assert(live_positions(slots) =~= Seq::new(slots.len(), |i: int| i as usize));
}

/// A compaction changes the answer of no search but for the slot numbers: each
/// hit is the same vector with the same score, in the same place.
pub proof fn law_compaction_keeps_answers(f: Meaning, st: IndexState, q: Seq<u32>, k: nat)
    requires
        st.valid(),
    ensures
        answer(f, st, q, k) == answer(f, compacted(st), q, k).map_values(
            |h: (usize, u32)| (live_positions(st.slots)[h.0 as int], h.1),
        ),
{
    let ct = compacted(st);
    let rot = query_rotation(f, st.signs(), st.working_dim, q);
    let lut = centroid_table(st.bits);
    let live = live_slots(st.slots);
    let at = live_positions(st.slots);
    let number = |i: usize| at[i as int];
    lemma_live_positions(st.slots);
    lemma_live_bound(st.slots);
    lemma_dense(live);
    lemma_all_candidates(f, st, rot, lut);
    lemma_all_candidates(f, ct, rot, lut);
    let c = candidates(f, st, rot, lut, st.slots.len());
    let d = candidates(f, ct, rot, lut, live.len());
    assert forall|j: int| 0 <= j < c.len() implies c[j] == renumbered(d, number)[j] by {
        assert(d[j] == (order_key(slot_score(f, ct, live[j], rot, lut)), j as usize));
        assert(slot_score(f, ct, live[j], rot, lut) == slot_score(f, st, live[j], rot, lut));
    }
    assert(renumbered(d, number) =~= c);
    assert forall|a: Candidate, b: Candidate| d.contains(a) && d.contains(b) implies (
    #[trigger] precedes(a, b) <==> precedes((a.0, number(a.1)), (b.0, number(b.1)))) by {
        let i = choose|i: int| 0 <= i < d.len() && d[i] == a;
        let j = choose|j: int| 0 <= j < d.len() && d[j] == b;
        assert(d[i].1 == i as usize && d[j].1 == j as usize);
        if i < j {
            assert(at[i] < at[j]);
        } else if j < i {
            assert(at[j] < at[i]);
        }
    }
    law_top_k_renumbered(d, wanted(k, live.len()), number);
    assert(top_k(d, wanted(k, live.len())).map_values(|h: (usize, u32)| (number(h.0), h.1))
        =~= answer(f, ct, q, k).map_values(
        |h: (usize, u32)| (live_positions(st.slots)[h.0 as int], h.1),
    ));
}

/// A compaction does not change the answer of a keyed search.
pub proof fn law_compaction_keeps_keyed_answers(f: Meaning, st: IndexState, q: Seq<u32>, k: nat)
    requires
        st.valid(),
    ensures
        keyed_hits(compacted(st).slots, answer(f, compacted(st), q, k)) == keyed_hits(
            st.slots,
            answer(f, st, q, k),
        ),
{
    law_compaction_keeps_answers(f, st, q, k);
    let ct = compacted(st);
    let rot = query_rotation(f, st.signs(), st.working_dim, q);
    let lut = centroid_table(st.bits);
    let live = live_slots(st.slots);
    let at = live_positions(st.slots);
    let r = answer(f, ct, q, k);
    lemma_live_positions(st.slots);
    lemma_live_bound(st.slots);
    lemma_dense(live);
    lemma_all_candidates(f, ct, rot, lut);
    law_top_k_is_best(candidates(f, ct, rot, lut, live.len()), wanted(k, live.len()));
    assert forall|i: int| 0 <= i < r.len() implies (#[trigger] r[i]).0 < live.len() by {
        let x: Candidate = (order_key(r[i].1), r[i].0);
        let c = candidates(f, ct, rot, lut, live.len());
        assert(c.contains(x));
        let j = choose|j: int| 0 <= j < c.len() && c[j] == x;
        assert(c[j].1 == j as usize);
    }
    lemma_keyed_hits(st.slots, r);
}

proof fn lemma_keyed_hits(slots: Seq<Slot>, r: Seq<(usize, u32)>)
    requires
        slots.len() <= usize::MAX,
        forall|i: int| 0 <= i < r.len() ==> (#[trigger] r[i]).0 < live_slots(slots).len(),
    ensures
        keyed_hits(slots, r.map_values(|h: (usize, u32)| (live_positions(slots)[h.0 as int], h.1)))
            == keyed_hits(live_slots(slots), r),
    decreases r.len(),
{
    lemma_live_positions(slots);
    let m = r.map_values(|h: (usize, u32)| (live_positions(slots)[h.0 as int], h.1));
    if r.len() > 0 {
        let rest = r.drop_last();
        assert forall|i: int| 0 <= i < rest.len() implies (#[trigger] rest[i]).0 < live_slots(
            slots,
        ).len() by {
            assert(rest[i] == r[i]);
        }
        lemma_keyed_hits(slots, rest);
        assert(m.drop_last() =~= rest.map_values(
            |h: (usize, u32)| (live_positions(slots)[h.0 as int], h.1),
        ));
        let last = r[r.len() - 1];
        assert(slots[live_positions(slots)[last.0 as int] as int] == live_slots(
            slots,
        )[last.0 as int]);
    }
}

/// Two indexes that differ in nothing but their keys.
pub open spec fn same_but_for_keys(a: IndexState, b: IndexState) -> bool {
    &&& b == a.with_slots(b.slots)
    &&& a.slots.len() == b.slots.len()
    &&& forall|i: int|
        0 <= i < a.slots.len() ==> #[trigger] a.slots[i] == (Slot {
            key: a.slots[i].key,
            ..b.slots[i]
        })
}

/// Keys have no part in a search.
pub proof fn law_keys_do_not_matter(f: Meaning, a: IndexState, b: IndexState, q: Seq<u32>, k: nat)
    requires
        same_but_for_keys(a, b),
    ensures
        answer(f, a, q, k) == answer(f, b, q, k),
{
    let rot = query_rotation(f, a.signs(), a.working_dim, q);
    let lut = centroid_table(a.bits);
    lemma_same_candidates(f, a, b, rot, lut, a.slots.len());
    assert(forall|i: int| 0 <= i < a.slots.len() ==> (#[trigger] a.slots[i]).alive == b.slots[i].alive);
    lemma_same_live(a.slots, b.slots);
}

proof fn lemma_same_candidates(
    f: Meaning,
    a: IndexState,
    b: IndexState,
    rot: Seq<u32>,
    lut: Seq<u32>,
    m: nat,
)
    requires
        same_but_for_keys(a, b),
        m <= a.slots.len(),
    ensures
        candidates(f, a, rot, lut, m) == candidates(f, b, rot, lut, m),
    decreases m,
{
    if m > 0 {
        lemma_same_candidates(f, a, b, rot, lut, (m - 1) as nat);
        let x = a.slots[m - 1];
        let y = b.slots[m - 1];
        assert(x.alive == y.alive && x.codes == y.codes && x.scale == y.scale && x.codes2
            == y.codes2 && x.scale2 == y.scale2);
    }
}

} // verus!
