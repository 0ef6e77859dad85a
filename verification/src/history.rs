//! Laws of whole histories: what holds of an index after any calls.

use vstd::prelude::*;

use crate::answers::compacted;
use crate::arith::Meaning;
use crate::codes::{law_unpack_undoes_pack, packed};
use crate::format::{file_of, storable};
use crate::lloyd::{centroid_table, is_width, lemma_code_range};
use crate::reload::{law_write_compacts, lemma_live_fit, stored};
use crate::rhdh::law_padded_len;
use crate::rounding::{finite, rounds, size, tame, value};
use crate::similarity::{
    centroids_at, law_reload_moves_scores_little, law_score_is_at_most_one, scaled, slack,
};
use crate::state::{
    added, added_beside, added_keyed, can_add, codes_of, empty_index, encoded, lemma_rotation_len,
    live_slots, query_rotation, rotation, slot_score, values_of, IndexState, Slot,
};
use crate::store::{lemma_live_bound, lemma_slots_with_key, with_key_renamed, without_key};

verus! {

/// A call that changes an index.
pub enum Call {
    /// `set_bits`
    SetBits(u8),
    /// `add`
    Add(Seq<u32>),
    /// `add_keyed`
    AddKeyed(u64, Seq<u32>),
    /// `add_keyed_multi`
    AddKeyedMulti(u64, Seq<u32>),
    /// `remove_keyed`
    RemoveKeyed(u64),
    /// `relabel`
    Relabel(u64, u64),
    /// `compact`
    Compact,
}

/// An index takes a call: it asks for no more than the call does, and has room
/// for one more slot where the call adds one.
pub open spec fn takes(f: Meaning, st: IndexState, call: Call) -> bool {
    match call {
        Call::SetBits(bits) => is_width(bits) && st.slots.len() == 0 && (st.residual ==> bits == 4),
        Call::Add(v) => can_add(f, st, v) && st.slots.len() < usize::MAX,
        Call::AddKeyed(_, v) => can_add(f, st, v) && st.slots.len() < usize::MAX,
        Call::AddKeyedMulti(_, v) => can_add(f, st, v) && st.slots.len() < usize::MAX,
        Call::RemoveKeyed(_) => true,
        Call::Relabel(_, _) => true,
        Call::Compact => true,
    }
}

/// An index after a call.
pub open spec fn after(f: Meaning, st: IndexState, call: Call) -> IndexState {
    match call {
        Call::SetBits(bits) => IndexState { bits, ..st },
        Call::Add(v) => added(f, st, v),
        Call::AddKeyed(key, v) => added_keyed(f, st, key, v),
        Call::AddKeyedMulti(key, v) => added_beside(f, st, key, v),
        Call::RemoveKeyed(key) => st.with_slots(without_key(st.slots, key)),
        Call::Relabel(from, to) => st.with_slots(with_key_renamed(st.slots, from, to)),
        Call::Compact => st.with_slots(live_slots(st.slots)),
    }
}

/// The states of an index through a history of calls: one before the first call,
/// and one after each.
pub open spec fn is_history(f: Meaning, calls: Seq<Call>, states: Seq<IndexState>) -> bool {
    &&& states.len() == calls.len() + 1
    &&& forall|i: int|
        #![trigger calls[i]]
        0 <= i < calls.len() ==> takes(f, states[i], calls[i]) && states[i + 1] == after(
            f,
            states[i],
            calls[i],
        )
}

/// A vector becomes a slot of the right shape.
proof fn lemma_encoded_fits(f: Meaning, st: IndexState, v: Seq<u32>)
    requires
        st.valid(),
    ensures
        st.fits(encoded(f, st, v)),
{
    lemma_rotation_len(f, st, v);
}

/// Every call keeps an index valid.
pub proof fn law_calls_keep_validity(f: Meaning, st: IndexState, call: Call)
    requires
        st.valid(),
        takes(f, st, call),
    ensures
        after(f, st, call).valid(),
{
    let next = after(f, st, call);
    match call {
        Call::Add(v) => {
            lemma_encoded_fits(f, st, v);
        },
        Call::AddKeyed(key, v) => {
            lemma_encoded_fits(f, st, v);
            lemma_slots_with_key(st.slots, key);
        },
        Call::AddKeyedMulti(key, v) => {
            lemma_encoded_fits(f, st, v);
        },
        Call::Compact => {
            lemma_live_fit(st, st.slots);
            lemma_live_bound(st.slots);
        },
        _ => {},
    }
    assert forall|i: int| 0 <= i < next.slots.len() implies next.fits(#[trigger] next.slots[i]) by {
        if i < st.slots.len() {
            assert(st.fits(st.slots[i]));
        }
        if call is Compact {
            assert(st.fits(live_slots(st.slots)[i]));
        }
    }
}

/// An index stays valid through every history.
pub proof fn law_histories_keep_validity(
    f: Meaning,
    calls: Seq<Call>,
    states: Seq<IndexState>,
    i: int,
)
    requires
        is_history(f, calls, states),
        states[0].valid(),
        0 <= i < states.len(),
    ensures
        states[i].valid(),
    decreases i,
{
    if i > 0 {
        law_histories_keep_validity(f, calls, states, i - 1);
        let call = calls[i - 1];
        law_calls_keep_validity(f, states[i - 1], call);
    }
}

/// The calls decide the states: two indexes that start alike and take the same
/// calls are alike after each of them.
pub proof fn law_calls_decide_the_states(
    f: Meaning,
    calls: Seq<Call>,
    a: Seq<IndexState>,
    b: Seq<IndexState>,
    i: int,
)
    requires
        is_history(f, calls, a),
        is_history(f, calls, b),
        a[0] == b[0],
        0 <= i < a.len(),
    ensures
        a[i] == b[i],
    decreases i,
{
    if i > 0 {
        law_calls_decide_the_states(f, calls, a, b, i - 1);
        let call = calls[i - 1];
    }
}

/// The bytes of a file depend on nothing but the dimension, the seed and the
/// calls: two indexes made with them, one over all dimensions and one with all
/// dimensions as working dimensions, are written alike after the same calls.
pub proof fn law_calls_decide_the_file(
    f: Meaning,
    dim: nat,
    seed: u64,
    calls: Seq<Call>,
    a: Seq<IndexState>,
    b: Seq<IndexState>,
)
    requires
        is_history(f, calls, a),
        is_history(f, calls, b),
        a[0] == empty_index(dim, dim, 4, false, seed),
        b[0] == empty_index(dim, dim, 4, false, seed),
    ensures
        a.last() == b.last(),
        file_of(a.last()) == file_of(b.last()),
{
    law_calls_decide_the_states(f, calls, a, b, calls.len() as int);
}

/// The same calls, and then a compaction or none, give the same file: writing
/// drops removed slots as a compaction does.
pub proof fn law_compacting_does_not_change_the_file(
    f: Meaning,
    calls: Seq<Call>,
    states: Seq<IndexState>,
)
    requires
        is_history(f, calls, states),
        states[0].valid(),
    ensures
        file_of(after(f, states.last(), Call::Compact)) == file_of(states.last()),
        storable(after(f, states.last(), Call::Compact)) == storable(states.last()),
{
    law_histories_keep_validity(f, calls, states, calls.len() as int);
    law_write_compacts(states.last());
    assert(after(f, states.last(), Call::Compact) == compacted(states.last()));
}

/// A vector becomes a slot with the scale that goes with its codes.
proof fn lemma_encoded_is_scaled(f: Meaning, st: IndexState, v: Seq<u32>)
    requires
        st.valid(),
        !st.residual,
        st.code_len() > 0,
    ensures
        scaled(f, st, encoded(f, st, v)),
{
    let x = rotation(f, st.signs(), st.working_dim, v);
    let c = codes_of(x, st.bits);
    let d = values_of(c, st.bits);
    lemma_rotation_len(f, st, v);
    law_padded_len(st.working_dim);
    let at = centroids_at(packed(c, st.bits), st.bits, st.padded());
    assert forall|i: int| 0 <= i < at.len() implies at[i] == d[i] by {
        lemma_code_range(x[i], st.bits);
        law_unpack_undoes_pack(c, st.bits, i);
    }
    assert(at =~= d);
}

/// All slots have the scale that goes with their codes.
pub open spec fn all_scaled(f: Meaning, st: IndexState) -> bool {
    forall|i: int| 0 <= i < st.slots.len() ==> scaled(f, st, #[trigger] st.slots[i])
}

proof fn lemma_live_scaled(f: Meaning, st: IndexState, slots: Seq<Slot>)
    requires
        forall|i: int| 0 <= i < slots.len() ==> scaled(f, st, #[trigger] slots[i]),
    ensures
        forall|i: int|
            0 <= i < live_slots(slots).len() ==> scaled(f, st, #[trigger] live_slots(slots)[i]),
    decreases slots.len(),
{
    if slots.len() > 0 {
        let rest = slots.drop_last();
        assert forall|i: int| 0 <= i < rest.len() implies scaled(f, st, #[trigger] rest[i]) by {
            assert(rest[i] == slots[i]);
        }
        assert(scaled(f, st, slots[slots.len() - 1]));
        lemma_live_scaled(f, st, rest);
        let live = live_slots(slots);
        assert forall|i: int| 0 <= i < live.len() implies scaled(f, st, #[trigger] live[i]) by {
            if i < live_slots(rest).len() {
                assert(live[i] == live_slots(rest)[i]);
            }
        }
    }
}

/// Every call on an index without a second pass leaves each slot with the scale
/// that goes with its codes.
proof fn lemma_calls_keep_scales(f: Meaning, st: IndexState, call: Call)
    requires
        st.valid(),
        !st.residual,
        takes(f, st, call),
        all_scaled(f, st),
    ensures
        !after(f, st, call).residual,
        all_scaled(f, after(f, st, call)),
{
    let next = after(f, st, call);
    match call {
        Call::Add(v) => {
            lemma_encoded_is_scaled(f, st, v);
        },
        Call::AddKeyed(key, v) => {
            lemma_encoded_is_scaled(f, st, v);
            lemma_slots_with_key(st.slots, key);
        },
        Call::AddKeyedMulti(key, v) => {
            lemma_encoded_is_scaled(f, st, v);
        },
        Call::Compact => {
            lemma_live_scaled(f, st, st.slots);
        },
        _ => {},
    }
    assert forall|i: int| 0 <= i < next.slots.len() implies scaled(
        f,
        next,
        #[trigger] next.slots[i],
    ) by {
        if i < st.slots.len() {
            assert(scaled(f, st, st.slots[i]));
        }
        if call is Compact {
            assert(scaled(f, st, live_slots(st.slots)[i]));
        }
    }
}

/// Every slot of an index without a second pass that was filled by calls has the
/// scale that goes with its codes.
pub proof fn law_histories_keep_scales(
    f: Meaning,
    calls: Seq<Call>,
    states: Seq<IndexState>,
    i: int,
)
    requires
        is_history(f, calls, states),
        states[0].valid(),
        !states[0].residual,
        states[0].slots.len() == 0,
        0 <= i < states.len(),
    ensures
        states[i].valid(),
        !states[i].residual,
        all_scaled(f, states[i]),
    decreases i,
{
    law_histories_keep_validity(f, calls, states, i);
    if i > 0 {
        law_histories_keep_scales(f, calls, states, i - 1);
        let call = calls[i - 1];
        lemma_calls_keep_scales(f, states[i - 1], call);
    }
}

/// What a score is worth, of an index without a second pass that was filled by
/// calls, with rounded arithmetic and a query that is not near the ends of the
/// range: its magnitude is at most one, up to rounding, and writing the index and
/// reading it back moves it by less than a thousandth.
pub proof fn law_filled_indexes_score_cosines(
    f: Meaning,
    calls: Seq<Call>,
    states: Seq<IndexState>,
    i: int,
    q: Seq<u32>,
)
    requires
        rounds(f),
        is_history(f, calls, states),
        states[0].valid(),
        !states[0].residual,
        states[0].slots.len() == 0,
        2 <= states.last().working_dim,
        q.len() == states.last().dim,
        tame(q.take(states.last().working_dim as int)),
        0 <= i < live_slots(states.last().slots).len(),
    ensures
        ({
            let st = states.last();
            let rot = query_rotation(f, st.signs(), st.working_dim, q);
            let lut = centroid_table(st.bits);
            let before = slot_score(f, st, live_slots(st.slots)[i], rot, lut);
            let after = slot_score(f, stored(st), stored(st).slots[i], rot, lut);
            &&& finite(before)
            &&& size(value(before)) <= 1real + slack(st.padded())
            &&& finite(after)
            &&& 1000real * size(value(after) - value(before)) < 1real
        }),
{
    let st = states.last();
    law_histories_keep_scales(f, calls, states, calls.len() as int);
    lemma_live_scaled(f, st, st.slots);
    law_score_is_at_most_one(f, st, live_slots(st.slots)[i], q);
    law_reload_moves_scores_little(f, st, i, q);
}

} // verus!
