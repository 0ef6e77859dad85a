//! Laws of adding, replacing, removing and renaming.

use vstd::prelude::*;

use crate::arith::Meaning;
use crate::answers::law_search_finds_the_best;
use crate::state::{answer, live_slots, slots_with_key, IndexState, Slot};
use crate::store::{
    lemma_same_holders, lemma_same_live, lemma_slots_with_key, with_key_renamed, without_key,
};

verus! {

/// A removed key is gone, and no other key is touched.
pub proof fn law_removed_key_is_gone(slots: Seq<Slot>, key: u64, other: u64)
    requires
        slots.len() <= usize::MAX,
    ensures
        slots_with_key(without_key(slots, key), other) == if other == key {
            Seq::empty()
        } else {
            slots_with_key(slots, other)
        },
{
    let after = without_key(slots, key);
    if other == key {
        lemma_slots_with_key(after, key);
        let none = slots_with_key(after, key);
        if none.len() > 0 {
            assert(after[none[0] as int].key == Some(key));
        }
        assert(none =~= Seq::empty());
    } else {
        lemma_same_holders(slots, after, other);
    }
}

/// A removal moves no slot: as many are in use as before, and a vector that was
/// not removed is still where it was.
pub proof fn law_removal_moves_no_slot(slots: Seq<Slot>, key: u64, i: int)
    requires
        0 <= i < slots.len(),
    ensures
        without_key(slots, key).len() == slots.len(),
        slots[i].key != Some(key) ==> without_key(slots, key)[i] == slots[i],
        slots[i].key == Some(key) ==> without_key(slots, key)[i] == (Slot {
            key: None,
            alive: false,
            ..slots[i]
        }),
{
}

/// A removal takes as many vectors out of the live ones as the key had.
pub proof fn law_removal_counts(st: IndexState, key: u64)
    requires
        st.valid(),
    ensures
        live_slots(without_key(st.slots, key)).len() == live_slots(st.slots).len()
            - slots_with_key(st.slots, key).len(),
{
    lemma_removal_counts(st, st.slots, key);
}

proof fn lemma_removal_counts(st: IndexState, slots: Seq<Slot>, key: u64)
    requires
        forall|i: int| 0 <= i < slots.len() ==> st.fits(#[trigger] slots[i]),
    ensures
        live_slots(without_key(slots, key)).len() == live_slots(slots).len() - slots_with_key(
            slots,
            key,
        ).len(),
    decreases slots.len(),
{
    if slots.len() > 0 {
        let rest = slots.drop_last();
        assert forall|i: int| 0 <= i < rest.len() implies st.fits(#[trigger] rest[i]) by {
            assert(rest[i] == slots[i]);
        }
        lemma_removal_counts(st, rest, key);
        assert(st.fits(slots[slots.len() - 1]));
        assert(without_key(slots, key).drop_last() =~= without_key(rest, key));
    }
}

/// A search never finds what was removed.
pub proof fn law_removed_is_not_found(f: Meaning, st: IndexState, key: u64, q: Seq<u32>, k: nat)
    requires
        st.valid(),
    ensures
        forall|i: int|
            #![trigger answer(f, st.with_slots(without_key(st.slots, key)), q, k)[i]]
            ({
                let r = answer(f, st.with_slots(without_key(st.slots, key)), q, k);
                0 <= i < r.len() ==> r[i].0 < st.slots.len() && st.slots[r[i].0 as int].key != Some(
                    key,
                )
            }),
{
    let after = st.with_slots(without_key(st.slots, key));
    assert forall|i: int| 0 <= i < after.slots.len() implies after.fits(
        #[trigger] after.slots[i],
    ) by {
        assert(st.fits(st.slots[i]));
    }
    law_search_finds_the_best(f, after, q, k);
}

/// Replacing the vector of a key in place changes neither the number of slots
/// nor of live vectors, nor which slots any key has.
pub proof fn law_replacement_keeps_slots(st: IndexState, key: u64, new: Slot, other: u64)
    requires
        st.valid(),
        slots_with_key(st.slots, key).len() > 0,
        new.key == Some(key),
        new.alive,
    ensures
        ({
            let after = st.slots.update(slots_with_key(st.slots, key)[0] as int, new);
            &&& after.len() == st.slots.len()
            &&& live_slots(after).len() == live_slots(st.slots).len()
            &&& slots_with_key(after, other) == slots_with_key(st.slots, other)
        }),
{
    lemma_slots_with_key(st.slots, key);
    let at = slots_with_key(st.slots, key)[0] as int;
    let after = st.slots.update(at, new);
    assert(st.slots[at].key == Some(key));
    assert(st.fits(st.slots[at]));
    lemma_same_live(st.slots, after);
    lemma_same_holders(st.slots, after, other);
}

/// An added vector is one more live vector and one more slot; no other vector
/// moves.
pub proof fn law_addition_appends(slots: Seq<Slot>, new: Slot)
    requires
        new.alive,
    ensures
        slots.push(new).len() == slots.len() + 1,
        live_slots(slots.push(new)) == live_slots(slots).push(new),
        slots.push(new).take(slots.len() as int) == slots,
{
    assert(slots.push(new).drop_last() =~= slots);
    assert(slots.push(new).take(slots.len() as int) =~= slots);
}

/// Renaming a key moves no vector and changes no other key; the old key is gone
/// unless it is the new one.
pub proof fn law_renaming(slots: Seq<Slot>, from: u64, to: u64, other: u64)
    requires
        slots.len() <= usize::MAX,
        other != to,
    ensures
        live_slots(with_key_renamed(slots, from, to)).len() == live_slots(slots).len(),
        slots_with_key(with_key_renamed(slots, from, to), other) == if other == from {
            Seq::empty()
        } else {
            slots_with_key(slots, other)
        },
        forall|i: int|
            0 <= i < slots.len() ==> (slots_with_key(with_key_renamed(slots, from, to), to).contains(
                i as usize,
            ) <==> (#[trigger] slots[i]).key == Some(from) || slots[i].key == Some(to)),
{
    let after = with_key_renamed(slots, from, to);
    lemma_same_live(slots, after);
    lemma_slots_with_key(after, to);
    if other == from {
        lemma_slots_with_key(after, from);
        let none = slots_with_key(after, from);
        if none.len() > 0 {
            assert(after[none[0] as int].key == Some(from));
        }
        assert(none =~= Seq::empty());
    } else {
        lemma_same_holders(slots, after, other);
    }
    let held = slots_with_key(after, to);
    assert forall|i: int| 0 <= i < slots.len() implies (held.contains(i as usize) <==> (
    #[trigger] slots[i]).key == Some(from) || slots[i].key == Some(to)) by {
        if held.contains(i as usize) {
            let p = choose|p: int| 0 <= p < held.len() && held[p] == i as usize;
            assert(after[held[p] as int].key == Some(to));
        }
        if slots[i].key == Some(from) || slots[i].key == Some(to) {
            assert(after[i].key == Some(to));
        }
    }
}

} // verus!
