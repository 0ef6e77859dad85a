//! Quantized store: packed codes and per-vector scales, with keys, removal and
//! brute-force search.

use vstd::prelude::*;
use vstd::slice::slice_subrange;

use crate::arith::{is_arithmetic, meaning, operate, sum_squares, Meaning, Op, ZERO};
use crate::codes::{bytes_per_vector, lemma_piece, nth_piece, packed_len, piece, some_pieces};
use crate::keymap::KeyMap;
use crate::lloyd::{centroid_table, centroids, is_width, level_count};
use crate::rhdh::{padded_len, sign_diagonal, Rhdh};
use crate::search::{scan, score_slot, SlotSource};
use crate::state::{
    added, added_beside, added_keyed, answer, can_add, dim_fits, empty_index, encode, encoded,
    has_direction, is_directed, law_slots_are_live_or_removed, lemma_padded_fits, live_slots, query_rotation, removed_slots, rotate, rotate_query, slot_score,
    slots_with_key, working_norm, Encoded, IndexState, Slot,
};

verus! {

/// A quantized vector database in memory.
///
/// Vectors can be stored anonymously or under a caller-chosen key. Keyed
/// vectors can be removed in place: a removed slot keeps its storage, so that
/// slot indices stay stable, but searches skip it until a compaction drops it.
pub struct VecqIndex {
    dim: usize,
    working_dim: usize,
    padded: usize,
    bits: u8,
    residual: bool,
    seed: u64,
    transform: Rhdh,
    codes: Vec<u8>,
    scales: Vec<u32>,
    codes2: Vec<u8>,
    scales2: Vec<u32>,
    n: usize,
    keys: Vec<Option<u64>>,
    key_to_slots: KeyMap,
    alive: Vec<bool>,
    live: usize,
}

impl View for VecqIndex {
    type V = IndexState;

    closed spec fn view(&self) -> IndexState {
        IndexState {
            dim: self.dim as nat,
            working_dim: self.working_dim as nat,
            bits: self.bits,
            residual: self.residual,
            seed: self.seed,
            slots: Seq::new(self.n as nat, |i: int| self.slot_at(i)),
        }
    }
}

impl VecqIndex {
    spec fn slot_at(&self, i: int) -> Slot {
        let w = packed_len(self.padded as nat, self.bits);
        Slot {
            codes: piece(self.codes@, w, i),
            scale: self.scales@[i],
            codes2: if self.residual {
                piece(self.codes2@, w, i)
            } else {
                Seq::empty()
            },
            scale2: if self.residual {
                self.scales2@[i]
            } else {
                ZERO
            },
            key: self.keys@[i],
            alive: self.alive@[i],
        }
    }

    /// The columns have the length that the slot count asks for.
    spec fn shaped(&self) -> bool {
        let w = packed_len(self.padded as nat, self.bits);
        &&& self.codes@.len() == self.n * w
        &&& self.scales@.len() == self.n
        &&& self.keys@.len() == self.n
        &&& self.alive@.len() == self.n
        &&& self.residual ==> self.codes2@.len() == self.n * w && self.scales2@.len() == self.n
        &&& !self.residual ==> self.codes2@.len() == 0 && self.scales2@.len() == 0
    }

    /// The parameters are in range and the transform is theirs.
    spec fn configured(&self) -> bool {
        &&& 1 <= self.working_dim <= self.dim
        &&& dim_fits(self.working_dim as nat)
        &&& is_width(self.bits)
        &&& self.residual ==> self.bits == 4
        &&& self.padded == padded_len(self.working_dim as nat)
        &&& self.transform.wf()
        &&& self.transform.padded == self.padded
        &&& self.transform.signs@ == sign_diagonal(self.seed, self.padded as nat)
    }

    /// The representation invariant.
    pub closed spec fn wf(&self) -> bool {
        &&& self.configured()
        &&& self.shaped()
        &&& self.live == live_slots(self@.slots).len()
        &&& self.key_to_slots.wf()
        &&& forall|key: u64| #[trigger]
            self.key_to_slots.list(key) == slots_with_key(self@.slots, key)
        &&& forall|i: int|
            0 <= i < self.n ==> (#[trigger] self.keys@[i] is Some ==> self.alive@[i])
    }

    /// A well-formed index has a valid state.
    pub proof fn lemma_valid(&self)
        requires
            self.wf(),
        ensures
            self@.valid(),
    {
        let st = self@;
        assert forall|i: int| 0 <= i < st.slots.len() implies st.fits(#[trigger] st.slots[i]) by {
            lemma_piece(i, self.n as int, packed_len(self.padded as nat, self.bits));
            assert(st.slots[i] == self.slot_at(i));
            assert(self.keys@[i] is Some ==> self.alive@[i]);
        }
    }

    /// Create an empty index for `dim`-dimensional vectors, with codes of four
    /// bits. The seed decides the rotation: scores are comparable only between
    /// indexes that share it.
    pub fn new(dim: usize, seed: u64) -> (r: Self)
        requires
            1 <= dim,
            dim_fits(dim as nat),
        ensures
            r.wf(),
            r@ == empty_index(dim as nat, dim as nat, 4, false, seed),
    {
        Self::with_working_dim(dim, dim, seed)
    }

    /// Create an empty index over the leading `working_dim` dimensions of
    /// `dim`-dimensional vectors. Vectors and queries are passed at full length
    /// and truncated before normalization and rotation.
    pub fn with_working_dim(dim: usize, working_dim: usize, seed: u64) -> (r: Self)
        requires
            1 <= working_dim <= dim,
            dim_fits(working_dim as nat),
        ensures
            r.wf(),
            r@ == empty_index(dim as nat, working_dim as nat, 4, false, seed),
    {
        Self::empty(dim, working_dim, seed, 4, false)
    }

    /// Create an empty index with a second pass, which codes what the first one
    /// left: about twice the storage for a better estimate.
    pub fn with_residual(dim: usize, seed: u64) -> (r: Self)
        requires
            1 <= dim,
            dim_fits(dim as nat),
        ensures
            r.wf(),
            r@ == empty_index(dim as nat, dim as nat, 4, true, seed),
    {
        Self::empty(dim, dim, seed, 4, true)
    }

    /// An empty index with all parameters chosen.
    pub(crate) fn empty(dim: usize, working_dim: usize, seed: u64, bits: u8, residual: bool) -> (r: Self)
        requires
            1 <= working_dim <= dim,
            dim_fits(working_dim as nat),
            is_width(bits),
            residual ==> bits == 4,
        ensures
            r.wf(),
            r@ == empty_index(dim as nat, working_dim as nat, bits, residual, seed),
    {
        let transform = Rhdh::new(working_dim, seed);
        let r = VecqIndex {
            dim,
            working_dim,
            padded: transform.padded,
            bits,
            residual,
            seed,
            transform,
            codes: Vec::new(),
            scales: Vec::new(),
            codes2: Vec::new(),
            scales2: Vec::new(),
            n: 0,
            keys: Vec::new(),
            key_to_slots: KeyMap::new(),
            alive: Vec::new(),
            live: 0,
        };
        proof {
            assert(r@.slots =~= Seq::empty());
            assert(0 * packed_len(r.padded as nat, r.bits) == 0) by (nonlinear_arith);
        }
        r
    }

    /// Choose the code width: four, five or six bits. Only an index that holds
    /// nothing yet can change it, and a second pass goes with four bits only.
    pub fn set_bits(&mut self, bits: u8)
        requires
            old(self).wf(),
            is_width(bits),
            old(self)@.slots.len() == 0,
            old(self)@.residual ==> bits == 4,
        ensures
            final(self).wf(),
            final(self)@ == (IndexState { bits, ..old(self)@ }),
    {
        self.bits = bits;
        proof {
            assert(self.n == 0);
            assert(self@.slots =~= old(self)@.slots);
            assert(forall|w: nat| #[trigger] (0 * w) == 0);
        }
    }

    /// Number of live (searchable) vectors.
    pub fn len(&self) -> (r: usize)
        requires
            self.wf(),
        ensures
            r == live_slots(self@.slots).len(),
    {
        self.live
    }

    /// Whether there is no live vector.
    pub fn is_empty(&self) -> (r: bool)
        requires
            self.wf(),
        ensures
            r == (live_slots(self@.slots).len() == 0),
    {
        self.live == 0
    }

    /// Total slots in use, including removed ones.
    pub fn slots(&self) -> (r: usize)
        requires
            self.wf(),
        ensures
            r == self@.slots.len(),
    {
        self.n
    }

    /// Number of removed slots that a compaction would drop.
    pub fn tombstones(&self) -> (r: usize)
        requires
            self.wf(),
        ensures
            r == removed_slots(self@.slots),
    {
        proof {
            law_slots_are_live_or_removed(self@.slots);
        }
        self.n - self.live
    }

    /// Length of vectors and queries.
    pub fn dim(&self) -> (r: usize)
        requires
            self.wf(),
        ensures
            r == self@.dim,
    {
        self.dim
    }

    /// Dimensions that are quantized.
    pub fn working_dim(&self) -> (r: usize)
        requires
            self.wf(),
        ensures
            r == self@.working_dim,
    {
        self.working_dim
    }

    /// Seed of the sign diagonal.
    pub fn seed(&self) -> (r: u64)
        requires
            self.wf(),
        ensures
            r == self@.seed,
    {
        self.seed
    }

    /// Width of the codes.
    pub fn bits(&self) -> (r: u8)
        requires
            self.wf(),
        ensures
            r == self@.bits,
    {
        self.bits
    }

    /// Whether there is a second pass.
    pub fn is_residual(&self) -> (r: bool)
        requires
            self.wf(),
        ensures
            r == self@.residual,
    {
        self.residual
    }

    /// Padded working dimension.
    pub fn padded_dim(&self) -> (r: usize)
        requires
            self.wf(),
        ensures
            r == self@.padded(),
    {
        self.padded
    }

    /// Whether a slot is alive.
    pub fn slot_alive(&self, slot: usize) -> (r: bool)
        requires
            self.wf(),
            slot < self@.slots.len(),
        ensures
            r == self@.slots[slot as int].alive,
    {
        self.alive[slot]
    }

    /// The scale of a slot.
    pub fn slot_scale(&self, slot: usize) -> (r: u32)
        requires
            self.wf(),
            slot < self@.slots.len(),
        ensures
            r == self@.slots[slot as int].scale,
    {
        self.scales[slot]
    }

    /// The packed codes of a slot.
    pub fn slot_codes(&self, slot: usize) -> (r: &[u8])
        requires
            self.wf(),
            slot < self@.slots.len(),
        ensures
            r@ == self@.slots[slot as int].codes,
    {
        nth_piece(self.codes.as_slice(), self.code_len(), slot, self.n)
    }

    /// The scale of a slot's second pass.
    pub fn slot_scale2(&self, slot: usize) -> (r: u32)
        requires
            self.wf(),
            self@.residual,
            slot < self@.slots.len(),
        ensures
            r == self@.slots[slot as int].scale2,
    {
        self.scales2[slot]
    }

    /// The packed codes of a slot's second pass.
    pub fn slot_codes2(&self, slot: usize) -> (r: &[u8])
        requires
            self.wf(),
            self@.residual,
            slot < self@.slots.len(),
        ensures
            r@ == self@.slots[slot as int].codes2,
    {
        nth_piece(self.codes2.as_slice(), self.code_len(), slot, self.n)
    }

    /// Bytes of codes per vector.
    pub fn code_len(&self) -> (r: usize)
        requires
            self.wf(),
        ensures
            r == self@.code_len(),
    {
        proof {
            lemma_padded_fits(self.working_dim as nat, self.bits);
        }
        bytes_per_vector(self.padded, self.bits)
    }

    /// Look up the key stored at a slot: nothing for anonymous slots, removed
    /// ones and indices out of range.
    pub fn key_of(&self, slot: usize) -> (r: Option<u64>)
        requires
            self.wf(),
        ensures
            r == if slot < self@.slots.len() {
                self@.slots[slot as int].key
            } else {
                None
            },
    {
        if slot < self.n {
            self.keys[slot]
        } else {
            None
        }
    }

    /// Whether a key identifies a live vector.
    pub fn contains_key(&self, key: u64) -> (r: bool)
        requires
            self.wf(),
        ensures
            r <==> exists|i: int|
                0 <= i < self@.slots.len() && (#[trigger] self@.slots[i]).alive
                    && self@.slots[i].key == Some(key),
    {
        proof {
            lemma_slots_with_key(self@.slots, key);
            self.lemma_valid();
            let list = slots_with_key(self@.slots, key);
            if list.len() > 0 {
                let i = list[0] as int;
                assert(self@.fits(self@.slots[i]));
            }
            if exists|i: int|
                0 <= i < self@.slots.len() && (#[trigger] self@.slots[i]).alive
                    && self@.slots[i].key == Some(key) {
                let i = choose|i: int|
                    0 <= i < self@.slots.len() && (#[trigger] self@.slots[i]).alive
                        && self@.slots[i].key == Some(key);
                assert(list.contains(i as usize));
            }
        }
        self.key_to_slots.contains(key)
    }
}

/// No more slots are alive than there are.
pub proof fn lemma_live_bound(slots: Seq<Slot>)
    ensures
        live_slots(slots).len() <= slots.len(),
    decreases slots.len(),
{
    if slots.len() > 0 {
        lemma_live_bound(slots.drop_last());
    }
}

/// The slots of a key are the slots that hold it, each once, in order.
pub proof fn lemma_slots_with_key(slots: Seq<Slot>, key: u64)
    requires
        slots.len() <= usize::MAX,
    ensures
        ({
            let list = slots_with_key(slots, key);
            &&& list.len() <= slots.len()
            &&& forall|j: int|
                0 <= j < list.len() ==> (#[trigger] list[j]) < slots.len()
                    && slots[list[j] as int].key == Some(key)
            &&& forall|i: int, j: int|
                0 <= i < j < list.len() ==> (#[trigger] list[i]) < (#[trigger] list[j])
            &&& forall|i: usize|
                i < slots.len() && slots[i as int].key == Some(key) ==> #[trigger] list.contains(i)
        }),
    decreases slots.len(),
{
    if slots.len() > 0 {
        let rest = slots.drop_last();
        lemma_slots_with_key(rest, key);
        let before = slots_with_key(rest, key);
        let list = slots_with_key(slots, key);
        assert forall|i: usize| i < slots.len() && slots[i as int].key == Some(
            key,
        ) implies #[trigger] list.contains(i) by {
            if i < rest.len() {
                assert(rest[i as int].key == Some(key));
                assert(before.contains(i));
                let p = choose|p: int| 0 <= p < before.len() && before[p] == i;
                assert(list[p] == i);
            } else {
                assert(list[list.len() - 1] == i);
            }
        }
        assert forall|j: int| 0 <= j < list.len() implies (#[trigger] list[j]) < slots.len()
            && slots[list[j] as int].key == Some(key) by {
            if j < before.len() {
                assert(list[j] == before[j]);
            }
        }
    }
}

/// Whether each slot holds the key decides the list of its slots.
pub proof fn lemma_same_holders(a: Seq<Slot>, b: Seq<Slot>, key: u64)
    requires
        a.len() == b.len(),
        forall|i: int|
            0 <= i < a.len() ==> ((#[trigger] a[i]).key == Some(key) <==> b[i].key == Some(key)),
    ensures
        slots_with_key(a, key) == slots_with_key(b, key),
    decreases a.len(),
{
    if a.len() > 0 {
        assert(a[a.len() - 1].key == Some(key) <==> b[a.len() - 1].key == Some(key));
        let ar = a.drop_last();
        let br = b.drop_last();
        assert forall|i: int| 0 <= i < ar.len() implies ((#[trigger] ar[i]).key == Some(key)
            <==> br[i].key == Some(key)) by {
            assert(ar[i] == a[i]);
        }
        lemma_same_holders(ar, br, key);
    }
}

/// Which slots are alive decides how many are.
pub proof fn lemma_same_live(a: Seq<Slot>, b: Seq<Slot>)
    requires
        a.len() == b.len(),
        forall|i: int| 0 <= i < a.len() ==> (#[trigger] a[i]).alive == b[i].alive,
    ensures
        live_slots(a).len() == live_slots(b).len(),
    decreases a.len(),
{
    if a.len() > 0 {
        assert(a[a.len() - 1].alive == b[a.len() - 1].alive);
        let ar = a.drop_last();
        let br = b.drop_last();
        assert forall|i: int| 0 <= i < ar.len() implies (#[trigger] ar[i]).alive == br[i].alive by {
            assert(ar[i] == a[i]);
        }
        lemma_same_live(ar, br);
    }
}

/// Where a live slot is removed, one less is alive.
proof fn lemma_one_less(slots: Seq<Slot>, i: int, s: Slot)
    requires
        0 <= i < slots.len(),
        slots[i].alive,
        !s.alive,
    ensures
        live_slots(slots.update(i, s)).len() == live_slots(slots).len() - 1,
    decreases slots.len(),
{
    let u = slots.update(i, s);
    if i == slots.len() - 1 {
        assert(u.drop_last() =~= slots.drop_last());
    } else {
        assert(u.drop_last() =~= slots.drop_last().update(i, s));
        lemma_one_less(slots.drop_last(), i, s);
    }
}

/// Where all slots are alive, the live slots are all of them.
pub proof fn lemma_all_live(slots: Seq<Slot>)
    requires
        live_slots(slots).len() == slots.len(),
    ensures
        live_slots(slots) == slots,
    decreases slots.len(),
{
    if slots.len() > 0 {
        lemma_live_bound(slots.drop_last());
        lemma_all_live(slots.drop_last());
        assert(slots.drop_last().push(slots.last()) =~= slots);
    }
}

/// Overwrite part of a byte vector.
fn overwrite(dst: &mut Vec<u8>, at: usize, src: &Vec<u8>)
    requires
        at + src@.len() <= old(dst)@.len(),
    ensures
        final(dst)@.len() == old(dst)@.len(),
        forall|p: int|
            0 <= p < final(dst)@.len() ==> #[trigger] final(dst)@[p] == if at <= p < at
                + src@.len() {
                src@[p - at]
            } else {
                old(dst)@[p]
            },
{
    let n: usize = dst.len();
    let ghost before = dst@;
    let mut t: usize = 0;
    while t < src.len()
        invariant
            at + src@.len() <= before.len(),
            dst@.len() == before.len(),
            n == before.len(),
            t <= src@.len(),
            forall|p: int|
                0 <= p < dst@.len() ==> #[trigger] dst@[p] == if at <= p < at + t {
                    src@[p - at]
                } else {
                    before[p]
                },
        decreases src@.len() - t,
    {
        dst.set(at + t, src[t]);
        t = t + 1;
    }
}

/// Overwriting one piece leaves the others.
proof fn lemma_overwritten(before: Seq<u8>, after: Seq<u8>, src: Seq<u8>, slot: int, n: int, w: nat)
    requires
        0 <= slot < n,
        before.len() == n * w,
        after.len() == n * w,
        src.len() == w,
        forall|p: int|
            0 <= p < after.len() ==> #[trigger] after[p] == if slot * w <= p < slot * w + w {
                src[p - slot * w]
            } else {
                before[p]
            },
    ensures
        piece(after, w, slot) == src,
        forall|i: int|
            0 <= i < n && i != slot ==> #[trigger] piece(after, w, i) == piece(before, w, i),
{
    lemma_piece(slot, n, w);
    assert(piece(after, w, slot) =~= src);
    assert forall|i: int| 0 <= i < n && i != slot implies #[trigger] piece(after, w, i) == piece(
        before,
        w,
        i,
    ) by {
        lemma_piece(i, n, w);
        if i < slot {
            lemma_piece(i, slot, w);
        } else {
            lemma_piece(slot, i, w);
        }
        assert(piece(after, w, i) =~= piece(before, w, i));
    }
}

/// Appending one piece leaves the others.
proof fn lemma_appended(before: Seq<u8>, src: Seq<u8>, n: int, w: nat)
    requires
        0 <= n,
        before.len() == n * w,
        src.len() == w,
    ensures
        (before + src).len() == (n + 1) * w,
        piece(before + src, w, n) == src,
        forall|i: int|
            0 <= i < n ==> #[trigger] piece(before + src, w, i) == piece(before, w, i),
{
    lemma_piece(n, n + 1, w);
    assert(piece(before + src, w, n) =~= src);
    assert forall|i: int| 0 <= i < n implies #[trigger] piece(before + src, w, i) == piece(
        before,
        w,
        i,
    ) by {
        lemma_piece(i, n, w);
        assert(piece(before + src, w, i) =~= piece(before, w, i));
    }
}

/// A copy of bytes.
pub fn copied(s: &[u8]) -> (r: Vec<u8>)
    ensures
        r@ == s@,
{
    let mut out: Vec<u8> = Vec::new();
    out.extend_from_slice(s);
    proof {
        assert(out@ =~= s@);
    }
    out
}

/// The slots after the vectors under `key` are removed.
pub open spec fn without_key(slots: Seq<Slot>, key: u64) -> Seq<Slot> {
    slots.map_values(
        |s: Slot|
            if s.key == Some(key) {
                Slot { key: None, alive: false, ..s }
            } else {
                s
            },
    )
}

/// The slots after the vectors under `from` are put under `to`.
pub open spec fn with_key_renamed(slots: Seq<Slot>, from: u64, to: u64) -> Seq<Slot> {
    slots.map_values(
        |s: Slot|
            if s.key == Some(from) {
                Slot { key: Some(to), ..s }
            } else {
                s
            },
    )
}

impl VecqIndex {
    /// Whether a vector or a query has a direction: its working norm is above
    /// zero. Others can be neither added nor asked for.
    pub fn accepts<A: Fn(Op, u32, u32) -> u32>(&self, v: &[u32], arith: &A) -> (r: bool)
        requires
            self.wf(),
            is_arithmetic(*arith),
            v@.len() == self@.dim,
        ensures
            r == has_direction(meaning(*arith), self@.working_dim, v@),
    {
        is_directed(self.working_dim, v, arith)
    }

    /// Encode a vector.
    fn encode_vector<A: Fn(Op, u32, u32) -> u32>(&self, v: &[u32], arith: &A) -> (r: Encoded)
        requires
            self.wf(),
            is_arithmetic(*arith),
            can_add(meaning(*arith), self@, v@),
        ensures
            r.slot(None) == encoded(meaning(*arith), self@, v@),
            r.codes@.len() == self@.code_len(),
            r.codes2@.len() == if self@.residual {
                self@.code_len()
            } else {
                0
            },
    {
        proof {
            lemma_padded_fits(self.working_dim as nat, self.bits);
        }
        let (x, _n) = rotate(&self.transform, self.working_dim, v, arith);
        encode(x.as_slice(), self.bits, self.residual, arith)
    }

    /// Append an encoded vector as a new slot.
    pub(crate) fn append_slot(&mut self, e: Encoded, key: Option<u64>) -> (r: usize)
        requires
            old(self).wf(),
            e.codes@.len() == old(self)@.code_len(),
            e.codes2@.len() == if old(self)@.residual {
                old(self)@.code_len()
            } else {
                0
            },
            !old(self)@.residual ==> e.scale2 == ZERO,
        ensures
            final(self).wf(),
            r == old(self)@.slots.len(),
            final(self)@ == old(self)@.with_slots(old(self)@.slots.push(e.slot(key))),
    {
        let slot: usize = self.n;
        let ghost w = packed_len(self.padded as nat, self.bits);
        let ghost target = self@.slots.push(e.slot(key));
        let ghost e0 = e;
        proof {
            lemma_appended(self.codes@, e.codes@, self.n as int, w);
            if self.residual {
                lemma_appended(self.codes2@, e.codes2@, self.n as int, w);
            }
            lemma_live_bound(self@.slots);
        }
        let mut codes = e.codes;
        self.codes.append(&mut codes);
        self.scales.push(e.scale);
        if self.residual {
            let mut codes2 = e.codes2;
            self.codes2.append(&mut codes2);
            self.scales2.push(e.scale2);
        }
        self.keys.push(key);
        if let Some(k) = key {
            self.key_to_slots.add_slot(k, slot);
        }
        self.alive.push(true);
        self.n = self.scales.len();
        self.live = self.live + 1;
        proof {
            assert(self@.slots =~= target) by {
                assert forall|i: int| 0 <= i < target.len() implies self@.slots[i] == target[i] by {
                    if i < slot {
                        assert(target[i] == old(self).slot_at(i));
                    } else {
                        assert(e0.slot(key).codes2 =~= self.slot_at(i).codes2);
                    }
                }
            }
            assert(target.drop_last() =~= old(self)@.slots);
            assert forall|k: u64| #[trigger]
                self.key_to_slots.list(k) == slots_with_key(self@.slots, k) by {
                assert(old(self).key_to_slots.list(k) == slots_with_key(old(self)@.slots, k));
            }
            assert forall|i: int| 0 <= i < self.n && #[trigger] self.keys@[i] is Some implies
                self.alive@[i] by {
                if i < slot {
                    assert(old(self).keys@[i] is Some ==> old(self).alive@[i]);
                }
            }
        }
        slot
    }

    /// Replace the vector of a live slot.
    fn replace_slot(&mut self, slot: usize, e: Encoded)
        requires
            old(self).wf(),
            slot < old(self)@.slots.len(),
            old(self)@.slots[slot as int].alive,
            e.codes@.len() == old(self)@.code_len(),
            e.codes2@.len() == if old(self)@.residual {
                old(self)@.code_len()
            } else {
                0
            },
            !old(self)@.residual ==> e.scale2 == ZERO,
        ensures
            final(self).wf(),
            final(self)@ == old(self)@.with_slots(
                old(self)@.slots.update(
                    slot as int,
                    e.slot(old(self)@.slots[slot as int].key),
                ),
            ),
    {
        let w: usize = self.code_len();
        let total: usize = self.codes.len();
        let ghost target = self@.slots.update(slot as int, e.slot(self@.slots[slot as int].key));
        proof {
            lemma_piece(slot as int, self.n as int, w as nat);
            assert(total == self.n * w);
        }
        overwrite(&mut self.codes, slot * w, &e.codes);
        proof {
            lemma_overwritten(
                old(self).codes@,
                self.codes@,
                e.codes@,
                slot as int,
                self.n as int,
                w as nat,
            );
        }
        self.scales.set(slot, e.scale);
        if self.residual {
            overwrite(&mut self.codes2, slot * w, &e.codes2);
            proof {
                lemma_overwritten(
                    old(self).codes2@,
                    self.codes2@,
                    e.codes2@,
                    slot as int,
                    self.n as int,
                    w as nat,
                );
            }
            self.scales2.set(slot, e.scale2);
        }
        proof {
            assert(self@.slots =~= target) by {
                assert forall|i: int| 0 <= i < target.len() implies self@.slots[i] == target[i] by {
                    if i != slot {
                        assert(target[i] == old(self).slot_at(i));
                    } else {
                        assert(e.slot(self.keys@[i]).codes2 =~= self.slot_at(i).codes2);
                    }
                }
            }
            lemma_same_live(old(self)@.slots, self@.slots);
            assert forall|k: u64| #[trigger]
                self.key_to_slots.list(k) == slots_with_key(self@.slots, k) by {
                assert(old(self).key_to_slots.list(k) == slots_with_key(old(self)@.slots, k));
                lemma_same_holders(old(self)@.slots, self@.slots, k);
            }
        }
    }

    /// Quantize and add one vector of any norm. Returns the slot that holds it,
    /// which is stable until a compaction.
    pub fn add<A: Fn(Op, u32, u32) -> u32>(&mut self, v: &[u32], arith: &A) -> (r: usize)
        requires
            old(self).wf(),
            is_arithmetic(*arith),
            can_add(meaning(*arith), old(self)@, v@),
        ensures
            final(self).wf(),
            r == old(self)@.slots.len(),
            final(self)@ == added(meaning(*arith), old(self)@, v@),
    {
        let e = self.encode_vector(v, arith);
        self.append_slot(e, None)
    }

    /// Quantize and add one vector under a key. If the key is there already the
    /// vector replaces its first one in place; otherwise a new slot is appended.
    /// Returns the slot that holds the vector.
    pub fn add_keyed<A: Fn(Op, u32, u32) -> u32>(&mut self, key: u64, v: &[u32], arith: &A) -> (r:
        usize)
        requires
            old(self).wf(),
            is_arithmetic(*arith),
            can_add(meaning(*arith), old(self)@, v@),
        ensures
            final(self).wf(),
            r == if slots_with_key(old(self)@.slots, key).len() > 0 {
                slots_with_key(old(self)@.slots, key)[0] as int
            } else {
                old(self)@.slots.len() as int
            },
            final(self)@ == added_keyed(meaning(*arith), old(self)@, key, v@),
    {
        let e = self.encode_vector(v, arith);
        assert(e.slot(Some(key)) == (Slot {
            key: Some(key),
            ..encoded(meaning(*arith), old(self)@, v@)
        }));
        assert(self.key_to_slots.list(key) == slots_with_key(self@.slots, key));
        match self.key_to_slots.first(key) {
            Some(slot) => {
                proof {
                    self.lemma_valid();
                    lemma_slots_with_key(self@.slots, key);
                    assert(slots_with_key(self@.slots, key)[0] == slot);
                    assert(self@.fits(self@.slots[slot as int]));
                }
                self.replace_slot(slot, e);
                slot
            },
            None => self.append_slot(e, Some(key)),
        }
    }

    /// Quantize and add one more vector under a key, beside those that the key
    /// has already. Returns the new slot.
    pub fn add_keyed_multi<A: Fn(Op, u32, u32) -> u32>(
        &mut self,
        key: u64,
        v: &[u32],
        arith: &A,
    ) -> (r: usize)
        requires
            old(self).wf(),
            is_arithmetic(*arith),
            can_add(meaning(*arith), old(self)@, v@),
        ensures
            final(self).wf(),
            r == old(self)@.slots.len(),
            final(self)@ == added_beside(meaning(*arith), old(self)@, key, v@),
    {
        let e = self.encode_vector(v, arith);
        assert(e.slot(Some(key)) == (Slot {
            key: Some(key),
            ..encoded(meaning(*arith), old(self)@, v@)
        }));
        self.append_slot(e, Some(key))
    }

    /// Remove what is stored under a key. The slots keep their storage, so that
    /// slot indices stay stable, but searches skip them until a compaction.
    /// Returns false if the key is unknown.
    pub fn remove_keyed(&mut self, key: u64) -> (r: bool)
        requires
            old(self).wf(),
        ensures
            final(self).wf(),
            final(self)@ == old(self)@.with_slots(without_key(old(self)@.slots, key)),
            r <==> slots_with_key(old(self)@.slots, key).len() > 0,
    {
        assert(self.key_to_slots.list(key) == slots_with_key(self@.slots, key));
        let list = self.key_to_slots.take(key);
        let ghost before = old(self)@.slots;
        let ghost target = without_key(before, key);
        proof {
            old(self).lemma_valid();
            lemma_slots_with_key(before, key);
            assert forall|j: int| 0 <= j < list@.len() implies old(self).alive@[list@[j] as int] by {
                assert(old(self)@.fits(before[list@[j] as int]));
            }
            assert(self@.slots =~= before);
        }
        let mut j: usize = 0;
        while j < list.len()
            invariant
                old(self).wf(),
                before == old(self)@.slots,
                before.len() == old(self).n,
                list@ == slots_with_key(before, key),
                forall|p: int| 0 <= p < list@.len() ==> (#[trigger] list@[p]) < before.len(),
                forall|p: int, q: int|
                    0 <= p < q < list@.len() ==> (#[trigger] list@[p]) < (#[trigger] list@[q]),
                forall|p: int|
                    0 <= p < list@.len() ==> old(self).alive@[#[trigger] list@[p] as int],
                j <= list@.len(),
                *self == (VecqIndex {
                    key_to_slots: self.key_to_slots,
                    keys: self.keys,
                    alive: self.alive,
                    live: self.live,
                    ..*old(self)
                }),
                self.keys@.len() == self.n,
                self.alive@.len() == self.n,
                forall|i: int|
                    0 <= i < self.n && !list@.take(j as int).contains(i as usize)
                        ==> #[trigger] self.keys@[i] == old(self).keys@[i] && self.alive@[i]
                        == old(self).alive@[i],
                forall|p: int|
                    0 <= p < j ==> self.keys@[#[trigger] list@[p] as int] == None::<u64>
                        && !self.alive@[list@[p] as int],
                self.live == live_slots(self@.slots).len(),
                self.key_to_slots.wf(),
                self.key_to_slots.list(key).len() == 0,
                forall|k: u64|
                    k != key ==> #[trigger] self.key_to_slots.list(k) == slots_with_key(before, k),
            decreases list@.len() - j,
        {
            let slot: usize = list[j];
            let ghost now = self@.slots;
            let ghost keys_now = self.keys@;
            proof {
                assert(!list@.take(j as int).contains(slot)) by {
                    if list@.take(j as int).contains(slot) {
                        let p = choose|p: int|
                            0 <= p < j && list@.take(j as int)[p] == slot;
                        assert(list@[p] < list@[j as int]);
                    }
                }
                assert(self.keys@[slot as int] == old(self).keys@[slot as int]);
                assert(self.alive@[slot as int]);
                assert(now[slot as int].alive);
                lemma_one_less(now, slot as int, Slot { key: None, alive: false, ..now[slot as int] });
            }
            self.alive.set(slot, false);
            self.keys.set(slot, None);
            self.live = self.live - 1;
            proof {
                assert(self@.slots =~= now.update(
                    slot as int,
                    Slot { key: None, alive: false, ..now[slot as int] },
                ));
                assert forall|i: int|
                    0 <= i < self.n && !list@.take(j + 1).contains(
                        i as usize,
                    ) implies #[trigger] self.keys@[i] == old(self).keys@[i] && self.alive@[i]
                    == old(self).alive@[i] by {
                    let a = list@.take(j + 1);
                    assert(a[j as int] == slot);
                    if list@.take(j as int).contains(i as usize) {
                        let p = choose|p: int|
                            0 <= p < j && list@.take(j as int)[p] == i as usize;
                        assert(a[p] == i as usize);
                    }
                    assert(i != slot);
                    assert(keys_now[i] == old(self).keys@[i]);
                }
                assert forall|p: int| 0 <= p < j + 1 implies self.keys@[#[trigger] list@[p] as int]
                    == None::<u64> && !self.alive@[list@[p] as int] by {
                    if p < j {
                        assert(list@[p] < list@[j as int]);
                    }
                }
            }
            j = j + 1;
        }
        proof {
            assert(list@.take(list@.len() as int) =~= list@);
            assert forall|i: int| 0 <= i < self.n implies self@.slots[i] == target[i] by {
                assert(before[i] == old(self).slot_at(i));
                if before[i].key == Some(key) {
                    assert(list@.contains(i as usize));
                    let p = choose|p: int| 0 <= p < list@.len() && list@[p] == i as usize;
                    assert(self.keys@[list@[p] as int] == None::<u64>);
                } else {
                    if list@.contains(i as usize) {
                        let p = choose|p: int| 0 <= p < list@.len() && list@[p] == i as usize;
                        assert(before[list@[p] as int].key == Some(key));
                    }
                    assert(self.keys@[i] == old(self).keys@[i]);
                }
            }
            assert(self@.slots =~= target);
            assert forall|k: u64| #[trigger]
                self.key_to_slots.list(k) == slots_with_key(self@.slots, k) by {
                if k != key {
                    lemma_same_holders(before, target, k);
                } else {
                    lemma_slots_with_key(target, key);
                    let none = slots_with_key(target, key);
                    if none.len() > 0 {
                        assert(target[none[0] as int].key == Some(key));
                    }
                    assert(self.key_to_slots.list(k) =~= none);
                }
            }
            assert forall|i: int| 0 <= i < self.n && #[trigger] self.keys@[i] is Some implies
                self.alive@[i] by {
                assert(self@.slots[i] == target[i]);
                assert(before[i] == old(self).slot_at(i));
                assert(old(self).keys@[i] is Some ==> old(self).alive@[i]);
            }
        }
        list.len() > 0
    }

    /// Rename a key in place: what was stored under `from` is stored under `to`,
    /// beside what `to` has already. Returns false if `from` is unknown.
    pub fn relabel(&mut self, from: u64, to: u64) -> (r: bool)
        requires
            old(self).wf(),
        ensures
            final(self).wf(),
            final(self)@ == old(self)@.with_slots(with_key_renamed(old(self)@.slots, from, to)),
            r <==> slots_with_key(old(self)@.slots, from).len() > 0,
    {
        let ghost before = old(self)@.slots;
        let ghost target = with_key_renamed(before, from, to);
        proof {
            old(self).lemma_valid();
            lemma_slots_with_key(before, from);
            assert(self.key_to_slots.list(from) == slots_with_key(before, from));
        }
        if !self.key_to_slots.contains(from) {
            proof {
                assert forall|i: int| 0 <= i < before.len() implies before[i] == target[i] by {
                    if before[i].key == Some(from) {
                        assert(slots_with_key(before, from).contains(i as usize));
                    }
                }
                assert(before =~= target);
            }
            return false;
        }
        let _old_list = self.key_to_slots.take(from);
        let _new_list = self.key_to_slots.take(to);
        let mut i: usize = 0;
        while i < self.n
            invariant
                old(self).wf(),
                before == old(self)@.slots,
                target == with_key_renamed(before, from, to),
                before.len() == old(self).n,
                i <= self.n,
                *self == (VecqIndex {
                    key_to_slots: self.key_to_slots,
                    keys: self.keys,
                    ..*old(self)
                }),
                self.keys@.len() == self.n,
                forall|p: int| 0 <= p < i ==> #[trigger] self.keys@[p] == target[p].key,
                forall|p: int| i <= p < self.n ==> #[trigger] self.keys@[p] == old(self).keys@[p],
                self.key_to_slots.wf(),
                self.key_to_slots.list(to) == slots_with_key(target.take(i as int), to),
                from != to ==> self.key_to_slots.list(from).len() == 0,
                forall|k: u64|
                    k != from && k != to ==> #[trigger] self.key_to_slots.list(k)
                        == slots_with_key(before, k),
            decreases self.n - i,
        {
            proof {
                assert(before[i as int] == old(self).slot_at(i as int));
                assert(target.take(i + 1).drop_last() =~= target.take(i as int));
                assert(target.take(i + 1).last() == target[i as int]);
            }
            match self.keys[i] {
                Some(k) => {
                    if k == from {
                        self.keys.set(i, Some(to));
                        self.key_to_slots.add_slot(to, i);
                    } else if k == to {
                        self.key_to_slots.add_slot(to, i);
                    }
                },
                None => {},
            }
            i = i + 1;
        }
        proof {
            assert(target.take(self.n as int) =~= target);
            assert forall|p: int| 0 <= p < self.n implies self@.slots[p] == target[p] by {
                assert(before[p] == old(self).slot_at(p));
                assert(self.keys@[p] == target[p].key);
            }
            assert(self@.slots =~= target);
            lemma_same_live(before, target);
            assert forall|k: u64| #[trigger]
                self.key_to_slots.list(k) == slots_with_key(self@.slots, k) by {
                if k != from && k != to {
                    lemma_same_holders(before, target, k);
                } else if k != to {
                    lemma_slots_with_key(target, k);
                    let none = slots_with_key(target, k);
                    if none.len() > 0 {
                        assert(target[none[0] as int].key == Some(k));
                    }
                    assert(self.key_to_slots.list(k) =~= none);
                }
            }
            assert forall|p: int| 0 <= p < self.n && #[trigger] self.keys@[p] is Some implies
                self.alive@[p] by {
                assert(before[p] == old(self).slot_at(p));
                assert(self.keys@[p] == target[p].key);
                assert(old(self).keys@[p] is Some ==> old(self).alive@[p]);
            }
        }
        true
    }

    /// Rebuild the index in place, dropping removed slots. The remaining vectors
    /// keep their order and their keys; slot indices shift to become dense.
    pub fn compact(&mut self)
        requires
            old(self).wf(),
        ensures
            final(self).wf(),
            final(self)@ == old(self)@.with_slots(live_slots(old(self)@.slots)),
    {
        if self.live == self.n {
            proof {
                lemma_all_live(self@.slots);
            }
            return ;
        }
        let ghost all = self@.slots;
        let mut fresh = Self::empty(
            self.dim,
            self.working_dim,
            self.seed,
            self.bits,
            self.residual,
        );
        proof {
            assert(live_slots(all.take(0)) =~= Seq::empty());
            self.lemma_valid();
        }
        let mut slot: usize = 0;
        while slot < self.n
            invariant
                self.wf(),
                self@.valid(),
                all == self@.slots,
                all.len() == self.n,
                slot <= self.n,
                fresh.wf(),
                fresh@ == self@.with_slots(live_slots(all.take(slot as int))),
            decreases self.n - slot,
        {
            proof {
                assert(all.take(slot + 1).drop_last() =~= all.take(slot as int));
                assert(all.take(slot + 1).last() == all[slot as int]);
                assert(self@.fits(all[slot as int]));
            }
            if self.alive[slot] {
                let codes = copied(self.slot_codes(slot));
                let scale: u32 = self.scales[slot];
                let codes2 = if self.residual {
                    copied(self.slot_codes2(slot))
                } else {
                    Vec::new()
                };
                let scale2: u32 = if self.residual {
                    self.scales2[slot]
                } else {
                    ZERO
                };
                let e = Encoded { codes, scale, codes2, scale2 };
                proof {
                    assert(e.slot(self.keys@[slot as int]).codes2 =~= all[slot as int].codes2);
                }
                fresh.append_slot(e, self.keys[slot]);
            }
            slot = slot + 1;
        }
        proof {
            assert(all.take(all.len() as int) =~= all);
        }
        *self = fresh;
    }
}

/// A query preprocessed in the quantized domain.
pub struct PreparedQuery {
    /// The query in rotated space, of norm one.
    pub rotated: Vec<u32>,
    /// The value of each code.
    pub lut: Vec<u32>,
    /// The norm of the query's leading coordinates.
    pub norm: u32,
}

/// The keys and scores of those hits that have a key.
pub open spec fn keyed_hits(slots: Seq<Slot>, found: Seq<(usize, u32)>) -> Seq<(u64, u32)>
    decreases found.len(),
{
    if found.len() == 0 {
        Seq::empty()
    } else {
        let rest = keyed_hits(slots, found.drop_last());
        let (slot, score) = found.last();
        if slot < slots.len() && slots[slot as int].key is Some {
            rest.push((slots[slot as int].key->0, score))
        } else {
            rest
        }
    }
}

impl SlotSource for VecqIndex {
    open spec fn state(&self) -> IndexState {
        self@
    }

    open spec fn sound(&self) -> bool {
        self.wf()
    }

    proof fn lemma_sound(&self) {
        lemma_padded_fits(self.working_dim as nat, self.bits);
    }

    fn source_len(&self) -> usize {
        self.n
    }

    fn source_bits(&self) -> u8 {
        self.bits
    }

    fn source_residual(&self) -> bool {
        self.residual
    }

    fn source_alive(&self, i: usize) -> bool {
        self.alive[i]
    }

    fn source_scale(&self, i: usize) -> u32 {
        self.scales[i]
    }

    fn source_scale2(&self, i: usize) -> u32 {
        self.scales2[i]
    }

    fn source_codes(&self, i: usize, m: usize) -> &[u8] {
        some_pieces(self.codes.as_slice(), self.code_len(), i, m, self.n)
    }

    fn source_codes2(&self, i: usize, m: usize) -> &[u8] {
        some_pieces(self.codes2.as_slice(), self.code_len(), i, m, self.n)
    }
}

impl VecqIndex {
    /// Prepare a query in rotated space; once per query.
    pub fn prepare_query<A: Fn(Op, u32, u32) -> u32>(&self, q: &[u32], arith: &A) -> (r:
        PreparedQuery)
        requires
            self.wf(),
            is_arithmetic(*arith),
            q@.len() == self@.dim,
            has_direction(meaning(*arith), self@.working_dim, q@),
        ensures
            r.rotated@ == query_rotation(meaning(*arith), self@.signs(), self@.working_dim, q@),
            r.rotated@.len() == self@.padded(),
            r.lut@ == centroid_table(self@.bits),
            r.lut@.len() == level_count(self@.bits),
            r.norm == working_norm(meaning(*arith), self@.working_dim, q@),
    {
        proof {
            lemma_padded_fits(self.working_dim as nat, self.bits);
        }
        let (rotated, norm) = rotate_query(&self.transform, self.working_dim, q, arith);
        let mut lut: Vec<u32> = Vec::new();
        lut.extend_from_slice(centroids(self.bits));
        proof {
            assert(lut@ =~= centroid_table(self.bits));
        }
        PreparedQuery { rotated, lut, norm }
    }

    /// Asymmetric score of a slot against a prepared query: an estimate of the
    /// cosine similarity.
    pub fn score<A: Fn(Op, u32, u32) -> u32>(&self, pq: &PreparedQuery, idx: usize, arith: &A) -> (r:
        u32)
        requires
            self.wf(),
            is_arithmetic(*arith),
            idx < self@.slots.len(),
            pq.rotated@.len() >= self@.padded(),
            pq.lut@.len() == level_count(self@.bits),
        ensures
            r == slot_score(
                meaning(*arith),
                self@,
                self@.slots[idx as int],
                pq.rotated@.take(self@.padded() as int),
                pq.lut@,
            ),
    {
        let rot = slice_subrange(pq.rotated.as_slice(), 0, self.padded);
        proof {
            assert(rot@ =~= pq.rotated@.take(self@.padded() as int));
        }
        score_slot(self, rot, pq.lut.as_slice(), idx, arith)
    }

    /// Brute-force search for the `k` best live vectors: slots and scores, best
    /// first.
    pub fn search<A: Fn(Op, u32, u32) -> u32>(&self, q: &[u32], k: usize, arith: &A) -> (r: Vec<
        (usize, u32),
    >)
        requires
            self.wf(),
            is_arithmetic(*arith),
            q@.len() == self@.dim,
            has_direction(meaning(*arith), self@.working_dim, q@),
        ensures
            r@ == answer(meaning(*arith), self@, q@, k as nat),
    {
        let pq = self.prepare_query(q, arith);
        let m: usize = if k < self.live {
            k
        } else {
            self.live
        };
        let m: usize = if m < 1 {
            1
        } else {
            m
        };
        scan(self, pq.rotated.as_slice(), pq.lut.as_slice(), m, arith)
    }

    /// Keyed variant of the search: keys and scores of those hits that have a
    /// key, best first.
    pub fn search_keyed<A: Fn(Op, u32, u32) -> u32>(&self, q: &[u32], k: usize, arith: &A) -> (r:
        Vec<(u64, u32)>)
        requires
            self.wf(),
            is_arithmetic(*arith),
            q@.len() == self@.dim,
            has_direction(meaning(*arith), self@.working_dim, q@),
        ensures
            r@ == keyed_hits(self@.slots, answer(meaning(*arith), self@, q@, k as nat)),
    {
        let found = self.search(q, k, arith);
        let mut out: Vec<(u64, u32)> = Vec::new();
        let mut i: usize = 0;
        while i < found.len()
            invariant
                self.wf(),
                i <= found@.len(),
                out@ == keyed_hits(self@.slots, found@.take(i as int)),
            decreases found@.len() - i,
        {
            proof {
                assert(found@.take(i + 1).drop_last() =~= found@.take(i as int));
                assert(found@.take(i + 1).last() == found@[i as int]);
            }
            match self.key_of(found[i].0) {
                Some(key) => out.push((key, found[i].1)),
                None => {},
            }
            i = i + 1;
        }
        proof {
            assert(found@.take(found@.len() as int) =~= found@);
        }
        out
    }
}

/// The inner product of the first `n` entries, added up from the front.
pub open spec fn inner_product(f: Meaning, a: Seq<u32>, b: Seq<u32>, n: nat) -> u32
    decreases n,
{
    if n == 0 {
        ZERO
    } else {
        f(Op::Add, inner_product(f, a, b, (n - 1) as nat), f(Op::Mul, a[n - 1], b[n - 1]))
    }
}

/// The cosine similarity of a vector and the leading entries of another one.
pub open spec fn cosine(f: Meaning, a: Seq<u32>, b: Seq<u32>) -> u32 {
    let n = a.len();
    f(
        Op::Div,
        inner_product(f, a, b, n),
        f(
            Op::Mul,
            f(Op::Sqrt, sum_squares(f, a, n), ZERO),
            f(Op::Sqrt, sum_squares(f, b, n), ZERO),
        ),
    )
}

/// Exact cosine similarity between two vectors.
pub fn cosine_f32<A: Fn(Op, u32, u32) -> u32>(a: &[u32], b: &[u32], arith: &A) -> (r: u32)
    requires
        is_arithmetic(*arith),
        a@.len() <= b@.len(),
    ensures
        r == cosine(meaning(*arith), a@, b@),
{
    let mut dot: u32 = ZERO;
    let mut na: u32 = ZERO;
    let mut nb: u32 = ZERO;
    let mut i: usize = 0;
    while i < a.len()
        invariant
            is_arithmetic(*arith),
            a@.len() <= b@.len(),
            i <= a@.len(),
            dot == inner_product(meaning(*arith), a@, b@, i as nat),
            na == sum_squares(meaning(*arith), a@, i as nat),
            nb == sum_squares(meaning(*arith), b@, i as nat),
        decreases a@.len() - i,
    {
        let product: u32 = operate(arith, Op::Mul, a[i], b[i]);
        dot = operate(arith, Op::Add, dot, product);
        let square: u32 = operate(arith, Op::Mul, a[i], a[i]);
        na = operate(arith, Op::Add, na, square);
        let square: u32 = operate(arith, Op::Mul, b[i], b[i]);
        nb = operate(arith, Op::Add, nb, square);
        i = i + 1;
    }
    let ra: u32 = operate(arith, Op::Sqrt, na, ZERO);
    let rb: u32 = operate(arith, Op::Sqrt, nb, ZERO);
    let both: u32 = operate(arith, Op::Mul, ra, rb);
    operate(arith, Op::Div, dot, both)
}

} // verus!
