//! Read-only view of an index in the bytes of a file.
//!
//! The bytes are parsed without copying codes or scales, so that an index can be
//! served from a memory map or any other owner of bytes. Scoring and searching
//! are those of the index in memory: a view and a loaded index over the same
//! bytes give the same answers, bit for bit.
//!
//! A view is dense, since no removed slot is ever written, and has no keys: the
//! keyed-slot table is only checked, so that a view rejects any file that the
//! loader would reject.

use vstd::prelude::*;
use vstd::slice::slice_subrange;

use crate::answers::{law_keys_do_not_matter, lemma_dense, same_but_for_keys};
use crate::arith::{is_arithmetic, meaning, Meaning, Op, ZERO};
use crate::bytes::{read_u16, read_u32, u16_at, u32_at};
use crate::codes::{bytes_per_vector, packed_len, piece, some_pieces};
use crate::format::{
    codes2_at, codes_at, codes_end, file_slot, file_state, file_version, flaw, has_table, loaded,
    read_keys, read_layout, scales_at, table_at, table_entries, table_keys, Error, MAGIC, V1_2,
    V1_3, V1_5,
};
use crate::half::{f16_bits_to_f32, single_of};
use crate::lloyd::{centroid_table, centroids, is_width, level_count};
use crate::rhdh::{padded_len, sign_diagonal, Rhdh};
use crate::search::{scan, score_slot, SlotSource};
use crate::state::{
    answer, dim_fits, has_direction, is_directed, lemma_padded_fits, query_rotation, rotate_query, slot_score,
    IndexState, Slot,
};

verus! {

/// Why a view does not accept bytes.
pub open spec fn view_flaw(b: Seq<u8>) -> Option<Error> {
    if b.len() < 24 || u32_at(b, 0) != MAGIC {
        Some(Error::NotAStableFile)
    } else if !(V1_2 <= file_version(b) <= V1_5) {
        Some(Error::UnsupportedVersion(file_version(b)))
    } else {
        match flaw(b) {
            Some(e) => Some(e),
            None => if has_table(b) && table_keys(b, table_entries(b)) is None {
                Some(Error::InvalidKeyTable)
            } else {
                None
            },
        }
    }
}

/// What a view makes of bytes.
pub open spec fn viewed(b: Seq<u8>) -> Result<IndexState, Error> {
    match view_flaw(b) {
        Some(e) => Err(e),
        None => Ok(file_state(b)),
    }
}

/// A query prepared for a view.
pub struct ViewQuery {
    /// The query in rotated space, of norm one.
    pub rotated: Vec<u32>,
    /// The value of each code.
    pub lut: Vec<u32>,
}

/// A read-only view over the bytes of a file.
pub struct VecqView<'a> {
    dim: usize,
    working_dim: usize,
    padded: usize,
    n: usize,
    bits: u8,
    residual: bool,
    seed: u64,
    transform: Rhdh,
    codes: &'a [u8],
    scales_raw: &'a [u8],
    codes2: &'a [u8],
    scales2_raw: &'a [u8],
}

impl<'a> View for VecqView<'a> {
    type V = IndexState;

    closed spec fn view(&self) -> IndexState {
        IndexState {
            dim: self.dim as nat,
            working_dim: self.working_dim as nat,
            bits: self.bits,
            residual: self.residual,
            seed: self.seed,
            slots: Seq::new(self.n as nat, |i: int| self.slot_at(i)),
        }
    }
}

impl<'a> VecqView<'a> {
    spec fn slot_at(&self, i: int) -> Slot {
        let w = packed_len(self.padded as nat, self.bits);
        Slot {
            codes: piece(self.codes@, w, i),
            scale: single_of(u16_at(self.scales_raw@, 2 * i)),
            codes2: if self.residual {
                piece(self.codes2@, w, i)
            } else {
                Seq::empty()
            },
            scale2: if self.residual {
                single_of(u16_at(self.scales2_raw@, 2 * i))
            } else {
                ZERO
            },
            key: None,
            alive: true,
        }
    }

    /// The representation invariant.
    pub closed spec fn wf(&self) -> bool {
        let w = packed_len(self.padded as nat, self.bits);
        &&& 1 <= self.working_dim <= self.dim
        &&& dim_fits(self.working_dim as nat)
        &&& is_width(self.bits)
        &&& self.padded == padded_len(self.working_dim as nat)
        &&& self.transform.wf()
        &&& self.transform.padded == self.padded
        &&& self.transform.signs@ == sign_diagonal(self.seed, self.padded as nat)
        &&& self.codes@.len() == self.n * w
        &&& self.scales_raw@.len() == self.n * 2
        &&& self.residual ==> self.codes2@.len() == self.n * w && self.scales2_raw@.len() == self.n
            * 2
    }

    /// Parse the bytes of a file without copying its payload. Files before
    /// version 1.2 cannot be viewed.
    pub fn from_bytes(bytes: &'a [u8]) -> (r: Result<Self, Error>)
        ensures
            match viewed(bytes@) {
                Ok(st) => r is Ok && r->Ok_0.wf() && r->Ok_0@ == st,
                Err(e) => r is Err && r->Err_0 == e,
            },
    {
        if bytes.len() < 24 || read_u32(bytes, 0) != MAGIC {
            return Err(Error::NotAStableFile);
        }
        let version: u16 = read_u16(bytes, 4);
        if !(V1_2 <= version && version <= V1_5) {
            return Err(Error::UnsupportedVersion(version));
        }
        let l = match read_layout(bytes) {
            Err(e) => {
                return Err(e);
            },
            Ok(l) => l,
        };
        if version >= V1_3 && read_keys(bytes, &l).is_none() {
            return Err(Error::InvalidKeyTable);
        }
        let ghost n = l.count as int;
        let ghost w = l.code_len as int;
        proof {
            assert(0 <= n * w) by (nonlinear_arith)
                requires
                    0 <= n,
                    0 <= w,
            ;
            lemma_padded_fits(l.working_dim as nat, l.bits);
        }
        let transform = Rhdh::new(l.working_dim, l.seed);
        let scales_raw = slice_subrange(bytes, l.scales_at, l.codes_at);
        let codes = slice_subrange(bytes, l.codes_at, l.codes_end);
        let scales2_raw = slice_subrange(bytes, l.codes_end, l.codes2_at);
        let codes2 = slice_subrange(bytes, l.codes2_at, l.table_at);
        let r = VecqView {
            dim: l.dim,
            working_dim: l.working_dim,
            padded: transform.padded,
            n: l.count,
            bits: l.bits,
            residual: l.residual,
            seed: l.seed,
            transform,
            codes,
            scales_raw,
            codes2,
            scales2_raw,
        };
        proof {
            assert forall|i: int| 0 <= i < n implies r@.slots[i] == file_slot(bytes@, i) by {
                lemma_u16_in_block(bytes@, l.scales_at as int, l.codes_at as int, i);
                if l.residual {
                    lemma_u16_in_block(bytes@, l.codes_end as int, l.codes2_at as int, i);
                }
            }
            assert(r@.slots =~= file_state(bytes@).slots);
        }
        Ok(r)
    }

    /// Number of vectors.
    pub fn len(&self) -> (r: usize)
        requires
            self.wf(),
        ensures
            r == self@.slots.len(),
    {
        self.n
    }

    /// Whether there is no vector.
    pub fn is_empty(&self) -> (r: bool)
        requires
            self.wf(),
        ensures
            r == (self@.slots.len() == 0),
    {
        self.n == 0
    }

    /// Length of vectors and queries.
    pub fn dim(&self) -> (r: usize)
        requires
            self.wf(),
        ensures
            r == self@.dim,
    {
        self.dim
    }

    /// Dimensions that are quantized.
    pub fn working_dim(&self) -> (r: usize)
        requires
            self.wf(),
        ensures
            r == self@.working_dim,
    {
        self.working_dim
    }

    /// Code width of the file: four, five or six bits.
    pub fn bits(&self) -> (r: u8)
        requires
            self.wf(),
        ensures
            r == self@.bits,
    {
        self.bits
    }

    /// Whether the file has a second pass.
    pub fn is_residual(&self) -> (r: bool)
        requires
            self.wf(),
        ensures
            r == self@.residual,
    {
        self.residual
    }

    /// Whether a query has a direction: its working norm is above zero. Others
    /// cannot be asked for.
    pub fn accepts<A: Fn(Op, u32, u32) -> u32>(&self, q: &[u32], arith: &A) -> (r: bool)
        requires
            self.wf(),
            is_arithmetic(*arith),
            q@.len() == self@.dim,
        ensures
            r == has_direction(meaning(*arith), self@.working_dim, q@),
    {
        is_directed(self.working_dim, q, arith)
    }

    /// Prepare a query, as an index in memory does.
    pub fn prepare_query<A: Fn(Op, u32, u32) -> u32>(&self, q: &[u32], arith: &A) -> (r: ViewQuery)
        requires
            self.wf(),
            is_arithmetic(*arith),
            q@.len() == self@.dim,
            has_direction(meaning(*arith), self@.working_dim, q@),
        ensures
            r.rotated@ == query_rotation(meaning(*arith), self@.signs(), self@.working_dim, q@),
            r.rotated@.len() == self@.padded(),
            r.lut@ == centroid_table(self@.bits),
            r.lut@.len() == level_count(self@.bits),
    {
        proof {
            lemma_padded_fits(self.working_dim as nat, self.bits);
        }
        let (rotated, _norm) = rotate_query(&self.transform, self.working_dim, q, arith);
        let mut lut: Vec<u32> = Vec::new();
        lut.extend_from_slice(centroids(self.bits));
        proof {
            assert(lut@ =~= centroid_table(self.bits));
        }
        ViewQuery { rotated, lut }
    }

    /// Asymmetric score of a vector against a prepared query.
    pub fn score<A: Fn(Op, u32, u32) -> u32>(&self, pq: &ViewQuery, idx: usize, arith: &A) -> (r:
        u32)
        requires
            self.wf(),
            is_arithmetic(*arith),
            idx < self@.slots.len(),
            pq.rotated@.len() >= self@.padded(),
            pq.lut@.len() == level_count(self@.bits),
        ensures
            r == slot_score(
                meaning(*arith),
                self@,
                self@.slots[idx as int],
                pq.rotated@.take(self@.padded() as int),
                pq.lut@,
            ),
    {
        let rot = slice_subrange(pq.rotated.as_slice(), 0, self.padded);
        proof {
            assert(rot@ =~= pq.rotated@.take(self@.padded() as int));
        }
        score_slot(self, rot, pq.lut.as_slice(), idx, arith)
    }

    /// Brute-force search for the `k` best vectors: slots and scores, best
    /// first.
    pub fn search<A: Fn(Op, u32, u32) -> u32>(&self, q: &[u32], k: usize, arith: &A) -> (r: Vec<
        (usize, u32),
    >)
        requires
            self.wf(),
            is_arithmetic(*arith),
            q@.len() == self@.dim,
            has_direction(meaning(*arith), self@.working_dim, q@),
        ensures
            r@ == answer(meaning(*arith), self@, q@, k as nat),
    {
        let pq = self.prepare_query(q, arith);
        let m: usize = if k < self.n {
            k
        } else {
            self.n
        };
        let m: usize = if m < 1 {
            1
        } else {
            m
        };
        proof {
            lemma_dense(self@.slots);
        }
        scan(self, pq.rotated.as_slice(), pq.lut.as_slice(), m, arith)
    }

    /// Bytes per vector's code block.
    fn bytes_per_vector(&self) -> (r: usize)
        requires
            self.wf(),
        ensures
            r == self@.code_len(),
    {
        proof {
            lemma_padded_fits(self.working_dim as nat, self.bits);
        }
        bytes_per_vector(self.padded, self.bits)
    }
}

/// Two bytes of a block are two bytes of the whole.
proof fn lemma_u16_in_block(b: Seq<u8>, from: int, to: int, i: int)
    requires
        0 <= from,
        0 <= i,
        from + 2 * i + 2 <= to <= b.len(),
    ensures
        u16_at(b.subrange(from, to), 2 * i) == u16_at(b, from + 2 * i),
{
    reveal(u16_at);
}

impl<'a> SlotSource for VecqView<'a> {
    open spec fn state(&self) -> IndexState {
        self@
    }

    open spec fn sound(&self) -> bool {
        self.wf()
    }

    proof fn lemma_sound(&self) {
        lemma_padded_fits(self.working_dim as nat, self.bits);
    }

    fn source_len(&self) -> usize {
        self.n
    }

    fn source_bits(&self) -> u8 {
        self.bits
    }

    fn source_residual(&self) -> bool {
        self.residual
    }

    fn source_alive(&self, i: usize) -> bool {
        true
    }

    fn source_scale(&self, i: usize) -> u32 {
        let total: usize = self.scales_raw.len();
        assert(2 * i + 2 <= total);
        f16_bits_to_f32(read_u16(self.scales_raw, 2 * i))
    }

    fn source_scale2(&self, i: usize) -> u32 {
        let total: usize = self.scales2_raw.len();
        assert(2 * i + 2 <= total);
        f16_bits_to_f32(read_u16(self.scales2_raw, 2 * i))
    }

    fn source_codes(&self, i: usize, m: usize) -> &[u8] {
        some_pieces(self.codes, self.bytes_per_vector(), i, m, self.n)
    }

    fn source_codes2(&self, i: usize, m: usize) -> &[u8] {
        some_pieces(self.codes2, self.bytes_per_vector(), i, m, self.n)
    }
}

/// A view and a loaded index over the same bytes, from version 1.2 on, give the
/// same answers.
pub proof fn law_view_matches_loaded(b: Seq<u8>, f: Meaning, q: Seq<u32>, k: nat)
    requires
        loaded(b) is Ok,
        file_version(b) >= V1_2,
    ensures
        viewed(b) is Ok,
        same_but_for_keys(loaded(b)->Ok_0, viewed(b)->Ok_0),
        answer(f, loaded(b)->Ok_0, q, k) == answer(f, viewed(b)->Ok_0, q, k),
{
    let a = loaded(b)->Ok_0;
    let v = viewed(b)->Ok_0;
    assert forall|i: int| 0 <= i < a.slots.len() implies #[trigger] a.slots[i] == (Slot {
        key: a.slots[i].key,
        ..v.slots[i]
    }) by {
        assert(v.slots[i].key == None::<u64>);
    }
    law_keys_do_not_matter(f, a, v, q, k);
}

/// A view rejects any file that the loader would reject.
pub proof fn law_view_is_no_more_lenient(b: Seq<u8>)
    requires
        viewed(b) is Ok,
    ensures
        loaded(b) is Ok,
{
}

/// On bytes with a whole header, from version 1.2 on, a view finds wrong what the
/// loader finds wrong.
pub proof fn law_view_and_loader_give_the_same_error(b: Seq<u8>)
    requires
        b.len() >= 24,
        file_version(b) >= V1_2,
        viewed(b) is Err,
    ensures
        loaded(b) is Err,
        loaded(b)->Err_0 == viewed(b)->Err_0,
{
}

/// What a view finds wrong before it looks at the parts: too few bytes for a header or
/// other letters than `VECQ`, and a version before 1.2 or one that is not known. What is
/// left is found as the loader finds it.
pub proof fn law_view_errors(b: Seq<u8>)
    ensures
        ({
            let letters = b.len() >= 24 && b[0] == 0x56 && b[1] == 0x45 && b[2] == 0x43 && b[3]
                == 0x51;
            let version = b[4] + 256 * b[5];
            &&& !letters ==> viewed(b) == Err::<IndexState, Error>(Error::NotAStableFile)
            &&& letters && !(258 <= version <= 261) ==> viewed(b) == Err::<IndexState, Error>(
                Error::UnsupportedVersion(version as u16),
            )
            &&& letters && 258 <= version <= 261 ==> (viewed(b) is Ok <==> loaded(b) is Ok) && (
            loaded(b) is Err ==> viewed(b) is Err && viewed(b)->Err_0 == loaded(b)->Err_0)
        }),
{
    reveal(u32_at);
    reveal(u16_at);
}

} // verus!
