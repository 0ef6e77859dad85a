//! Single-file persistence format.
//!
//! Layout, little-endian:
//! ```text
//! [magic "VECQ" u32][version u16][reserved u16]
//! [dim u32][seed u64][count u32]
//! [scales: count entries]
//! [codes: count * code bytes]
//! ```
//!
//! Version 1: scales stored as binary32, four bytes each.
//! Version 1.1 (stored as 257): scales stored as binary16, two bytes each.
//! Version 1.2 (stored as 258): the reserved field carries the working
//! dimension; zero means the full dimension.
//! Version 1.3 (stored as 259): a keyed-slot table follows the codes:
//! ```text
//! [entries u32][entries: slot u32 + key u64 each, slots in order]
//! ```
//! Version 1.4 (stored as 260): an index with a second pass. Between codes and
//! table stand the scales of the second pass, binary16, and its codes.
//! Version 1.5 (stored as 261): a byte with the code width, four to six bits,
//! follows the header; the other versions have four bits.
//!
//! The loader accepts all of these. The writer emits 1.4 for an index with a
//! second pass, 1.5 for one with wider codes, and 1.3 otherwise. The seed is in
//! the header, so that the sign diagonal can be generated again: the same file
//! gives the same answers, bit for bit.

use vstd::prelude::*;
use vstd::slice::slice_subrange;

use crate::arith::ZERO;
use crate::bytes::{
    le16, le32, le64, push_u16, push_u32, push_u64, read_u16, read_u32, read_u64, u16_at, u32_at,
    u64_at,
};
use crate::codes::{bytes_per_vector, nth_piece, packed_len, piece};
use crate::half::{f16_bits_to_f32, f32_to_f16_bits, half_of, single_of};
use crate::lloyd::is_width;
use crate::rhdh::{padded_dim, padded_len};
use crate::state::{dim_fits, lemma_padded_fits, live_slots, Encoded, IndexState, Slot};
use crate::store::{copied, VecqIndex};

verus! {

/// The first four bytes of a file, as an integer.
pub const MAGIC: u32 = 0x5143_4556;

/// Version 1.
pub const V1: u16 = 1;

/// Version 1.1.
pub const V1_1: u16 = 257;

/// Version 1.2.
pub const V1_2: u16 = 258;

/// Version 1.3.
pub const V1_3: u16 = 259;

/// Version 1.4.
pub const V1_4: u16 = 260;

/// Version 1.5.
pub const V1_5: u16 = 261;

/// Why bytes were not accepted as an index.
#[derive(Clone, Copy, Debug, PartialEq, Eq, Structural)]
pub enum Error {
    /// The bytes do not start with the magic.
    NotAStableFile,
    /// The version is not one that can be read.
    UnsupportedVersion(u16),
    /// The bytes end too early.
    Truncated,
    /// A vector has another dimension than the index.
    DimMismatch { expected: usize, got: usize },
    /// The working dimension is not one of the index.
    InvalidWorkingDim { dim: usize, working_dim: usize },
    /// The code width is not one that can be read.
    InvalidWidth { width: u8 },
    /// The keyed-slot table names a slot that does not exist, or one twice.
    InvalidKeyTable,
}

/// The version of a file.
pub open spec fn file_version(b: Seq<u8>) -> u16 {
    u16_at(b, 4)
}

/// The dimension of a file's vectors.
pub open spec fn file_dim(b: Seq<u8>) -> nat {
    u32_at(b, 8) as nat
}

/// The seed of a file.
pub open spec fn file_seed(b: Seq<u8>) -> u64 {
    u64_at(b, 12)
}

/// The number of vectors of a file.
pub open spec fn file_count(b: Seq<u8>) -> nat {
    u32_at(b, 20) as nat
}

/// The working dimension of a file.
pub open spec fn file_working_dim(b: Seq<u8>) -> nat {
    if file_version(b) >= V1_2 && u16_at(b, 6) != 0 {
        u16_at(b, 6) as nat
    } else {
        file_dim(b)
    }
}

/// The code width of a file.
pub open spec fn file_bits(b: Seq<u8>) -> u8 {
    if file_version(b) == V1_5 {
        b[24]
    } else {
        4
    }
}

/// Whether a file has a second pass.
pub open spec fn file_residual(b: Seq<u8>) -> bool {
    file_version(b) == V1_4
}

/// Whether a file has a keyed-slot table.
pub open spec fn has_table(b: Seq<u8>) -> bool {
    file_version(b) >= V1_3
}

/// Bytes of codes per vector of a file.
pub open spec fn file_code_len(b: Seq<u8>) -> nat {
    packed_len(padded_len(file_working_dim(b)), file_bits(b))
}

/// Bytes per scale of a file's first pass.
pub open spec fn scale_len(b: Seq<u8>) -> nat {
    if file_version(b) == V1 {
        4
    } else {
        2
    }
}

/// Where the scales start.
pub open spec fn scales_at(b: Seq<u8>) -> nat {
    if file_version(b) == V1_5 {
        25
    } else {
        24
    }
}

/// Where the codes start.
pub open spec fn codes_at(b: Seq<u8>) -> nat {
    scales_at(b) + file_count(b) * scale_len(b)
}

/// Where the codes end, and the scales of a second pass start.
pub open spec fn codes_end(b: Seq<u8>) -> nat {
    codes_at(b) + file_count(b) * file_code_len(b)
}

/// Where the codes of a second pass start.
pub open spec fn codes2_at(b: Seq<u8>) -> nat {
    codes_end(b) + file_count(b) * 2
}

/// Where the vectors end, and the keyed-slot table starts.
pub open spec fn table_at(b: Seq<u8>) -> nat {
    if file_residual(b) {
        codes2_at(b) + file_count(b) * file_code_len(b)
    } else {
        codes_end(b)
    }
}

/// The number of entries of the keyed-slot table.
pub open spec fn table_entries(b: Seq<u8>) -> nat {
    u32_at(b, table_at(b) as int) as nat
}

/// What is wrong with bytes whose version is known, up to the contents of the
/// keyed-slot table.
pub open spec fn flaw(b: Seq<u8>) -> Option<Error> {
    let working_dim = file_working_dim(b);
    let invalid_dim = Error::InvalidWorkingDim {
        dim: file_dim(b) as usize,
        working_dim: working_dim as usize,
    };
    if working_dim > file_dim(b) || !dim_fits(working_dim) {
        Some(invalid_dim)
    } else if b.len() < scales_at(b) {
        Some(Error::Truncated)
    } else if !is_width(file_bits(b)) {
        Some(Error::InvalidWidth { width: file_bits(b) })
    } else if b.len() < codes_end(b) {
        Some(Error::Truncated)
    } else if working_dim < 1 {
        Some(invalid_dim)
    } else if b.len() < table_at(b) {
        Some(Error::Truncated)
    } else if has_table(b) && (b.len() < table_at(b) + 4 || b.len() < table_at(b) + 4
        + table_entries(b) * 12) {
        Some(Error::Truncated)
    } else {
        None
    }
}

/// One vector of a file, without its key.
pub open spec fn file_slot(b: Seq<u8>, i: int) -> Slot {
    Slot {
        codes: piece(
            b.subrange(codes_at(b) as int, codes_end(b) as int),
            file_code_len(b),
            i,
        ),
        scale: if file_version(b) == V1 {
            u32_at(b, scales_at(b) + 4 * i)
        } else {
            single_of(u16_at(b, scales_at(b) + 2 * i))
        },
        codes2: if file_residual(b) {
            piece(b.subrange(codes2_at(b) as int, table_at(b) as int), file_code_len(b), i)
        } else {
            Seq::empty()
        },
        scale2: if file_residual(b) {
            single_of(u16_at(b, codes_end(b) + 2 * i))
        } else {
            ZERO
        },
        key: None,
        alive: true,
    }
}

/// The index in a file, without keys.
pub open spec fn file_state(b: Seq<u8>) -> IndexState {
    IndexState {
        dim: file_dim(b),
        working_dim: file_working_dim(b),
        bits: file_bits(b),
        residual: file_residual(b),
        seed: file_seed(b),
        slots: Seq::new(file_count(b), |i: int| file_slot(b, i)),
    }
}

/// The keys that the first `n` entries of the keyed-slot table give to the
/// slots; nothing if one of them names a slot that does not exist, or one that
/// an earlier entry named.
pub open spec fn table_keys(b: Seq<u8>, n: nat) -> Option<Seq<Option<u64>>>
    decreases n,
{
    if n == 0 {
        Some(Seq::new(file_count(b), |i: int| None::<u64>))
    } else {
        match table_keys(b, (n - 1) as nat) {
            None => None,
            Some(keys) => {
                let at = table_at(b) + 4 + 12 * (n - 1);
                let slot = u32_at(b, at) as int;
                if slot >= file_count(b) || keys[slot] is Some {
                    None
                } else {
                    Some(keys.update(slot, Some(u64_at(b, at + 4))))
                }
            },
        }
    }
}

/// Slots with keys.
pub open spec fn with_keys(slots: Seq<Slot>, keys: Seq<Option<u64>>) -> Seq<Slot> {
    Seq::new(slots.len(), |i: int| Slot { key: keys[i], ..slots[i] })
}

/// Why the loader does not accept bytes, up to the contents of the keyed-slot
/// table.
pub open spec fn load_flaw(b: Seq<u8>) -> Option<Error> {
    if b.len() < 24 {
        Some(Error::Truncated)
    } else if u32_at(b, 0) != MAGIC {
        Some(Error::NotAStableFile)
    } else if file_version(b) != V1 && !(V1_1 <= file_version(b) <= V1_5) {
        Some(Error::UnsupportedVersion(file_version(b)))
    } else {
        flaw(b)
    }
}

/// What the loader makes of bytes.
pub open spec fn loaded(b: Seq<u8>) -> Result<IndexState, Error> {
    match load_flaw(b) {
        Some(e) => Err(e),
        None => {
            let st = file_state(b);
            if has_table(b) {
                match table_keys(b, table_entries(b)) {
                    Some(keys) => Ok(st.with_slots(with_keys(st.slots, keys))),
                    None => Err(Error::InvalidKeyTable),
                }
            } else {
                Ok(st)
            }
        },
    }
}

/// Where the parts of a file lie.
pub struct Layout {
    /// Length of the vectors.
    pub dim: usize,
    /// How many leading coordinates are quantized.
    pub working_dim: usize,
    /// Seed of the sign diagonal.
    pub seed: u64,
    /// Number of vectors.
    pub count: usize,
    /// Code width.
    pub bits: u8,
    /// Whether there is a second pass.
    pub residual: bool,
    /// Bytes of codes per vector.
    pub code_len: usize,
    /// Start of the scales.
    pub scales_at: usize,
    /// Start of the codes.
    pub codes_at: usize,
    /// End of the codes, and start of the scales of the second pass.
    pub codes_end: usize,
    /// Start of the codes of the second pass; the end of the codes without one.
    pub codes2_at: usize,
    /// Start of the keyed-slot table.
    pub table_at: usize,
    /// Entries of the keyed-slot table.
    pub entries: usize,
}

impl Layout {
    /// These are the parts of that file.
    pub open spec fn describes(self, b: Seq<u8>) -> bool {
        &&& self.dim == file_dim(b)
        &&& self.working_dim == file_working_dim(b)
        &&& self.seed == file_seed(b)
        &&& self.count == file_count(b)
        &&& self.bits == file_bits(b)
        &&& self.residual == file_residual(b)
        &&& self.code_len == file_code_len(b)
        &&& self.scales_at == scales_at(b)
        &&& self.codes_at == codes_at(b)
        &&& self.codes_end == codes_end(b)
        &&& self.codes2_at == if self.residual {
            codes2_at(b)
        } else {
            codes_end(b)
        }
        &&& self.table_at == table_at(b)
        &&& has_table(b) ==> self.entries == table_entries(b)
    }
}

/// Whether `count` parts of length `each` fit into `room`.
fn have_room(count: usize, each: usize, room: usize) -> (r: bool)
    ensures
        r <==> count * each <= room,
{
    if each == 0 {
        assert(count * each == 0) by (nonlinear_arith)
            requires
                each == 0,
        ;
        return true;
    }
    let most: usize = room / each;
    proof {
        let c = count as int;
        let e = each as int;
        let m = most as int;
        let x = room as int;
        assert(m * e <= x < m * e + e) by (nonlinear_arith)
            requires
                m == x / e,
                e > 0,
        ;
        if c <= m {
            assert(c * e <= m * e) by (nonlinear_arith)
                requires
                    c <= m,
                    e > 0,
            ;
        } else {
            assert(c * e >= m * e + e) by (nonlinear_arith)
                requires
                    c >= m + 1,
                    e > 0,
            ;
        }
    }
    count <= most
}

/// Find the parts of a file whose version is known.
pub fn read_layout(b: &[u8]) -> (r: Result<Layout, Error>)
    requires
        b@.len() >= 24,
        file_version(b@) == V1 || V1_1 <= file_version(b@) <= V1_5,
    ensures
        match flaw(b@) {
            Some(e) => r == Err::<Layout, Error>(e),
            None => r is Ok && r->Ok_0.describes(b@),
        },
{
    let len: usize = b.len();
    let version: u16 = read_u16(b, 4);
    let dim: usize = read_u32(b, 8) as usize;
    let seed: u64 = read_u64(b, 12);
    let count: usize = read_u32(b, 20) as usize;
    let reserved: usize = read_u16(b, 6) as usize;
    let working_dim: usize = if version >= V1_2 && reserved != 0 {
        reserved
    } else {
        dim
    };
    if working_dim > dim || working_dim > usize::MAX / 16 + 1 {
        return Err(Error::InvalidWorkingDim { dim, working_dim });
    }
    let scales_at: usize = if version == V1_5 {
        25
    } else {
        24
    };
    if len < scales_at {
        return Err(Error::Truncated);
    }
    let bits: u8 = if version == V1_5 {
        b[24]
    } else {
        4
    };
    if bits < 4 || bits > 6 {
        return Err(Error::InvalidWidth { width: bits });
    }
    proof {
        lemma_padded_fits(working_dim as nat, bits);
    }
    let padded: usize = padded_dim(working_dim);
    let code_len: usize = bytes_per_vector(padded, bits);
    let scale_len: usize = if version == V1 {
        4
    } else {
        2
    };
    let ghost n = count as int;
    let ghost w = code_len as int;
    let ghost sl = scale_len as int;
    proof {
        assert(n * (sl + w) == n * sl + n * w && 0 <= n * sl && 0 <= n * w) by (nonlinear_arith)
            requires
                0 <= n,
                0 <= sl,
                0 <= w,
        ;
    }
    if !have_room(count, scale_len + code_len, len - scales_at) {
        return Err(Error::Truncated);
    }
    let codes_at: usize = scales_at + count * scale_len;
    let codes_end: usize = codes_at + count * code_len;
    if working_dim < 1 {
        return Err(Error::InvalidWorkingDim { dim, working_dim });
    }
    let residual: bool = version == V1_4;
    let mut codes2_at: usize = codes_end;
    let mut table_at: usize = codes_end;
    if residual {
        if !have_room(count, 2 + code_len, len - codes_end) {
            return Err(Error::Truncated);
        }
        codes2_at = codes_end + count * 2;
        table_at = codes2_at + count * code_len;
    }
    let mut entries: usize = 0;
    if version >= V1_3 {
        if len - table_at < 4 {
            return Err(Error::Truncated);
        }
        entries = read_u32(b, table_at) as usize;
        if !have_room(entries, 12, len - table_at - 4) {
            return Err(Error::Truncated);
        }
    }
    Ok(
        Layout {
            dim,
            working_dim,
            seed,
            count,
            bits,
            residual,
            code_len,
            scales_at,
            codes_at,
            codes_end,
            codes2_at,
            table_at,
            entries,
        },
    )
}

/// Read the keyed-slot table; nothing if it names a slot that does not exist, or
/// one twice.
pub(crate) fn read_keys(b: &[u8], l: &Layout) -> (r: Option<Vec<Option<u64>>>)
    requires
        l.describes(b@),
        has_table(b@),
        table_at(b@) + 4 + table_entries(b@) * 12 <= b@.len(),
    ensures
        match table_keys(b@, table_entries(b@)) {
            Some(keys) => r is Some && r->0@ == keys && keys.len() == l.count,
            None => r is None,
        },
{
    let len: usize = b.len();
    let mut keys = no_keys(l.count);
    proof {
        assert(keys@ =~= table_keys(b@, 0)->0);
    }
    let mut n: usize = 0;
    while n < l.entries
        invariant
            l.describes(b@),
            has_table(b@),
            len == b@.len(),
            table_at(b@) + 4 + table_entries(b@) * 12 <= len,
            n <= l.entries,
            keys@.len() == l.count,
            table_keys(b@, n as nat) == Some(keys@),
        decreases l.entries - n,
    {
        let at: usize = l.table_at + 4 + 12 * n;
        let slot: usize = read_u32(b, at) as usize;
        let key: u64 = read_u64(b, at + 4);
        let taken: bool = slot >= l.count || keys[slot].is_some();
        if taken {
            proof {
                lemma_refused(b@, (n + 1) as nat, table_entries(b@));
            }
            return None;
        }
        keys.set(slot, Some(key));
        n = n + 1;
    }
    Some(keys)
}

/// As many slots without keys.
fn no_keys(count: usize) -> (r: Vec<Option<u64>>)
    ensures
        r@ == Seq::new(count as nat, |i: int| None::<u64>),
{
    let mut keys: Vec<Option<u64>> = Vec::new();
    while keys.len() < count
        invariant
            keys@.len() <= count,
            forall|i: int| 0 <= i < keys@.len() ==> #[trigger] keys@[i] == None::<u64>,
        decreases count - keys@.len(),
    {
        keys.push(None);
    }
    proof {
        assert(keys@ =~= Seq::new(count as nat, |i: int| None::<u64>));
    }
    keys
}

/// A table with a refused entry stays refused.
proof fn lemma_refused(b: Seq<u8>, n: nat, m: nat)
    requires
        n <= m,
        table_keys(b, n) is None,
    ensures
        table_keys(b, m) is None,
    decreases m,
{
    if n < m {
        lemma_refused(b, n, (m - 1) as nat);
    }
}

/// Read the scale of a vector.
fn read_scale(b: &[u8], l: &Layout, i: usize) -> (r: u32)
    requires
        l.describes(b@),
        codes_end(b@) <= b@.len(),
        b@.len() >= 24,
        i < l.count,
    ensures
        r == file_slot(b@, i as int).scale,
{
    let ghost n = l.count as int;
    let ghost w = l.code_len as int;
    let len: usize = b.len();
    proof {
        assert(0 <= n * w) by (nonlinear_arith)
            requires
                0 <= n,
                0 <= w,
        ;
        assert(l.codes_at <= len);
    }
    if read_u16(b, 4) == V1 {
        read_u32(b, l.scales_at + 4 * i)
    } else {
        f16_bits_to_f32(read_u16(b, l.scales_at + 2 * i))
    }
}

/// Read one vector.
fn read_slot(b: &[u8], l: &Layout, i: usize) -> (r: Encoded)
    requires
        l.describes(b@),
        flaw(b@) is None,
        b@.len() >= 24,
        i < l.count,
    ensures
        r.slot(None) == file_slot(b@, i as int),
        r.codes@.len() == l.code_len,
        r.codes2@.len() == if l.residual {
            l.code_len
        } else {
            0
        },
        !l.residual ==> r.scale2 == ZERO,
{
    let ghost n = l.count as int;
    let ghost w = l.code_len as int;
    let len: usize = b.len();
    proof {
        assert(0 <= n * w) by (nonlinear_arith)
            requires
                0 <= n,
                0 <= w,
        ;
    }
    let block = slice_subrange(b, l.codes_at, l.codes_end);
    let codes = copied(nth_piece(block, l.code_len, i, l.count));
    let scale: u32 = read_scale(b, l, i);
    if l.residual {
        let block2 = slice_subrange(b, l.codes2_at, l.table_at);
        let codes2 = copied(nth_piece(block2, l.code_len, i, l.count));
        let scale2: u32 = f16_bits_to_f32(read_u16(b, l.codes_end + 2 * i));
        Encoded { codes, scale, codes2, scale2 }
    } else {
        let r = Encoded { codes, scale, codes2: Vec::new(), scale2: ZERO };
        proof {
            assert(r.codes2@ =~= Seq::<u8>::empty());
        }
        r
    }
}

impl VecqIndex {
    /// Parse an index from the bytes of a file, of any version.
    pub fn from_bytes(bytes: &[u8]) -> (r: Result<Self, Error>)
        ensures
            match loaded(bytes@) {
                Ok(st) => r is Ok && r->Ok_0.wf() && r->Ok_0@ == st,
                Err(e) => r is Err && r->Err_0 == e,
            },
    {
        if bytes.len() < 24 {
            return Err(Error::Truncated);
        }
        if read_u32(bytes, 0) != MAGIC {
            return Err(Error::NotAStableFile);
        }
        let version: u16 = read_u16(bytes, 4);
        if version != V1 && !(V1_1 <= version && version <= V1_5) {
            return Err(Error::UnsupportedVersion(version));
        }
        let l = match read_layout(bytes) {
            Err(e) => {
                return Err(e);
            },
            Ok(l) => l,
        };
        let keys = if version >= V1_3 {
            match read_keys(bytes, &l) {
                None => {
                    return Err(Error::InvalidKeyTable);
                },
                Some(keys) => keys,
            }
        } else {
            no_keys(l.count)
        };
        let mut index = VecqIndex::empty(l.dim, l.working_dim, l.seed, l.bits, l.residual);
        let ghost st = file_state(bytes@);
        let ghost all = with_keys(st.slots, keys@);
        proof {
            assert(index@.slots =~= all.take(0));
            if !has_table(bytes@) {
                assert(all =~= st.slots);
            }
        }
        let mut i: usize = 0;
        while i < l.count
            invariant
                l.describes(bytes@),
                flaw(bytes@) is None,
                bytes@.len() >= 24,
                st == file_state(bytes@),
                all == with_keys(st.slots, keys@),
                keys@.len() == l.count,
                i <= l.count,
                index.wf(),
                index@ == st.with_slots(all.take(i as int)),
            decreases l.count - i,
        {
            let e = read_slot(bytes, &l, i);
            proof {
                assert(e.slot(keys@[i as int]) == all[i as int]);
                assert(all.take(i as int).push(all[i as int]) =~= all.take(i + 1));
            }
            index.append_slot(e, keys[i]);
            i = i + 1;
        }
        proof {
            assert(all.take(all.len() as int) =~= all);
        }
        Ok(index)
    }
}

/// Byte sequences, one behind the other.
pub open spec fn joined(parts: Seq<Seq<u8>>) -> Seq<u8>
    decreases parts.len(),
{
    if parts.len() == 0 {
        Seq::empty()
    } else {
        joined(parts.drop_last()) + parts.last()
    }
}

/// The version that an index is written in.
pub open spec fn version_of(st: IndexState) -> u16 {
    if st.residual {
        V1_4
    } else if st.bits == 4 {
        V1_3
    } else {
        V1_5
    }
}

/// An index whose numbers fit into the fields of a file.
pub open spec fn storable(st: IndexState) -> bool {
    &&& st.dim <= u32::MAX
    &&& live_slots(st.slots).len() <= u32::MAX
    &&& st.working_dim == st.dim || st.working_dim <= u16::MAX
}

/// The header of the file of an index with `n` live vectors.
pub open spec fn header_of(st: IndexState, n: nat) -> Seq<u8> {
    let reserved = if st.working_dim == st.dim {
        0
    } else {
        st.working_dim
    };
    let width = if version_of(st) == V1_5 {
        seq![st.bits]
    } else {
        Seq::empty()
    };
    le32(MAGIC) + le16(version_of(st)) + le16(reserved as u16) + le32(
        st.dim as u32,
    ) + le64(st.seed) + le32(n as u32) + width
}

/// The stored scales of slots.
pub open spec fn scale_parts(slots: Seq<Slot>) -> Seq<Seq<u8>> {
    slots.map_values(|s: Slot| le16(half_of(s.scale)))
}

/// The stored codes of slots.
pub open spec fn code_parts(slots: Seq<Slot>) -> Seq<Seq<u8>> {
    slots.map_values(|s: Slot| s.codes)
}

/// The stored scales of slots' second pass.
pub open spec fn scale2_parts(slots: Seq<Slot>) -> Seq<Seq<u8>> {
    slots.map_values(|s: Slot| le16(half_of(s.scale2)))
}

/// The stored codes of slots' second pass.
pub open spec fn code2_parts(slots: Seq<Slot>) -> Seq<Seq<u8>> {
    slots.map_values(|s: Slot| s.codes2)
}

/// The entries of the keyed-slot table.
pub open spec fn table_parts(slots: Seq<Slot>) -> Seq<Seq<u8>>
    decreases slots.len(),
{
    if slots.len() == 0 {
        Seq::empty()
    } else {
        let rest = table_parts(slots.drop_last());
        match slots.last().key {
            Some(key) => rest.push(le32((slots.len() - 1) as u32) + le64(key)),
            None => rest,
        }
    }
}

/// The keyed-slot table.
pub open spec fn table_of(slots: Seq<Slot>) -> Seq<u8> {
    le32(table_parts(slots).len() as u32) + joined(table_parts(slots))
}

/// The blocks of a second pass; empty without one.
pub open spec fn second_pass_of(st: IndexState, slots: Seq<Slot>) -> Seq<u8> {
    if st.residual {
        joined(scale2_parts(slots)) + joined(code2_parts(slots))
    } else {
        Seq::empty()
    }
}

/// The file of an index: its live vectors in slot order.
pub open spec fn file_of(st: IndexState) -> Seq<u8> {
    let live = live_slots(st.slots);
    header_of(st, live.len()) + joined(scale_parts(live)) + joined(code_parts(live))
        + second_pass_of(st, live) + table_of(live)
}

/// One more part.
proof fn lemma_joined_push(parts: Seq<Seq<u8>>, x: Seq<u8>)
    ensures
        joined(parts.push(x)) == joined(parts) + x,
{
    assert(parts.push(x).drop_last() =~= parts);
}

/// How the live slots grow by one slot.
proof fn lemma_live_step(slots: Seq<Slot>, i: int)
    requires
        0 <= i < slots.len(),
    ensures
        live_slots(slots.take(i + 1)) == if slots[i].alive {
            live_slots(slots.take(i)).push(slots[i])
        } else {
            live_slots(slots.take(i))
        },
{
    assert(slots.take(i + 1).drop_last() =~= slots.take(i));
    assert(slots.take(i + 1).last() == slots[i]);
}

/// No more slots are alive among the leading ones than among all.
proof fn lemma_live_prefix(slots: Seq<Slot>, m: int)
    requires
        0 <= m <= slots.len(),
    ensures
        live_slots(slots.take(m)).len() <= live_slots(slots).len(),
    decreases slots.len(),
{
    if m == slots.len() {
        assert(slots.take(m) =~= slots);
    } else {
        lemma_live_prefix(slots.drop_last(), m);
        assert(slots.drop_last().take(m) =~= slots.take(m));
    }
}

/// Append bytes.
fn push_bytes(out: &mut Vec<u8>, x: &[u8])
    ensures
        final(out)@ == old(out)@ + x@,
{
    out.extend_from_slice(x);
    proof {
        assert(out@ =~= old(out)@ + x@);
    }
}

impl VecqIndex {
    /// Append the header.
    fn push_header(&self, out: &mut Vec<u8>)
        requires
            self.wf(),
            storable(self@),
        ensures
            final(out)@ == old(out)@ + header_of(self@, live_slots(self@.slots).len()),
    {
        let reserved: u16 = if self.working_dim() == self.dim() {
            0
        } else {
            self.working_dim() as u16
        };
        let version: u16 = if self.is_residual() {
            V1_4
        } else if self.bits() == 4 {
            V1_3
        } else {
            V1_5
        };
        push_u32(out, MAGIC);
        push_u16(out, version);
        push_u16(out, reserved);
        push_u32(out, self.dim() as u32);
        push_u64(out, self.seed());
        push_u32(out, self.len() as u32);
        if version == V1_5 {
            out.push(self.bits());
        }
        proof {
            assert(out@ =~= old(out)@ + header_of(self@, live_slots(self@.slots).len()));
        }
    }

    /// Append the scales of the live slots.
    fn push_scales(&self, out: &mut Vec<u8>)
        requires
            self.wf(),
        ensures
            final(out)@ == old(out)@ + joined(scale_parts(live_slots(self@.slots))),
    {
        let ghost all = self@.slots;
        let ghost before = out@;
        let n: usize = self.slots();
        let mut slot: usize = 0;
        proof {
            assert(scale_parts(live_slots(all.take(0))) =~= Seq::empty());
            assert(out@ =~= before + joined(scale_parts(live_slots(all.take(0)))));
        }
        while slot < n
            invariant
                self.wf(),
                all == self@.slots,
                n == all.len(),
                slot <= n,
                out@ == before + joined(scale_parts(live_slots(all.take(slot as int)))),
            decreases n - slot,
        {
            let ghost rest = live_slots(all.take(slot as int));
            let ghost now = out@;
            proof {
                lemma_live_step(all, slot as int);
            }
            if self.slot_alive(slot) {
                let ghost x = le16(half_of(all[slot as int].scale));
                push_u16(out, f32_to_f16_bits(self.slot_scale(slot)));
                proof {
                    assert(scale_parts(rest.push(all[slot as int])) =~= scale_parts(rest).push(x));
                    lemma_joined_push(scale_parts(rest), x);
                    assert(before + (joined(scale_parts(rest)) + x) =~= now + x);
                }
            }
            slot = slot + 1;
        }
        proof {
            assert(all.take(all.len() as int) =~= all);
        }
    }

    /// Append the codes of the live slots.
    fn push_codes(&self, out: &mut Vec<u8>)
        requires
            self.wf(),
        ensures
            final(out)@ == old(out)@ + joined(code_parts(live_slots(self@.slots))),
    {
        let ghost all = self@.slots;
        let ghost before = out@;
        let n: usize = self.slots();
        let mut slot: usize = 0;
        proof {
            assert(code_parts(live_slots(all.take(0))) =~= Seq::empty());
            assert(out@ =~= before + joined(code_parts(live_slots(all.take(0)))));
        }
        while slot < n
            invariant
                self.wf(),
                all == self@.slots,
                n == all.len(),
                slot <= n,
                out@ == before + joined(code_parts(live_slots(all.take(slot as int)))),
            decreases n - slot,
        {
            let ghost rest = live_slots(all.take(slot as int));
            let ghost now = out@;
            proof {
                lemma_live_step(all, slot as int);
            }
            if self.slot_alive(slot) {
                let ghost x = all[slot as int].codes;
                push_bytes(out, self.slot_codes(slot));
                proof {
                    assert(code_parts(rest.push(all[slot as int])) =~= code_parts(rest).push(x));
                    lemma_joined_push(code_parts(rest), x);
                    assert(before + (joined(code_parts(rest)) + x) =~= now + x);
                }
            }
            slot = slot + 1;
        }
        proof {
            assert(all.take(all.len() as int) =~= all);
        }
    }

    /// Append the scales of the second pass of the live slots.
    fn push_scales2(&self, out: &mut Vec<u8>)
        requires
            self.wf(),
            self@.residual,
        ensures
            final(out)@ == old(out)@ + joined(scale2_parts(live_slots(self@.slots))),
    {
        let ghost all = self@.slots;
        let ghost before = out@;
        let n: usize = self.slots();
        let mut slot: usize = 0;
        proof {
            assert(scale2_parts(live_slots(all.take(0))) =~= Seq::empty());
            assert(out@ =~= before + joined(scale2_parts(live_slots(all.take(0)))));
        }
        while slot < n
            invariant
                self.wf(),
                self@.residual,
                all == self@.slots,
                n == all.len(),
                slot <= n,
                out@ == before + joined(scale2_parts(live_slots(all.take(slot as int)))),
            decreases n - slot,
        {
            let ghost rest = live_slots(all.take(slot as int));
            let ghost now = out@;
            proof {
                lemma_live_step(all, slot as int);
            }
            if self.slot_alive(slot) {
                let ghost x = le16(half_of(all[slot as int].scale2));
                push_u16(out, f32_to_f16_bits(self.slot_scale2(slot)));
                proof {
                    assert(scale2_parts(rest.push(all[slot as int])) =~= scale2_parts(rest).push(
                        x,
                    ));
                    lemma_joined_push(scale2_parts(rest), x);
                    assert(before + (joined(scale2_parts(rest)) + x) =~= now + x);
                }
            }
            slot = slot + 1;
        }
        proof {
            assert(all.take(all.len() as int) =~= all);
        }
    }

    /// Append the codes of the second pass of the live slots.
    fn push_codes2(&self, out: &mut Vec<u8>)
        requires
            self.wf(),
            self@.residual,
        ensures
            final(out)@ == old(out)@ + joined(code2_parts(live_slots(self@.slots))),
    {
        let ghost all = self@.slots;
        let ghost before = out@;
        let n: usize = self.slots();
        let mut slot: usize = 0;
        proof {
            assert(code2_parts(live_slots(all.take(0))) =~= Seq::empty());
            assert(out@ =~= before + joined(code2_parts(live_slots(all.take(0)))));
        }
        while slot < n
            invariant
                self.wf(),
                self@.residual,
                all == self@.slots,
                n == all.len(),
                slot <= n,
                out@ == before + joined(code2_parts(live_slots(all.take(slot as int)))),
            decreases n - slot,
        {
            let ghost rest = live_slots(all.take(slot as int));
            let ghost now = out@;
            proof {
                lemma_live_step(all, slot as int);
            }
            if self.slot_alive(slot) {
                let ghost x = all[slot as int].codes2;
                push_bytes(out, self.slot_codes2(slot));
                proof {
                    assert(code2_parts(rest.push(all[slot as int])) =~= code2_parts(rest).push(x));
                    lemma_joined_push(code2_parts(rest), x);
                    assert(before + (joined(code2_parts(rest)) + x) =~= now + x);
                }
            }
            slot = slot + 1;
        }
        proof {
            assert(all.take(all.len() as int) =~= all);
        }
    }

    /// Append the keyed-slot table. Its slots are positions among the live
    /// slots, which are those of the index that is read back.
    fn push_table(&self, out: &mut Vec<u8>)
        requires
            self.wf(),
            storable(self@),
        ensures
            final(out)@ == old(out)@ + table_of(live_slots(self@.slots)),
    {
        let ghost all = self@.slots;
        let ghost before = out@;
        let n: usize = self.slots();
        let mut table: Vec<u8> = Vec::new();
        let mut entries: usize = 0;
        let mut dense: usize = 0;
        let mut slot: usize = 0;
        proof {
            assert(table@ =~= joined(table_parts(live_slots(all.take(0)))));
        }
        while slot < n
            invariant
                self.wf(),
                storable(self@),
                all == self@.slots,
                n == all.len(),
                entries <= dense <= slot <= n,
                dense == live_slots(all.take(slot as int)).len(),
                entries == table_parts(live_slots(all.take(slot as int))).len(),
                table@ == joined(table_parts(live_slots(all.take(slot as int)))),
            decreases n - slot,
        {
            let ghost rest = live_slots(all.take(slot as int));
            proof {
                lemma_live_prefix(all, slot as int);
                lemma_live_step(all, slot as int);
                assert(rest.push(all[slot as int]).drop_last() =~= rest);
            }
            if self.slot_alive(slot) {
                match self.key_of(slot) {
                    Some(key) => {
                        let ghost x = le32(dense as u32) + le64(key);
                        let ghost now = table@;
                        push_u32(&mut table, dense as u32);
                        push_u64(&mut table, key);
                        entries = entries + 1;
                        proof {
                            lemma_joined_push(table_parts(rest), x);
                            assert(table@ =~= now + x);
                        }
                    },
                    None => {},
                }
                dense = dense + 1;
            }
            slot = slot + 1;
        }
        proof {
            assert(all.take(all.len() as int) =~= all);
        }
        push_u32(out, entries as u32);
        push_bytes(out, table.as_slice());
        proof {
            assert(all.take(all.len() as int) =~= all);
            assert(out@ =~= before + table_of(live_slots(all)));
        }
    }

    /// Serialize the index. Removed slots are skipped: the output holds the live
    /// vectors in slot order, so that a round trip has the effect of a
    /// compaction without disturbing the slots in memory. Keys of live slots
    /// are stored, and restored when the bytes are read back. The numbers of the
    /// index have to fit into the fields of the file.
    pub fn to_bytes(&self) -> (r: Vec<u8>)
        requires
            self.wf(),
            storable(self@),
        ensures
            r@ == file_of(self@),
    {
        let mut out: Vec<u8> = Vec::new();
        self.push_header(&mut out);
        self.push_scales(&mut out);
        self.push_codes(&mut out);
        if self.is_residual() {
            self.push_scales2(&mut out);
            self.push_codes2(&mut out);
        }
        self.push_table(&mut out);
        proof {
            assert(out@ =~= file_of(self@));
        }
        out
    }
}

} // verus!
