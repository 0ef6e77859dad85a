//! Laws of the file format, byte by byte: what each byte of a written file is, what
//! the loader makes of each byte that it reads, and which bytes it accepts.

use vstd::prelude::*;

use crate::bytes::{u16_at, u32_at, u64_at};
use crate::codes::lemma_piece;
use crate::format::{
    codes2_at, codes_at, codes_end, file_bits, file_code_len, file_count, file_dim, file_of,
    file_residual, file_seed, file_slot, file_version, file_working_dim, has_table, loaded,
    scale_len, scales_at, storable, table_at, table_entries, table_keys, Error,
};
use crate::half::{half_of, single_of};
use crate::reload::{
    lemma_header, lemma_keyed_has_entry, lemma_live_fit, lemma_no_flaw, lemma_slot_reads,
    lemma_table_entry, lemma_written_scales,
};
use crate::rhdh::padded_len;
use crate::state::{live_slots, IndexState};

verus! {

/// The number in two bytes, the lower one first.
pub open spec fn number16(b: Seq<u8>, i: int) -> int {
    b[i] + 256 * b[i + 1]
}

/// The number in four bytes, the lowest one first.
pub open spec fn number32(b: Seq<u8>, i: int) -> int {
    b[i] + 256 * b[i + 1] + 65536 * b[i + 2] + 16777216 * b[i + 3]
}

/// The number in eight bytes, the lowest one first.
pub open spec fn number64(b: Seq<u8>, i: int) -> int {
    number32(b, i) + 4294967296 * number32(b, i + 4)
}

/// Numbers in files have their lowest byte first.
pub proof fn law_lowest_byte_first(b: Seq<u8>, i: int)
    ensures
        u16_at(b, i) == number16(b, i),
        u32_at(b, i) == number32(b, i),
        u64_at(b, i) == number64(b, i),
{
    reveal(u16_at);
    reveal(u32_at);
    reveal(u64_at);
}

/// The version of a file.
pub open spec fn version(b: Seq<u8>) -> int {
    number16(b, 4)
}

/// The working dimension of a file: from version 1.2 on its own field has it, unless
/// that is zero.
pub open spec fn working_dim(b: Seq<u8>) -> int {
    if version(b) >= 258 && number16(b, 6) != 0 {
        number16(b, 6)
    } else {
        number32(b, 8)
    }
}

/// The code width of a file: from version 1.5 on a byte behind the header has it.
pub open spec fn width(b: Seq<u8>) -> int {
    if version(b) == 261 {
        b[24] as int
    } else {
        4
    }
}

/// Bytes of codes per vector, for a padded dimension.
pub open spec fn code_bytes(b: Seq<u8>, padded: int) -> int {
    if width(b) == 4 {
        padded / 2
    } else {
        (padded * width(b) + 7) / 8
    }
}

/// Where the vectors start.
pub open spec fn vectors_at(b: Seq<u8>) -> int {
    if version(b) == 261 {
        25
    } else {
        24
    }
}

/// Bytes of a scale of the first pass.
pub open spec fn scale_bytes(b: Seq<u8>) -> int {
    if version(b) == 1 {
        4
    } else {
        2
    }
}

/// Where the keyed-slot table starts, for a number of code bytes per vector.
pub open spec fn keys_at(b: Seq<u8>, w: int) -> int {
    let n = number32(b, 20);
    vectors_at(b) + n * (scale_bytes(b) + w) + if version(b) == 260 {
        n * (2 + w)
    } else {
        0
    }
}

/// What the loader takes the places of a file to be.
proof fn lemma_same_places(b: Seq<u8>)
    ensures
        file_version(b) == version(b),
        file_dim(b) == number32(b, 8),
        file_working_dim(b) == working_dim(b),
        file_seed(b) == number64(b, 12),
        file_count(b) == number32(b, 20),
        file_bits(b) == width(b),
        file_residual(b) == (version(b) == 260),
        has_table(b) == (version(b) >= 259),
        file_code_len(b) == code_bytes(b, padded_len(working_dim(b) as nat) as int),
        scale_len(b) == scale_bytes(b),
        scales_at(b) == vectors_at(b),
        codes_at(b) == vectors_at(b) + number32(b, 20) * scale_bytes(b),
        codes_end(b) == vectors_at(b) + number32(b, 20) * (scale_bytes(b) + file_code_len(b)),
        version(b) == 260 ==> codes2_at(b) == codes_end(b) + 2 * number32(b, 20),
        table_at(b) == keys_at(b, file_code_len(b) as int),
        table_entries(b) == number32(b, keys_at(b, file_code_len(b) as int)),
{
    law_lowest_byte_first(b, 4);
    law_lowest_byte_first(b, 6);
    law_lowest_byte_first(b, 8);
    law_lowest_byte_first(b, 12);
    law_lowest_byte_first(b, 20);
    let n = number32(b, 20);
    let w = file_code_len(b) as int;
    let s = scale_bytes(b);
    assert(n * (s + w) == n * s + n * w && n * (2 + w) == 2 * n + n * w) by (nonlinear_arith);
    law_lowest_byte_first(b, keys_at(b, w));
}

/// Entry `e` of the keyed-slot table at `t`: the slot that it names.
pub open spec fn entry_slot(b: Seq<u8>, t: int, e: int) -> int {
    number32(b, t + 4 + 12 * e)
}

/// Entry `e` of the keyed-slot table at `t`: the key that it gives.
pub open spec fn entry_key(b: Seq<u8>, t: int, e: int) -> int {
    number64(b, t + 4 + 12 * e + 4)
}

/// The first `m` entries of a table name slots below `n`, each at most once.
pub open spec fn names_each_once(b: Seq<u8>, t: int, m: int, n: int) -> bool {
    &&& forall|e: int| 0 <= e < m ==> (#[trigger] entry_slot(b, t, e)) < n
    &&& forall|d: int, e: int|
        0 <= d < e < m ==> #[trigger] entry_slot(b, t, d) != #[trigger] entry_slot(b, t, e)
}

/// Slot `i` is named by none of the first `m` entries.
pub open spec fn is_unnamed(b: Seq<u8>, t: int, m: int, i: int) -> bool {
    forall|e: int| 0 <= e < m ==> #[trigger] entry_slot(b, t, e) != i
}

proof fn lemma_keys(b: Seq<u8>, m: nat)
    ensures
        ({
            let t = table_at(b) as int;
            let n = file_count(b) as int;
            &&& table_keys(b, m) is Some <==> names_each_once(b, t, m as int, n)
            &&& table_keys(b, m) matches Some(keys) ==> {
                &&& keys.len() == n
                &&& forall|e: int|
                    0 <= e < m ==> keys[#[trigger] entry_slot(b, t, e)] is Some && keys[entry_slot(
                        b,
                        t,
                        e,
                    )]->0 == entry_key(b, t, e)
                &&& forall|i: int|
                    0 <= i < n && is_unnamed(b, t, m as int, i) ==> #[trigger] keys[i] is None
            }
        }),
    decreases m,
{
    let t = table_at(b) as int;
    let n = file_count(b) as int;
    if m > 0 {
        let e = m - 1;
        lemma_keys(b, e as nat);
        law_lowest_byte_first(b, t + 4 + 12 * e);
        law_lowest_byte_first(b, t + 4 + 12 * e + 4);
        let slot = entry_slot(b, t, e);
        assert(slot >= 0);
        match table_keys(b, e as nat) {
            None => {
                if names_each_once(b, t, m as int, n) {
                    assert(names_each_once(b, t, e, n));
                }
            },
            Some(keys) => {
                if slot < n && keys[slot] is Some {
                    if is_unnamed(b, t, e, slot) {
                        assert(keys[slot] is None);
                    }
                    let d = choose|d: int| 0 <= d < e && #[trigger] entry_slot(b, t, d) == slot;
                    assert(entry_slot(b, t, d) == entry_slot(b, t, e));
                    assert(!names_each_once(b, t, m as int, n));
                } else if slot < n {
                    assert forall|d: int, c: int|
                        0 <= d < c < m implies #[trigger] entry_slot(b, t, d)
                        != #[trigger] entry_slot(b, t, c) by {
                        if c == e {
                            assert(keys[entry_slot(b, t, d)] is Some);
                        }
                    }
                    assert(names_each_once(b, t, m as int, n));
                    let now = table_keys(b, m)->0;
                    assert forall|c: int| 0 <= c < m implies now[#[trigger] entry_slot(
                        b,
                        t,
                        c,
                    )] is Some && now[entry_slot(b, t, c)]->0 == entry_key(b, t, c) by {
                        if c < e {
                            assert(keys[entry_slot(b, t, c)] is Some);
                        }
                    }
                    assert forall|i: int| 0 <= i < n && is_unnamed(b, t, m as int, i) implies
                        #[trigger] now[i] is None by {
                        assert(entry_slot(b, t, e) != i);
                        assert(is_unnamed(b, t, e, i));
                        assert(keys[i] is None);
                    }
                } else {
                    assert(!(entry_slot(b, t, e) < n));
                }
            },
        }
    }
}

/// A file whose header can be read and whose parts lie within it, up to what the
/// keyed-slot table names.
pub open spec fn is_whole(b: Seq<u8>) -> bool {
    let w = code_bytes(b, padded_len(working_dim(b) as nat) as int);
    let t = keys_at(b, w);
    &&& b.len() >= vectors_at(b)
    &&& 1 <= working_dim(b) <= number32(b, 8)
    &&& working_dim(b) <= usize::MAX / 16 + 1
    &&& 4 <= width(b) <= 6
    &&& b.len() >= t
    &&& version(b) >= 259 ==> b.len() >= t + 4 && b.len() >= t + 4 + 12 * number32(b, t)
}

/// Which bytes the loader accepts: those that start with the four letters, have a
/// version that is known and dimensions and a width in range, end no earlier than
/// their parts, and name each slot at most once.
pub proof fn law_accepted_bytes(b: Seq<u8>)
    ensures
        loaded(b) is Ok <==> {
            let w = code_bytes(b, padded_len(working_dim(b) as nat) as int);
            let t = keys_at(b, w);
            &&& b.len() >= 24
            &&& b[0] == 0x56 && b[1] == 0x45 && b[2] == 0x43 && b[3] == 0x51
            &&& version(b) == 1 || 257 <= version(b) <= 261
            &&& is_whole(b)
            &&& version(b) >= 259 ==> names_each_once(b, t, number32(b, t), number32(b, 20))
        },
{
    lemma_same_places(b);
    law_lowest_byte_first(b, 0);
    lemma_keys(b, table_entries(b));
    let n = number32(b, 20);
    let w = file_code_len(b) as int;
    assert(0 <= n * (2 + w) && 0 <= n * (scale_bytes(b) + w)) by (nonlinear_arith)
        requires
            0 <= n,
            0 <= w,
            0 <= scale_bytes(b),
    ;
}

/// What the loader finds wrong, in the order in which it looks: too few bytes for a
/// header, the letters, the version, a working dimension above the dimension, the
/// width, the length of the vectors, no dimension, the length of a second pass and of
/// the table, and the slots that the table names.
pub proof fn law_load_errors(b: Seq<u8>)
    ensures
        ({
            let w = code_bytes(b, padded_len(working_dim(b) as nat) as int);
            let n = number32(b, 20);
            let t = keys_at(b, w);
            let letters = b[0] == 0x56 && b[1] == 0x45 && b[2] == 0x43 && b[3] == 0x51;
            let known = version(b) == 1 || 257 <= version(b) <= 261;
            let fits = working_dim(b) <= number32(b, 8) && working_dim(b) <= usize::MAX / 16 + 1;
            let head = b.len() >= vectors_at(b);
            let wide = 4 <= width(b) <= 6;
            let vectors = b.len() >= vectors_at(b) + n * (scale_bytes(b) + w);
            &&& b.len() < 24 ==> loaded(b) == Err::<IndexState, Error>(Error::Truncated)
            &&& b.len() >= 24 && !letters ==> loaded(b) == Err::<IndexState, Error>(
                Error::NotAStableFile,
            )
            &&& b.len() >= 24 && letters && !known ==> loaded(b) == Err::<IndexState, Error>(
                Error::UnsupportedVersion(version(b) as u16),
            )
            &&& b.len() >= 24 && letters && known && (!fits || (head && wide && vectors
                && working_dim(b) == 0)) ==> loaded(b) == Err::<IndexState, Error>(
                Error::InvalidWorkingDim {
                    dim: number32(b, 8) as usize,
                    working_dim: working_dim(b) as usize,
                },
            )
            &&& b.len() >= 24 && letters && known && fits && !head ==> loaded(b) == Err::<
                IndexState,
                Error,
            >(Error::Truncated)
            &&& b.len() >= 24 && letters && known && fits && head && !wide ==> loaded(b) == Err::<
                IndexState,
                Error,
            >(Error::InvalidWidth { width: width(b) as u8 })
            &&& b.len() >= 24 && letters && known && fits && head && wide && !vectors ==> loaded(b)
                == Err::<IndexState, Error>(Error::Truncated)
            &&& b.len() >= 24 && letters && known && fits && head && wide && vectors && working_dim(
                b,
            ) >= 1 && !is_whole(b) ==> loaded(b) == Err::<IndexState, Error>(Error::Truncated)
            &&& b.len() >= 24 && letters && known && is_whole(b) && version(b) >= 259
                && !names_each_once(b, t, number32(b, t), n) ==> loaded(b) == Err::<
                IndexState,
                Error,
            >(Error::InvalidKeyTable)
        }),
{
    lemma_same_places(b);
    law_lowest_byte_first(b, 0);
    lemma_keys(b, table_entries(b));
    let n = number32(b, 20);
    let w = file_code_len(b) as int;
    assert(0 <= n * (2 + w) && 0 <= n * (scale_bytes(b) + w)) by (nonlinear_arith)
        requires
            0 <= n,
            0 <= w,
            0 <= scale_bytes(b),
    ;
}

/// What the loader makes of a file: the numbers of the header, and for every vector
/// its scale, its codes, and what the keyed-slot table says of it.
pub proof fn law_loaded_index(b: Seq<u8>)
    requires
        loaded(b) is Ok,
    ensures
        ({
            let st = loaded(b)->Ok_0;
            &&& st.dim == number32(b, 8)
            &&& st.working_dim == working_dim(b)
            &&& st.seed == number64(b, 12)
            &&& st.bits == width(b)
            &&& st.residual == (version(b) == 260)
            &&& st.slots.len() == number32(b, 20)
            &&& st.code_len() == code_bytes(b, padded_len(working_dim(b) as nat) as int)
        }),
{
    lemma_same_places(b);
    lemma_keys(b, table_entries(b));
}

/// The parts of vector `i` of a file: one scale after the other, then the codes of one
/// vector after the other, then the same of a second pass.
pub proof fn law_loaded_vector(b: Seq<u8>, i: int, j: int)
    requires
        loaded(b) is Ok,
        0 <= i < loaded(b)->Ok_0.slots.len(),
        0 <= j < loaded(b)->Ok_0.code_len(),
    ensures
        ({
            let st = loaded(b)->Ok_0;
            let s = st.slots[i];
            let n = number32(b, 20);
            let w = st.code_len() as int;
            let second = vectors_at(b) + n * (scale_bytes(b) + w);
            &&& s.alive
            &&& s.codes.len() == w
            &&& s.codes[j] == b[vectors_at(b) + n * scale_bytes(b) + i * w + j]
            &&& version(b) != 260 ==> s.codes2.len() == 0 && s.scale2 == 0
            &&& version(b) == 260 ==> s.codes2.len() == w && s.codes2[j] == b[second + 2 * n + i * w
                + j]
        }),
{
    lemma_same_places(b);
    lemma_keys(b, table_entries(b));
    let st = loaded(b)->Ok_0;
    let n = number32(b, 20);
    let w = file_code_len(b) as int;
    let s = scale_bytes(b);
    assert(n * (s + w) == n * s + n * w && n * (2 + w) == 2 * n + n * w && 0 <= n * w && 0 <= n * s)
        by (nonlinear_arith)
        requires
            0 <= n,
            0 <= w,
            0 <= s,
    ;
    lemma_piece(i, n, w as nat);
    assert(st.slots[i].codes == file_slot(b, i).codes);
}

/// The scales of vector `i` of a file.
pub proof fn law_loaded_scales(b: Seq<u8>, i: int)
    requires
        loaded(b) is Ok,
        0 <= i < loaded(b)->Ok_0.slots.len(),
    ensures
        ({
            let st = loaded(b)->Ok_0;
            let n = number32(b, 20);
            let w = st.code_len() as int;
            let second = vectors_at(b) + n * (scale_bytes(b) + w);
            &&& version(b) == 1 ==> st.slots[i].scale == number32(b, 24 + 4 * i)
            &&& version(b) != 1 ==> st.slots[i].scale == single_of(
                number16(b, vectors_at(b) + 2 * i) as u16,
            )
            &&& version(b) == 260 ==> st.slots[i].scale2 == single_of(
                number16(b, second + 2 * i) as u16,
            )
            &&& version(b) != 260 ==> st.slots[i].scale2 == 0
        }),
{
    lemma_same_places(b);
    lemma_keys(b, table_entries(b));
    law_lowest_byte_first(b, vectors_at(b) + 4 * i);
    law_lowest_byte_first(b, vectors_at(b) + 2 * i);
    law_lowest_byte_first(b, codes_end(b) + 2 * i);
    assert(loaded(b)->Ok_0.slots[i].scale == file_slot(b, i).scale);
}

/// The keys of a file: every entry of its table gives its key to the slot that it
/// names; a slot that none names has no key, and before version 1.3 none has one.
pub proof fn law_loaded_keys(b: Seq<u8>, i: int, e: int)
    requires
        loaded(b) is Ok,
        0 <= i < loaded(b)->Ok_0.slots.len(),
    ensures
        ({
            let st = loaded(b)->Ok_0;
            let t = keys_at(b, st.code_len() as int);
            let m = number32(b, t);
            &&& version(b) < 259 ==> st.slots[i].key is None
            &&& version(b) >= 259 && is_unnamed(b, t, m, i) ==> st.slots[i].key is None
            &&& version(b) >= 259 && 0 <= e < m && entry_slot(b, t, e) == i ==> st.slots[i].key
                is Some && st.slots[i].key->0 == entry_key(b, t, e)
        }),
{
    lemma_same_places(b);
    lemma_keys(b, table_entries(b));
    let st = loaded(b)->Ok_0;
    let t = table_at(b) as int;
    if version(b) >= 259 {
        let keys = table_keys(b, table_entries(b))->0;
        assert(st.slots[i].key == keys[i]);
        if 0 <= e < number32(b, t) && entry_slot(b, t, e) == i {
            assert(keys[entry_slot(b, t, e)] is Some);
        }
    } else {
        assert(st.slots[i].key == file_slot(b, i).key);
    }
}

/// The header of a written file: the letters `VECQ`, the version, the working
/// dimension where it is not the dimension, the dimension, the seed, the number of
/// live vectors, and the width where it is not four.
pub proof fn law_written_header(st: IndexState)
    requires
        st.valid(),
        storable(st),
    ensures
        ({
            let b = file_of(st);
            &&& b[0] == 0x56 && b[1] == 0x45 && b[2] == 0x43 && b[3] == 0x51
            &&& version(b) == if st.residual {
                260int
            } else if st.bits == 4 {
                259
            } else {
                261
            }
            &&& number16(b, 6) == if st.working_dim == st.dim {
                0
            } else {
                st.working_dim as int
            }
            &&& number32(b, 8) == st.dim
            &&& number64(b, 12) == st.seed
            &&& number32(b, 20) == live_slots(st.slots).len()
            &&& st.bits != 4 ==> b[24] == st.bits
        }),
{
    let b = file_of(st);
    lemma_header(st);
    lemma_same_places(b);
    law_lowest_byte_first(b, 0);
    law_lowest_byte_first(b, 6);
}

/// The scales of a written file: those of the live slots, in half precision, one after
/// the other behind the header; those of a second pass behind the codes.
pub proof fn law_written_scales(st: IndexState, i: int)
    requires
        st.valid(),
        storable(st),
        0 <= i < live_slots(st.slots).len(),
    ensures
        ({
            let b = file_of(st);
            let s = live_slots(st.slots)[i];
            let n = live_slots(st.slots).len() as int;
            let w = st.code_len() as int;
            let first = if st.bits == 4 {
                24int
            } else {
                25
            };
            &&& number16(b, first + 2 * i) == half_of(s.scale)
            &&& st.residual ==> number16(b, 24 + n * (2 + w) + 2 * i) == half_of(s.scale2)
        }),
{
    let b = file_of(st);
    lemma_header(st);
    lemma_same_places(b);
    lemma_written_scales(st, i);
    law_lowest_byte_first(b, scales_at(b) + 2 * i);
    law_lowest_byte_first(b, codes_end(b) + 2 * i);
}

/// The codes of a written file: those of the live slots, one vector after the other
/// behind the scales; those of a second pass behind its scales.
pub proof fn law_written_codes(st: IndexState, i: int, j: int)
    requires
        st.valid(),
        storable(st),
        0 <= i < live_slots(st.slots).len(),
        0 <= j < st.code_len(),
    ensures
        ({
            let b = file_of(st);
            let s = live_slots(st.slots)[i];
            let n = live_slots(st.slots).len() as int;
            let w = st.code_len() as int;
            let first = if st.bits == 4 {
                24int
            } else {
                25
            };
            &&& s.codes.len() == w
            &&& b[first + 2 * n + i * w + j] == s.codes[j]
            &&& st.residual ==> s.codes2.len() == w && b[24 + n * (2 + w) + 2 * n + i * w + j]
                == s.codes2[j]
        }),
{
    let b = file_of(st);
    let live = live_slots(st.slots);
    let n = live.len() as int;
    let w = st.code_len() as int;
    lemma_header(st);
    lemma_no_flaw(st);
    lemma_same_places(b);
    lemma_slot_reads(st, i);
    lemma_live_fit(st, st.slots);
    assert(st.fits(live[i]));
    lemma_read_codes(b, i, j, n, w);
    assert(scale_bytes(b) == 2);
    assert(codes_at(b) == scales_at(b) + 2 * n);
    assert(file_slot(b, i).codes == live[i].codes);
    if st.residual {
        assert(scales_at(b) == 24);
        assert(codes2_at(b) == 24 + n * (2 + w) + 2 * n);
        assert(file_slot(b, i).codes2 == live[i].codes2);
    }
}

/// A byte of codes of a file.
proof fn lemma_read_codes(b: Seq<u8>, i: int, j: int, n: int, w: int)
    requires
        file_count(b) == n,
        file_code_len(b) == w,
        0 <= i < n,
        0 <= j < w,
        table_at(b) <= b.len(),
    ensures
        file_slot(b, i).codes[j] == b[codes_at(b) + i * w + j],
        file_residual(b) ==> file_slot(b, i).codes2[j] == b[codes2_at(b) + i * w + j],
{
    lemma_piece(i, n, w as nat);
    assert(0 <= n * w) by (nonlinear_arith)
        requires
            0 <= n,
            0 <= w,
    ;
}

/// The keyed-slot table of a written file ends it. It has an entry for every live slot
/// with a key, by its place among the live slots, in increasing order.
pub proof fn law_written_table(st: IndexState, e: int)
    requires
        st.valid(),
        storable(st),
        0 <= e,
    ensures
        ({
            let b = file_of(st);
            let live = live_slots(st.slots);
            let t = keys_at(b, st.code_len() as int);
            let m = number32(b, t);
            &&& b.len() == t + 4 + 12 * m
            &&& e < m ==> entry_slot(b, t, e) < live.len() && live[entry_slot(b, t, e)].key is Some
                && live[entry_slot(b, t, e)].key->0 == entry_key(b, t, e)
            &&& e + 1 < m ==> entry_slot(b, t, e) < entry_slot(b, t, e + 1)
            &&& forall|i: int|
                0 <= i < live.len() && (#[trigger] live[i]).key is Some ==> exists|d: int|
                    0 <= d < m && #[trigger] entry_slot(b, t, d) == i
        }),
{
    let b = file_of(st);
    let live = live_slots(st.slots);
    lemma_header(st);
    lemma_no_flaw(st);
    lemma_same_places(b);
    let t = table_at(b) as int;
    let m = number32(b, t);
    if e < m {
        lemma_table_entry(b, live, e);
        law_lowest_byte_first(b, t + 4 + 12 * e);
        law_lowest_byte_first(b, t + 4 + 12 * e + 4);
    }
    if e + 1 < m {
        lemma_table_entry(b, live, e + 1);
        law_lowest_byte_first(b, t + 4 + 12 * (e + 1));
    }
    assert forall|i: int| 0 <= i < live.len() && (#[trigger] live[i]).key is Some implies exists|
        d: int,
    |
        0 <= d < m && #[trigger] entry_slot(b, t, d) == i by {
        let d = lemma_keyed_has_entry(live, i);
        lemma_table_entry(b, live, d);
        law_lowest_byte_first(b, t + 4 + 12 * d);
        assert(entry_slot(b, t, d) == i);
    }
}

} // verus!
