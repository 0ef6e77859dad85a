//! Files that are cut short, and files of older versions.

use vstd::prelude::*;

use crate::answers::{law_keys_do_not_matter, same_but_for_keys};
use crate::arith::Meaning;
use crate::bytes::{law_read_u16, le16, lemma_le_lengths, u16_at, u32_at, u64_at};
use crate::format::{
    codes_at, codes_end, file_bits, file_code_len, file_count, file_dim, file_of, file_slot,
    file_state, file_version, file_working_dim, flaw, load_flaw, loaded, scales_at, storable,
    table_at, table_entries, version_of, Error, MAGIC, V1_1, V1_2, V1_3,
};
use crate::reload::{law_reload, lemma_header, lemma_no_flaw, lemma_places};
use crate::state::{answer, IndexState, Slot};
use crate::view::viewed;

verus! {

/// What stands in two byte sequences alike reads alike.
proof fn lemma_reads_alike(a: Seq<u8>, b: Seq<u8>, i: int, j: int, n: int)
    requires
        0 <= i,
        0 <= j,
        i + n <= a.len(),
        j + n <= b.len(),
        a.subrange(i, i + n) == b.subrange(j, j + n),
    ensures
        n == 2 ==> u16_at(a, i) == u16_at(b, j),
        n == 4 ==> u32_at(a, i) == u32_at(b, j),
        n == 8 ==> u64_at(a, i) == u64_at(b, j),
{
    reveal(u16_at);
    reveal(u32_at);
    reveal(u64_at);
    let x = a.subrange(i, i + n);
    let y = b.subrange(j, j + n);
    if n == 2 || n == 4 || n == 8 {
        assert(a[i] == x[0] && b[j] == y[0] && a[i + 1] == x[1] && b[j + 1] == y[1]);
    }
    if n == 4 || n == 8 {
        assert(a[i + 2] == x[2] && b[j + 2] == y[2] && a[i + 3] == x[3] && b[j + 3] == y[3]);
    }
    if n == 8 {
        assert(a[i + 4] == x[4] && b[j + 4] == y[4] && a[i + 4 + 1] == x[5] && b[j + 4 + 1] == y[5]);
        assert(a[i + 4 + 2] == x[6] && b[j + 4 + 2] == y[6] && a[i + 4 + 3] == x[7] && b[j + 4 + 3]
            == y[7]);
    }
}

/// A cut behind the header leaves its fields.
proof fn lemma_cut_header(b: Seq<u8>, n: int)
    requires
        24 <= n <= b.len(),
    ensures
        ({
            let c = b.take(n);
            &&& c.len() == n
            &&& u32_at(c, 0) == u32_at(b, 0)
            &&& file_version(c) == file_version(b)
            &&& file_dim(c) == file_dim(b)
            &&& file_working_dim(c) == file_working_dim(b)
            &&& file_count(c) == file_count(b)
            &&& n > 24 ==> file_bits(c) == file_bits(b)
        }),
{
    let c = b.take(n);
    assert(c.subrange(0, 4) =~= b.subrange(0, 4));
    assert(c.subrange(4, 6) =~= b.subrange(4, 6));
    assert(c.subrange(6, 8) =~= b.subrange(6, 8));
    assert(c.subrange(8, 12) =~= b.subrange(8, 12));
    assert(c.subrange(20, 24) =~= b.subrange(20, 24));
    lemma_reads_alike(c, b, 0, 0, 4);
    lemma_reads_alike(c, b, 4, 4, 2);
    lemma_reads_alike(c, b, 6, 6, 2);
    lemma_reads_alike(c, b, 8, 8, 4);
    lemma_reads_alike(c, b, 20, 20, 4);
}

/// A cut behind the header of a written file is found.
proof fn lemma_cut(st: IndexState, n: int)
    requires
        st.valid(),
        storable(st),
        24 <= n < file_of(st).len(),
    ensures
        ({
            let c = file_of(st).take(n);
            &&& c.len() == n
            &&& u32_at(c, 0) == MAGIC
            &&& file_version(c) == version_of(st)
            &&& flaw(c) == Some(Error::Truncated)
        }),
{
    let b = file_of(st);
    let c = b.take(n);
    lemma_header(st);
    lemma_no_flaw(st);
    lemma_places(st);
    lemma_cut_header(b, n);
    if n >= scales_at(b) {
        assert(file_bits(c) == file_bits(b));
        assert(file_code_len(c) == file_code_len(b));
        assert(codes_end(c) == codes_end(b));
        assert(table_at(c) == table_at(b));
        let t = table_at(b) as int;
        if n >= t + 4 {
            assert(c.subrange(t, t + 4) =~= b.subrange(t, t + 4));
            lemma_reads_alike(c, b, t, t, 4);
            assert(table_entries(c) == table_entries(b));
        }
    }
}

/// No file that is cut short loads: whether the cut falls into the header, the
/// scales, the codes or the keyed-slot table, the loader finds it truncated.
pub proof fn law_cut_files_do_not_load(st: IndexState, n: int)
    requires
        st.valid(),
        storable(st),
        0 <= n < file_of(st).len(),
    ensures
        loaded(file_of(st).take(n)) == Err::<IndexState, Error>(Error::Truncated),
{
    if n >= 24 {
        lemma_cut(st, n);
    }
}

/// No view accepts a file that is cut short: a cut in the header leaves no file,
/// and one behind it is found.
pub proof fn law_cut_files_have_no_view(st: IndexState, n: int)
    requires
        st.valid(),
        storable(st),
        0 <= n < file_of(st).len(),
    ensures
        viewed(file_of(st).take(n)) == Err::<IndexState, Error>(
            if n < 24 {
                Error::NotAStableFile
            } else {
                Error::Truncated
            },
        ),
{
    if n >= 24 {
        lemma_cut(st, n);
    }
}

/// Bytes that do not start with the four letters of the magic are no file, to the
/// loader and to a view.
pub proof fn law_other_magic_is_no_file(b: Seq<u8>)
    requires
        b.len() >= 24,
        b[0] != 0x56 || b[1] != 0x45 || b[2] != 0x43 || b[3] != 0x51,
    ensures
        loaded(b) == Err::<IndexState, Error>(Error::NotAStableFile),
        viewed(b) == Err::<IndexState, Error>(Error::NotAStableFile),
{
    reveal(u32_at);
}

/// A file with its version field set to another version.
pub open spec fn with_version(b: Seq<u8>, version: u16) -> Seq<u8> {
    b.take(4) + le16(version) + b.skip(6)
}

/// Setting the version changes no other field.
proof fn lemma_with_version(b: Seq<u8>, version: u16)
    requires
        b.len() >= 24,
    ensures
        ({
            let c = with_version(b, version);
            &&& c.len() == b.len()
            &&& u32_at(c, 0) == u32_at(b, 0)
            &&& u16_at(c, 4) == version
            &&& u16_at(c, 6) == u16_at(b, 6)
            &&& u32_at(c, 8) == u32_at(b, 8)
            &&& u64_at(c, 12) == u64_at(b, 12)
            &&& u32_at(c, 20) == u32_at(b, 20)
            &&& forall|i: int, j: int|
                6 <= i <= j <= b.len() ==> #[trigger] c.subrange(i, j) == b.subrange(i, j)
        }),
{
    lemma_le_lengths();
    let c = with_version(b, version);
    assert(c.subrange(0, 4) =~= b.subrange(0, 4));
    assert(c.subrange(4, 6) =~= le16(version));
    assert forall|i: int, j: int| 6 <= i <= j <= b.len() implies #[trigger] c.subrange(i, j)
        == b.subrange(i, j) by {
        assert(c.subrange(i, j) =~= b.subrange(i, j));
    }
    lemma_reads_alike(c, b, 0, 0, 4);
    law_read_u16(c, 4, version);
    assert(c.subrange(6, 8) == b.subrange(6, 8));
    assert(c.subrange(8, 12) == b.subrange(8, 12));
    assert(c.subrange(12, 20) == b.subrange(12, 20));
    assert(c.subrange(20, 24) == b.subrange(20, 24));
    lemma_reads_alike(c, b, 6, 6, 2);
    lemma_reads_alike(c, b, 8, 8, 4);
    lemma_reads_alike(c, b, 12, 12, 8);
    lemma_reads_alike(c, b, 20, 20, 4);
}

/// A plain file of four-bit codes that says it is of version 1.1 or 1.2 loads, to
/// the index that the current version gives but for the keys, of which those
/// versions have none; so it gives the same answers. Version 1.1 knows no working
/// dimension but the full one.
pub proof fn law_older_files_load(f: Meaning, st: IndexState, version: u16, q: Seq<u32>, k: nat)
    requires
        st.valid(),
        storable(st),
        version_of(st) == V1_3,
        version == V1_2 || (version == V1_1 && st.working_dim == st.dim),
    ensures
        ({
            let old = loaded(with_version(file_of(st), version));
            let new = loaded(file_of(st));
            &&& old is Ok && new is Ok
            &&& same_but_for_keys(new->Ok_0, old->Ok_0)
            &&& forall|i: int|
                0 <= i < old->Ok_0.slots.len() ==> (#[trigger] old->Ok_0.slots[i]).key is None
            &&& old->Ok_0.working_dim == st.working_dim
            &&& answer(f, old->Ok_0, q, k) == answer(f, new->Ok_0, q, k)
        }),
{
    let b = file_of(st);
    let c = with_version(b, version);
    lemma_header(st);
    lemma_no_flaw(st);
    lemma_places(st);
    law_reload(st);
    lemma_with_version(b, version);
    assert(file_working_dim(c) == file_working_dim(b));
    assert(codes_at(c) == codes_at(b));
    assert(codes_end(c) == codes_end(b));
    assert(load_flaw(c) is None);
    let old = loaded(c)->Ok_0;
    let new = loaded(b)->Ok_0;
    assert forall|i: int| 0 <= i < file_count(b) implies file_slot(c, i) == file_slot(b, i) by {
        let from = codes_at(b) as int;
        let to = codes_end(b) as int;
        assert(c.subrange(from, to) == b.subrange(from, to));
        let at = scales_at(b) + 2 * i;
        assert(c.subrange(at, at + 2) == b.subrange(at, at + 2));
        lemma_reads_alike(c, b, at, at, 2);
    }
    assert(old.slots =~= file_state(b).slots);
    assert forall|i: int| 0 <= i < new.slots.len() implies #[trigger] new.slots[i] == (Slot {
        key: new.slots[i].key,
        ..old.slots[i]
    }) by {
        assert(old.slots[i] == file_slot(b, i));
    }
    law_keys_do_not_matter(f, new, old, q, k);
}

} // verus!
