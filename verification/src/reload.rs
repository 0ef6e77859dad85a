//! What is read back from a file is what was written.

use vstd::prelude::*;

use crate::answers::{
    compacted, law_compaction_is_idempotent, lemma_dense, lemma_live_positions, live_positions,
};
use crate::arith::{Meaning, Op, ZERO};
use crate::bytes::{
    law_read_u16, law_read_u32, law_read_u64, le16, le32, le64, lemma_le_lengths, u16_at, u32_at,
    u64_at,
};
use crate::codes::{lemma_piece, piece};
use crate::format::{
    code2_parts, code_parts, codes2_at, codes_at, codes_end, file_bits, file_code_len, file_count,
    file_dim, file_of, file_seed, file_slot, file_state, file_version, file_working_dim, has_table,
    header_of, joined, load_flaw, loaded, scale2_parts, scale_parts, scales_at, second_pass_of,
    storable, table_at, table_entries, table_keys, table_of, table_parts, version_of, with_keys, Error, MAGIC,
    V1_5,
};
use crate::half::{half_of, law_encode_is_stable, law_round_trip, single_of, single_units};
use crate::score::raw_score;
use crate::state::{
    answer, lemma_padded_fits, live_slots, slot_score, slots_with_key, IndexState, Slot,
};
use crate::store::{lemma_live_bound, lemma_slots_with_key};

verus! {

/// A slot as a file keeps it: the scales are rounded to half precision.
pub open spec fn stored_slot(residual: bool, s: Slot) -> Slot {
    Slot {
        scale: single_of(half_of(s.scale)),
        scale2: if residual {
            single_of(half_of(s.scale2))
        } else {
            ZERO
        },
        ..s
    }
}

/// An index as a file keeps it: the live slots, in order.
pub open spec fn stored(st: IndexState) -> IndexState {
    st.with_slots(live_slots(st.slots).map_values(|s: Slot| stored_slot(st.residual, s)))
}

/// Parts of one length can be found again.
proof fn lemma_joined(parts: Seq<Seq<u8>>, w: nat)
    requires
        forall|i: int| 0 <= i < parts.len() ==> (#[trigger] parts[i]).len() == w,
    ensures
        joined(parts).len() == parts.len() * w,
        forall|i: int| 0 <= i < parts.len() ==> #[trigger] piece(joined(parts), w, i) == parts[i],
    decreases parts.len(),
{
    if parts.len() == 0 {
        assert(0 * w == 0);
    } else {
        let rest = parts.drop_last();
        lemma_joined(rest, w);
        let n = rest.len() as int;
        lemma_piece(n, n + 1, w);
        assert(joined(parts) == joined(rest) + parts.last());
        assert forall|i: int| 0 <= i < parts.len() implies #[trigger] piece(joined(parts), w, i)
            == parts[i] by {
            if i < n {
                lemma_piece(i, n, w);
                assert(piece(joined(parts), w, i) =~= piece(joined(rest), w, i));
                assert(rest[i] == parts[i]);
            } else {
                assert(piece(joined(parts), w, i) =~= parts.last());
            }
        }
    }
}

/// Live slots are alive, and have the shape of the slots they come from.
pub proof fn lemma_live_fit(st: IndexState, slots: Seq<Slot>)
    requires
        forall|i: int| 0 <= i < slots.len() ==> st.fits(#[trigger] slots[i]),
    ensures
        forall|i: int|
            0 <= i < live_slots(slots).len() ==> st.fits(#[trigger] live_slots(slots)[i])
                && live_slots(slots)[i].alive,
    decreases slots.len(),
{
    if slots.len() > 0 {
        let rest = slots.drop_last();
        assert forall|i: int| 0 <= i < rest.len() implies st.fits(#[trigger] rest[i]) by {
            assert(rest[i] == slots[i]);
        }
        assert(st.fits(slots[slots.len() - 1]));
        lemma_live_fit(st, rest);
    }
}

/// Every entry of a keyed-slot table takes twelve bytes.
proof fn lemma_table_lengths(slots: Seq<Slot>)
    ensures
        forall|i: int|
            0 <= i < table_parts(slots).len() ==> (#[trigger] table_parts(slots)[i]).len() == 12,
        table_parts(slots).len() <= slots.len(),
    decreases slots.len(),
{
    lemma_le_lengths();
    if slots.len() > 0 {
        lemma_table_lengths(slots.drop_last());
    }
}

/// The table of some leading slots starts the table of all.
proof fn lemma_table_prefix(slots: Seq<Slot>, m: int)
    requires
        0 <= m <= slots.len(),
    ensures
        table_parts(slots.take(m)).len() <= table_parts(slots).len(),
        forall|i: int|
            0 <= i < table_parts(slots.take(m)).len() ==> #[trigger] table_parts(slots.take(m))[i]
                == table_parts(slots)[i],
    decreases slots.len(),
{
    if m == slots.len() {
        assert(slots.take(m) =~= slots);
    } else {
        let rest = slots.drop_last();
        lemma_table_prefix(rest, m);
        assert(rest.take(m) =~= slots.take(m));
    }
}

/// An entry of a keyed-slot table reads back.
proof fn lemma_entry(b: Seq<u8>, at: int, slot: u32, key: u64)
    requires
        0 <= at,
        at + 12 <= b.len(),
        b.subrange(at, at + 12) == le32(slot) + le64(key),
    ensures
        u32_at(b, at) == slot,
        u64_at(b, at + 4) == key,
{
    lemma_le_lengths();
    let part = b.subrange(at, at + 12);
    assert(part.subrange(0, 4) =~= le32(slot));
    assert(part.subrange(4, 12) =~= le64(key));
    assert(b.subrange(at, at + 4) =~= part.subrange(0, 4));
    assert(b.subrange(at + 4, at + 12) =~= part.subrange(4, 12));
    law_read_u32(b, at, slot);
    law_read_u64(b, at + 4, key);
}

/// The slots that entries of a table are for.
pub open spec fn keyed_places(slots: Seq<Slot>) -> Seq<int>
    decreases slots.len(),
{
    if slots.len() == 0 {
        Seq::empty()
    } else {
        let rest = keyed_places(slots.drop_last());
        match slots.last().key {
            Some(_) => rest.push(slots.len() - 1),
            None => rest,
        }
    }
}

/// The entries of a table are those of the slots with keys, in order.
proof fn lemma_keyed_places(slots: Seq<Slot>)
    requires
        slots.len() <= u32::MAX,
    ensures
        keyed_places(slots).len() == table_parts(slots).len(),
        forall|e: int|
            0 <= e < keyed_places(slots).len() ==> 0 <= #[trigger] keyed_places(slots)[e]
                < slots.len() && slots[keyed_places(slots)[e]].key is Some && table_parts(slots)[e]
                == le32(keyed_places(slots)[e] as u32) + le64(slots[keyed_places(slots)[e]].key->0),
        forall|d: int, e: int|
            0 <= d < e < keyed_places(slots).len() ==> #[trigger] keyed_places(slots)[d]
                < #[trigger] keyed_places(slots)[e],
        forall|i: int|
            0 <= i < slots.len() && (#[trigger] slots[i]).key is Some ==> keyed_places(
                slots,
            ).contains(i),
    decreases slots.len(),
{
    if slots.len() > 0 {
        let rest = slots.drop_last();
        lemma_keyed_places(rest);
        let p = keyed_places(slots);
        let rp = keyed_places(rest);
        let parts = table_parts(slots);
        let last = slots.len() - 1;
        assert forall|e: int| 0 <= e < p.len() implies 0 <= #[trigger] p[e] < slots.len()
            && slots[p[e]].key is Some && parts[e] == le32(p[e] as u32) + le64(
            slots[p[e]].key->0,
        ) by {
            if e < rp.len() {
                assert(p[e] == rp[e]);
                assert(rest[rp[e]] == slots[rp[e]]);
                assert(parts[e] == table_parts(rest)[e]);
            }
        }
        assert forall|d: int, e: int| 0 <= d < e < p.len() implies #[trigger] p[d]
            < #[trigger] p[e] by {
            assert(p[d] == rp[d]);
            if e < rp.len() {
                assert(p[e] == rp[e]);
            }
        }
        assert forall|i: int| 0 <= i < slots.len() && (#[trigger] slots[i]).key is Some implies
            p.contains(i) by {
            if i < last {
                assert(rest[i] == slots[i]);
                assert(rp.contains(i));
                let e = choose|e: int| 0 <= e < rp.len() && rp[e] == i;
                assert(p[e] == i);
            } else {
                assert(p[p.len() - 1] == i);
            }
        }
    }
}

/// A slot with a key has an entry.
pub proof fn lemma_keyed_has_entry(slots: Seq<Slot>, i: int) -> (e: int)
    requires
        slots.len() <= u32::MAX,
        0 <= i < slots.len(),
        slots[i].key is Some,
    ensures
        0 <= e < table_parts(slots).len(),
        keyed_places(slots)[e] == i,
{
    lemma_keyed_places(slots);
    choose|e: int| 0 <= e < keyed_places(slots).len() && keyed_places(slots)[e] == i
}

/// Entry `e` of a written table reads back.
pub proof fn lemma_table_entry(b: Seq<u8>, live: Seq<Slot>, e: int)
    requires
        live.len() <= u32::MAX,
        0 <= e < table_parts(live).len(),
        table_at(b) + 4 + 12 * table_parts(live).len() == b.len(),
        b.subrange((table_at(b) + 4) as int, b.len() as int) == joined(table_parts(live)),
    ensures
        keyed_places(live).len() == table_parts(live).len(),
        u32_at(b, table_at(b) + 4 + 12 * e) == keyed_places(live)[e],
        0 <= keyed_places(live)[e] < live.len(),
        live[keyed_places(live)[e]].key is Some,
        u64_at(b, table_at(b) + 4 + 12 * e + 4) == live[keyed_places(live)[e]].key->0,
        e + 1 < keyed_places(live).len() ==> keyed_places(live)[e] < keyed_places(live)[e + 1],
{
    lemma_keyed_places(live);
    lemma_table_lengths(live);
    lemma_joined(table_parts(live), 12);
    let at = (table_at(b) + 4 + 12 * e) as int;
    let from = (table_at(b) + 4) as int;
    let p = keyed_places(live)[e];
    assert(piece(joined(table_parts(live)), 12, e) == table_parts(live)[e]);
    assert(b.subrange(at, at + 12) =~= piece(b.subrange(from, b.len() as int), 12, e));
    lemma_entry(b, at, p as u32, live[p].key->0);
}

/// The keys that the table of a file gives to the slots are those written.
proof fn lemma_table_keys(b: Seq<u8>, live: Seq<Slot>, m: int)
    requires
        0 <= m <= live.len() <= u32::MAX,
        file_count(b) == live.len(),
        table_at(b) + 4 + 12 * table_parts(live).len() == b.len(),
        b.subrange((table_at(b) + 4) as int, b.len() as int) == joined(table_parts(live)),
    ensures
        table_keys(b, table_parts(live.take(m)).len()) == Some(
            Seq::new(
                live.len(),
                |i: int|
                    if i < m {
                        live[i].key
                    } else {
                        None
                    },
            ),
        ),
    decreases m,
{
    let keys = Seq::new(
        live.len(),
        |i: int|
            if i < m {
                live[i].key
            } else {
                None
            },
    );
    if m == 0 {
        assert(table_parts(live.take(0)).len() == 0);
        assert(keys =~= Seq::new(file_count(b), |i: int| None::<u64>));
    } else {
        lemma_table_keys(b, live, m - 1);
        assert(live.take(m).drop_last() =~= live.take(m - 1));
        let before = Seq::new(
            live.len(),
            |i: int|
                if i < m - 1 {
                    live[i].key
                } else {
                    None
                },
        );
        match live[m - 1].key {
            None => {
                assert(keys =~= before);
            },
            Some(key) => {
                let c = table_parts(live.take(m - 1)).len();
                let part = le32((m - 1) as u32) + le64(key);
                lemma_table_prefix(live, m);
                assert(table_parts(live.take(m))[c as int] == part);
                assert(table_parts(live)[c as int] == part);
                lemma_table_lengths(live);
                lemma_joined(table_parts(live), 12);
                assert(piece(joined(table_parts(live)), 12, c as int) == part);
                let at = (table_at(b) + 4 + 12 * c) as int;
                let from = (table_at(b) + 4) as int;
                assert(b.subrange(at, at + 12) =~= piece(
                    b.subrange(from, b.len() as int),
                    12,
                    c as int,
                ));
                lemma_entry(b, at, (m - 1) as u32, key);
                assert(before.update(m - 1, Some(key)) =~= keys);
            },
        }
    }
}

/// The lengths of the blocks of a file.
pub proof fn lemma_blocks(st: IndexState)
    requires
        st.valid(),
    ensures
        ({
            let live = live_slots(st.slots);
            let n = live.len();
            let w = st.code_len();
            &&& header_of(st, n).len() == if version_of(st) == V1_5 {
                25nat
            } else {
                24nat
            }
            &&& joined(scale_parts(live)).len() == n * 2
            &&& joined(code_parts(live)).len() == n * w
            &&& st.residual ==> joined(scale2_parts(live)).len() == n * 2
            &&& st.residual ==> joined(code2_parts(live)).len() == n * w
            &&& table_of(live).len() == 4 + 12 * table_parts(live).len()
            &&& forall|i: int|
                0 <= i < n ==> #[trigger] piece(joined(scale_parts(live)), 2, i) == le16(
                    half_of(live[i].scale),
                )
            &&& forall|i: int|
                0 <= i < n ==> #[trigger] piece(joined(code_parts(live)), w, i) == live[i].codes
            &&& st.residual ==> forall|i: int|
                0 <= i < n ==> #[trigger] piece(joined(scale2_parts(live)), 2, i) == le16(
                    half_of(live[i].scale2),
                )
            &&& st.residual ==> forall|i: int|
                0 <= i < n ==> #[trigger] piece(joined(code2_parts(live)), w, i) == live[i].codes2
        }),
{
    let live = live_slots(st.slots);
    let w = st.code_len();
    lemma_le_lengths();
    lemma_live_fit(st, st.slots);
    lemma_joined(scale_parts(live), 2);
    assert forall|i: int| 0 <= i < code_parts(live).len() implies (#[trigger] code_parts(
        live,
    )[i]).len() == w by {
        assert(st.fits(live[i]));
    }
    lemma_joined(code_parts(live), w);
    if st.residual {
        lemma_joined(scale2_parts(live), 2);
        assert forall|i: int| 0 <= i < code2_parts(live).len() implies (#[trigger] code2_parts(
            live,
        )[i]).len() == w by {
            assert(st.fits(live[i]));
        }
        lemma_joined(code2_parts(live), w);
    }
    lemma_table_lengths(live);
    lemma_joined(table_parts(live), 12);
    assert forall|i: int| 0 <= i < live.len() implies #[trigger] piece(
        joined(scale_parts(live)),
        2,
        i,
    ) == le16(half_of(live[i].scale)) by {
        assert(scale_parts(live)[i] == le16(half_of(live[i].scale)));
    }
    assert forall|i: int| 0 <= i < live.len() implies #[trigger] piece(
        joined(code_parts(live)),
        w,
        i,
    ) == live[i].codes by {
        assert(code_parts(live)[i] == live[i].codes);
    }
    if st.residual {
        assert forall|i: int| 0 <= i < live.len() implies #[trigger] piece(
            joined(scale2_parts(live)),
            2,
            i,
        ) == le16(half_of(live[i].scale2)) by {
            assert(scale2_parts(live)[i] == le16(half_of(live[i].scale2)));
        }
        assert forall|i: int| 0 <= i < live.len() implies #[trigger] piece(
            joined(code2_parts(live)),
            w,
            i,
        ) == live[i].codes2 by {
            assert(code2_parts(live)[i] == live[i].codes2);
        }
    }
}

/// The fields of a header can be found again.
proof fn lemma_fields(
    a: Seq<u8>,
    b: Seq<u8>,
    c: Seq<u8>,
    d: Seq<u8>,
    e: Seq<u8>,
    f: Seq<u8>,
    g: Seq<u8>,
)
    requires
        a.len() == 4,
        b.len() == 2,
        c.len() == 2,
        d.len() == 4,
        e.len() == 8,
        f.len() == 4,
    ensures
        ({
            let h = a + b + c + d + e + f + g;
            &&& h.len() == 24 + g.len()
            &&& h.subrange(0, 4) == a
            &&& h.subrange(4, 6) == b
            &&& h.subrange(6, 8) == c
            &&& h.subrange(8, 12) == d
            &&& h.subrange(12, 20) == e
            &&& h.subrange(20, 24) == f
            &&& g.len() > 0 ==> h[24] == g[0]
        }),
{
    let h = a + b + c + d + e + f + g;
    assert(h.subrange(0, 4) =~= a);
    assert(h.subrange(4, 6) =~= b);
    assert(h.subrange(6, 8) =~= c);
    assert(h.subrange(8, 12) =~= d);
    assert(h.subrange(12, 20) =~= e);
    assert(h.subrange(20, 24) =~= f);
}

/// What starts with a header has its fields.
proof fn lemma_header_reads(
    b: Seq<u8>,
    h: Seq<u8>,
    version: u16,
    reserved: u16,
    dim: u32,
    seed: u64,
    n: u32,
)
    requires
        24 <= h.len() <= b.len(),
        b.take(h.len() as int) == h,
        h.subrange(0, 4) == le32(MAGIC),
        h.subrange(4, 6) == le16(version),
        h.subrange(6, 8) == le16(reserved),
        h.subrange(8, 12) == le32(dim),
        h.subrange(12, 20) == le64(seed),
        h.subrange(20, 24) == le32(n),
    ensures
        u32_at(b, 0) == MAGIC,
        u16_at(b, 4) == version,
        u16_at(b, 6) == reserved,
        u32_at(b, 8) == dim,
        u64_at(b, 12) == seed,
        u32_at(b, 20) == n,
        h.len() > 24 ==> b[24] == h[24],
{
    assert(b.subrange(0, 4) =~= b.take(h.len() as int).subrange(0, 4));
    assert(b.subrange(4, 6) =~= b.take(h.len() as int).subrange(4, 6));
    assert(b.subrange(6, 8) =~= b.take(h.len() as int).subrange(6, 8));
    assert(b.subrange(8, 12) =~= b.take(h.len() as int).subrange(8, 12));
    assert(b.subrange(12, 20) =~= b.take(h.len() as int).subrange(12, 20));
    assert(b.subrange(20, 24) =~= b.take(h.len() as int).subrange(20, 24));
    law_read_u32(b, 0, MAGIC);
    law_read_u16(b, 4, version);
    law_read_u16(b, 6, reserved);
    law_read_u32(b, 8, dim);
    law_read_u64(b, 12, seed);
    law_read_u32(b, 20, n);
    if h.len() > 24 {
        assert(b.take(h.len() as int)[24] == b[24]);
    }
}

/// The header of a file reads back.
pub proof fn lemma_header(st: IndexState)
    requires
        st.valid(),
        storable(st),
    ensures
        ({
            let b = file_of(st);
            &&& b.len() >= 24
            &&& u32_at(b, 0) == MAGIC
            &&& file_version(b) == version_of(st)
            &&& u16_at(b, 6) == if st.working_dim == st.dim {
                0
            } else {
                st.working_dim
            }
            &&& file_dim(b) == st.dim
            &&& file_working_dim(b) == st.working_dim
            &&& file_seed(b) == st.seed
            &&& file_count(b) == live_slots(st.slots).len()
            &&& b.len() >= scales_at(b)
            &&& file_bits(b) == st.bits
        }),
{
    let b = file_of(st);
    let live = live_slots(st.slots);
    let n = live.len();
    let h = header_of(st, n);
    let reserved: u16 = if st.working_dim == st.dim {
        0
    } else {
        st.working_dim as u16
    };
    let width = if version_of(st) == V1_5 {
        seq![st.bits]
    } else {
        Seq::empty()
    };
    lemma_le_lengths();
    lemma_fields(
        le32(MAGIC),
        le16(version_of(st)),
        le16(reserved),
        le32(st.dim as u32),
        le64(st.seed),
        le32(n as u32),
        width,
    );
    assert(b.take(h.len() as int) =~= h) by {
        lemma_starts(
            h,
            joined(scale_parts(live)),
            joined(code_parts(live)),
            second_pass_of(st, live),
            table_of(live),
        );
    }
    lemma_header_reads(b, h, version_of(st), reserved, st.dim as u32, st.seed, n as u32);
}

/// What a concatenation starts with.
proof fn lemma_starts(h: Seq<u8>, s: Seq<u8>, c: Seq<u8>, r: Seq<u8>, t: Seq<u8>)
    ensures
        (h + s + c + r + t).take(h.len() as int) == h,
{
    assert((h + s + c + r + t).take(h.len() as int) =~= h);
}

/// The blocks of a file are where the reader looks for them.
pub proof fn lemma_places(st: IndexState)
    requires
        st.valid(),
        storable(st),
    ensures
        ({
            let b = file_of(st);
            let live = live_slots(st.slots);
            &&& b.subrange(scales_at(b) as int, codes_at(b) as int) == joined(scale_parts(live))
            &&& b.subrange(codes_at(b) as int, codes_end(b) as int) == joined(code_parts(live))
            &&& st.residual ==> b.subrange(codes_end(b) as int, codes2_at(b) as int) == joined(
                scale2_parts(live),
            )
            &&& st.residual ==> b.subrange(codes2_at(b) as int, table_at(b) as int) == joined(
                code2_parts(live),
            )
            &&& b.subrange(table_at(b) as int, b.len() as int) == table_of(live)
            &&& scales_at(b) <= codes_at(b) <= codes_end(b) <= table_at(b) <= b.len()
            &&& st.residual ==> codes_end(b) <= codes2_at(b) <= table_at(b)
        }),
{
    lemma_blocks(st);
    lemma_header(st);
    let b = file_of(st);
    let live = live_slots(st.slots);
    let n = live.len();
    let w = st.code_len();
    assert(file_code_len(b) == w);
    assert(0 <= n * w) by (nonlinear_arith)
        requires
            0 <= n,
            0 <= w,
    ;
    let h = header_of(st, n);
    let s = joined(scale_parts(live));
    let c = joined(code_parts(live));
    let t = table_of(live);
    if st.residual {
        let s2 = joined(scale2_parts(live));
        let c2 = joined(code2_parts(live));
        assert(b =~= h + s + c + (s2 + c2) + t);
        assert(b.subrange(codes_end(b) as int, codes2_at(b) as int) =~= s2);
        assert(b.subrange(codes2_at(b) as int, table_at(b) as int) =~= c2);
        assert(b.subrange(scales_at(b) as int, codes_at(b) as int) =~= s);
        assert(b.subrange(codes_at(b) as int, codes_end(b) as int) =~= c);
        assert(b.subrange(table_at(b) as int, b.len() as int) =~= t);
    } else {
        assert(b =~= h + s + c + t);
        assert(b.subrange(scales_at(b) as int, codes_at(b) as int) =~= s);
        assert(b.subrange(codes_at(b) as int, codes_end(b) as int) =~= c);
        assert(b.subrange(table_at(b) as int, b.len() as int) =~= t);
    }
}

/// The table of a file reads back, and the reader finds nothing wrong.
pub proof fn lemma_no_flaw(st: IndexState)
    requires
        st.valid(),
        storable(st),
    ensures
        ({
            let b = file_of(st);
            let live = live_slots(st.slots);
            &&& load_flaw(b) is None
            &&& has_table(b)
            &&& table_entries(b) == table_parts(live).len()
            &&& table_at(b) + 4 + 12 * table_parts(live).len() == b.len()
            &&& b.subrange((table_at(b) + 4) as int, b.len() as int) == joined(table_parts(live))
        }),
{
    let b = file_of(st);
    let live = live_slots(st.slots);
    lemma_blocks(st);
    lemma_header(st);
    lemma_places(st);
    lemma_table_lengths(live);
    lemma_le_lengths();
    let t = table_of(live);
    let e = table_parts(live).len();
    let ta = table_at(b) as int;
    assert(t.take(4) =~= le32(e as u32));
    assert(t.skip(4) =~= joined(table_parts(live)));
    assert(b.subrange(ta, ta + 4) =~= b.subrange(ta, b.len() as int).take(4));
    assert(b.subrange(ta + 4, b.len() as int) =~= b.subrange(ta, b.len() as int).skip(4));
    law_read_u32(b, ta, e as u32);
}

/// One vector of a file reads back.
pub proof fn lemma_slot_reads(st: IndexState, i: int)
    requires
        st.valid(),
        storable(st),
        0 <= i < live_slots(st.slots).len(),
    ensures
        file_slot(file_of(st), i) == (Slot {
            key: None,
            ..stored_slot(st.residual, live_slots(st.slots)[i])
        }),
{
    let b = file_of(st);
    let live = live_slots(st.slots);
    let n = live.len();
    let w = st.code_len();
    lemma_blocks(st);
    lemma_header(st);
    lemma_places(st);
    lemma_live_fit(st, st.slots);
    assert(st.fits(live[i]));
    lemma_piece(i, n as int, 2);
    lemma_two_bytes(
        b,
        scales_at(b) as int,
        codes_at(b) as int,
        joined(scale_parts(live)),
        i,
        half_of(live[i].scale),
    );
    assert(piece(joined(code_parts(live)), w, i) == live[i].codes);
    if st.residual {
        lemma_two_bytes(
            b,
            codes_end(b) as int,
            codes2_at(b) as int,
            joined(scale2_parts(live)),
            i,
            half_of(live[i].scale2),
        );
        assert(piece(joined(code2_parts(live)), w, i) == live[i].codes2);
    } else {
        assert(live[i].codes2 =~= Seq::empty());
    }
}

/// The written scales of a vector read back.
pub proof fn lemma_written_scales(st: IndexState, i: int)
    requires
        st.valid(),
        storable(st),
        0 <= i < live_slots(st.slots).len(),
    ensures
        ({
            let b = file_of(st);
            let s = live_slots(st.slots)[i];
            &&& u16_at(b, scales_at(b) + 2 * i) == half_of(s.scale)
            &&& st.residual ==> u16_at(b, codes_end(b) + 2 * i) == half_of(s.scale2)
        }),
{
    let b = file_of(st);
    let live = live_slots(st.slots);
    lemma_blocks(st);
    lemma_header(st);
    lemma_places(st);
    lemma_two_bytes(
        b,
        scales_at(b) as int,
        codes_at(b) as int,
        joined(scale_parts(live)),
        i,
        half_of(live[i].scale),
    );
    if st.residual {
        lemma_two_bytes(
            b,
            codes_end(b) as int,
            codes2_at(b) as int,
            joined(scale2_parts(live)),
            i,
            half_of(live[i].scale2),
        );
    }
}

/// Two bytes of a block read back.
proof fn lemma_two_bytes(b: Seq<u8>, from: int, to: int, block: Seq<u8>, i: int, x: u16)
    requires
        0 <= from <= to <= b.len(),
        b.subrange(from, to) == block,
        0 <= i,
        2 * i + 2 <= block.len(),
        piece(block, 2, i) == le16(x),
    ensures
        u16_at(b, from + 2 * i) == x,
{
    let at = from + 2 * i;
    assert(b.subrange(at, at + 2) =~= piece(b.subrange(from, to), 2, i));
    law_read_u16(b, at, x);
}

/// Reading back what was written gives the live vectors in slot order, with
/// their keys, and with the scales rounded to half precision.
pub proof fn law_reload(st: IndexState)
    requires
        st.valid(),
        storable(st),
    ensures
        loaded(file_of(st)) == Ok::<IndexState, Error>(stored(st)),
{
    let b = file_of(st);
    let live = live_slots(st.slots);
    let n = live.len();
    lemma_header(st);
    lemma_no_flaw(st);
    lemma_table_keys(b, live, n as int);
    lemma_live_fit(st, st.slots);
    assert(live.take(n as int) =~= live);
    let keys = table_keys(b, table_parts(live).len())->0;
    let got = with_keys(file_state(b).slots, keys);
    let want = stored(st).slots;
    assert forall|i: int| 0 <= i < n implies got[i] == want[i] by {
        lemma_slot_reads(st, i);
    }
    assert(got =~= want);
}

/// Tables depend on nothing but the keys.
proof fn lemma_same_tables(a: Seq<Slot>, b: Seq<Slot>)
    requires
        a.len() == b.len(),
        forall|i: int| 0 <= i < a.len() ==> (#[trigger] a[i]).key == b[i].key,
    ensures
        table_parts(a) == table_parts(b),
    decreases a.len(),
{
    if a.len() > 0 {
        let ar = a.drop_last();
        let br = b.drop_last();
        assert forall|i: int| 0 <= i < ar.len() implies (#[trigger] ar[i]).key == br[i].key by {
            assert(ar[i] == a[i]);
        }
        lemma_same_tables(ar, br);
        assert(a[a.len() - 1].key == b[a.len() - 1].key);
    }
}

/// Writing what was read back gives the same bytes again.
pub proof fn law_rewrite_is_identical(st: IndexState)
    requires
        st.valid(),
    ensures
        file_of(stored(st)) == file_of(st),
        storable(st) ==> storable(stored(st)),
{
    let live = live_slots(st.slots);
    let kept = stored(st).slots;
    lemma_live_fit(st, st.slots);
    lemma_live_bound(st.slots);
    assert forall|i: int| 0 <= i < kept.len() implies (#[trigger] kept[i]).alive by {
        assert(st.fits(live[i]));
    }
    lemma_dense(kept);
    assert forall|i: int| 0 <= i < live.len() implies scale_parts(kept)[i] == scale_parts(
        live,
    )[i] by {
        law_encode_is_stable(live[i].scale);
    }
    assert(scale_parts(kept) =~= scale_parts(live));
    assert(code_parts(kept) =~= code_parts(live));
    if st.residual {
        assert forall|i: int| 0 <= i < live.len() implies scale2_parts(kept)[i] == scale2_parts(
            live,
        )[i] by {
            law_encode_is_stable(live[i].scale2);
        }
        assert(scale2_parts(kept) =~= scale2_parts(live));
        assert(code2_parts(kept) =~= code2_parts(live));
    }
    assert forall|i: int| 0 <= i < kept.len() implies (#[trigger] kept[i]).key == live[i].key by {}
    lemma_same_tables(kept, live);
}

/// A file is read back the same from the first time on: reading what was
/// written, writing and reading that gives the same index.
pub proof fn law_second_reload_is_identical(st: IndexState)
    requires
        st.valid(),
        storable(st),
    ensures
        loaded(file_of(stored(st))) == loaded(file_of(st)),
{
    law_rewrite_is_identical(st);
}

/// Writing has the effect of a compaction: an index and its compaction have the
/// same file, and no removed slot is read back.
pub proof fn law_write_compacts(st: IndexState)
    requires
        st.valid(),
    ensures
        file_of(compacted(st)) == file_of(st),
        storable(compacted(st)) == storable(st),
        live_slots(stored(st).slots).len() == stored(st).slots.len() == live_slots(st.slots).len(),
{
    law_compaction_is_idempotent(st);
    lemma_live_fit(st, st.slots);
    lemma_live_bound(st.slots);
    let kept = stored(st).slots;
    assert forall|i: int| 0 <= i < kept.len() implies (#[trigger] kept[i]).alive by {
        assert(st.fits(live_slots(st.slots)[i]));
    }
    lemma_dense(kept);
}

/// Every key that is stored is restored: the vectors that an index holds under
/// a key are those that it holds under the key when it is read back, by their
/// places among the live vectors.
pub proof fn law_reload_restores_keys(st: IndexState, i: int)
    requires
        st.valid(),
        storable(st),
        0 <= i < live_slots(st.slots).len(),
    ensures
        loaded(file_of(st)) matches Ok(back) && back.slots[i].key == live_slots(st.slots)[i].key
            && back.slots[i].codes == live_slots(st.slots)[i].codes && back.slots[i].alive,
{
    law_reload(st);
    lemma_live_fit(st, st.slots);
    assert(st.fits(live_slots(st.slots)[i]));
}

/// What the loader accepts is a valid index.
pub proof fn law_loaded_is_valid(b: Seq<u8>)
    requires
        b.len() <= usize::MAX,
    ensures
        loaded(b) matches Ok(st) ==> st.valid(),
{
    if loaded(b) is Ok {
        let st = file_state(b);
        let n = file_count(b);
        let w = file_code_len(b);
        lemma_padded_fits(st.working_dim, st.bits);
        assert(0 <= n * w) by (nonlinear_arith)
            requires
                0 <= n,
                0 <= w,
        ;
        assert forall|i: int| 0 <= i < n implies st.fits(#[trigger] st.slots[i]) by {
            lemma_piece(i, n as int, w);
            assert(st.slots[i] == file_slot(b, i));
        }
        let got = loaded(b)->Ok_0;
        assert forall|i: int| 0 <= i < got.slots.len() implies got.fits(#[trigger] got.slots[i]) by {
            assert(st.fits(st.slots[i]));
        }
    }
}

/// Where half precision loses nothing of the scales, an index that is read back
/// gives the answers of the compacted one.
pub proof fn law_reload_keeps_answers(f: Meaning, st: IndexState, q: Seq<u32>, k: nat)
    requires
        st.valid(),
        storable(st),
        forall|i: int|
            0 <= i < st.slots.len() && (#[trigger] st.slots[i]).alive ==> stored_slot(
                st.residual,
                st.slots[i],
            ) == st.slots[i],
    ensures
        loaded(file_of(st)) matches Ok(back) && answer(f, back, q, k) == answer(
            f,
            compacted(st),
            q,
            k,
        ),
{
    law_reload(st);
    lemma_live_positions(st.slots);
    let live = live_slots(st.slots);
    let kept = stored(st).slots;
    assert forall|i: int| 0 <= i < live.len() implies kept[i] == live[i] by {
        assert(st.slots[live_positions(st.slots)[i] as int] == live[i]);
    }
    assert(kept =~= live);
}

/// The size of a file: the header, two bytes and the codes for every pass of
/// every live vector, and twelve bytes for every key.
pub proof fn law_file_size(st: IndexState)
    requires
        st.valid(),
    ensures
        ({
            let n = live_slots(st.slots).len();
            let vectors = n * 2 + n * st.code_len();
            file_of(st).len() == header_of(st, n).len() + vectors + (if st.residual {
                vectors
            } else {
                0
            }) + 4 + 12 * table_parts(live_slots(st.slots)).len()
        }),
        header_of(st, live_slots(st.slots).len()).len() == if version_of(st) == V1_5 {
            25nat
        } else {
            24nat
        },
        table_parts(live_slots(st.slots)).len() == keyed_slots(live_slots(st.slots)),
{
    lemma_blocks(st);
    lemma_le_lengths();
    lemma_keyed_slots(live_slots(st.slots));
}

/// How many slots have a key.
pub open spec fn keyed_slots(slots: Seq<Slot>) -> nat
    decreases slots.len(),
{
    if slots.len() == 0 {
        0
    } else {
        keyed_slots(slots.drop_last()) + if slots.last().key is Some {
            1nat
        } else {
            0nat
        }
    }
}

proof fn lemma_keyed_slots(slots: Seq<Slot>)
    ensures
        table_parts(slots).len() == keyed_slots(slots),
    decreases slots.len(),
{
    if slots.len() > 0 {
        lemma_keyed_slots(slots.drop_last());
    }
}

/// What a reload does to a scale: a scale whose magnitude is from 2^-14 up to below
/// 65520 keeps its sign and moves by at most one part in 2048.
pub proof fn law_reload_moves_scales_little(residual: bool, s: Slot)
    requires
        0x3880_0000 <= s.scale % 0x8000_0000 < 0x477F_F000,
        residual ==> 0x3880_0000 <= s.scale2 % 0x8000_0000 < 0x477F_F000,
    ensures
        moved_little(s.scale, stored_slot(residual, s).scale),
        residual ==> moved_little(s.scale2, stored_slot(residual, s).scale2),
        !residual ==> stored_slot(residual, s).scale2 == ZERO,
{
    law_round_trip(s.scale);
    if residual {
        law_round_trip(s.scale2);
    }
}

/// `y` is finite, has the sign of `x`, and differs from it by at most one part in
/// 2048.
pub open spec fn moved_little(x: u32, y: u32) -> bool {
    let u = single_units((x % 0x8000_0000) as u32) as int;
    let w = single_units((y % 0x8000_0000) as u32) as int;
    &&& y % 0x8000_0000 < 0x7F80_0000
    &&& y >= 0x8000_0000 <==> x >= 0x8000_0000
    &&& -u <= 2048 * (w - u) <= u
}

/// The keys of an index are those of the index that is read back.
pub proof fn law_reload_keeps_every_key(st: IndexState, key: u64)
    requires
        st.valid(),
        storable(st),
    ensures
        loaded(file_of(st)) matches Ok(back) && (slots_with_key(back.slots, key).len() > 0
            <==> slots_with_key(st.slots, key).len() > 0),
{
    law_reload(st);
    let back = stored(st);
    let live = live_slots(st.slots);
    let at = live_positions(st.slots);
    lemma_live_bound(st.slots);
    lemma_live_positions(st.slots);
    lemma_slots_with_key(st.slots, key);
    lemma_slots_with_key(back.slots, key);
    if slots_with_key(st.slots, key).len() > 0 {
        let i = slots_with_key(st.slots, key)[0];
        assert(st.slots[i as int].key == Some(key));
        assert(st.fits(st.slots[i as int]));
        assert(at.contains(i));
        let j = choose|j: int| 0 <= j < at.len() && at[j] == i;
        assert(live[j] == st.slots[i as int]);
        assert(back.slots[j].key == Some(key));
        assert(slots_with_key(back.slots, key).contains(j as usize));
    }
    if slots_with_key(back.slots, key).len() > 0 {
        let j = slots_with_key(back.slots, key)[0] as int;
        assert(back.slots[j].key == Some(key));
        assert(live[j].key == Some(key));
        assert(st.slots[at[j] as int].key == Some(key));
        assert(slots_with_key(st.slots, key).contains(at[j]));
    }
}

/// A reload changes nothing in a score but the scales: the kernel gives the same
/// result on the codes that are read back.
pub proof fn law_reload_keeps_raw_scores(
    f: Meaning,
    st: IndexState,
    i: int,
    rot: Seq<u32>,
    lut: Seq<u32>,
)
    requires
        st.valid(),
        storable(st),
        0 <= i < live_slots(st.slots).len(),
    ensures
        ({
            let was = live_slots(st.slots)[i];
            let now = loaded(file_of(st))->Ok_0.slots[i];
            let raw = raw_score(f, was.codes, st.bits, rot, lut);
            let raw2 = raw_score(f, was.codes2, st.bits, rot, lut);
            &&& slot_score(f, st, was, rot, lut) == if st.residual {
                f(Op::Add, f(Op::Mul, raw, was.scale), f(Op::Mul, raw2, was.scale2))
            } else {
                f(Op::Mul, raw, was.scale)
            }
            &&& slot_score(f, loaded(file_of(st))->Ok_0, now, rot, lut) == if st.residual {
                f(Op::Add, f(Op::Mul, raw, now.scale), f(Op::Mul, raw2, now.scale2))
            } else {
                f(Op::Mul, raw, now.scale)
            }
            &&& now == stored_slot(st.residual, was)
        }),
{
    law_reload(st);
}

} // verus!
