//! Laws of what is stored of a vector, and where: each stored code is the level
//! whose interval holds the coordinate, each scale is the one that the codes ask
//! for, and no other slot is touched.

use vstd::arithmetic::power2::{lemma2_to64, lemma_pow2_pos, lemma_pow2_unfold, pow2};
use vstd::prelude::*;

use crate::arith::{above, divided, norm, sum_squares, Meaning, Op};
use crate::codes::{code_at, law_unpack_undoes_pack, packed};
use crate::lloyd::{
    boundary_table, centroid_table, code_of, count_below, is_width, law_tables_interleave,
    lemma_code_range, level_count, BOUNDARIES_4BIT, BOUNDARIES_5BIT, BOUNDARIES_6BIT,
    CENTROIDS_4BIT, CENTROIDS_5BIT, CENTROIDS_6BIT,
};
use crate::rhdh::law_padded_len;
use crate::state::{
    added, added_beside, added_keyed, codes_of, combined, empty_index, encoded, has_direction,
    leftover, lemma_rotation_len, power_pattern, root_mean_square, rotation, slots_with_key,
    values_of, working_norm, IndexState, Slot,
};
use crate::store::{cosine, inner_product, lemma_slots_with_key, with_key_renamed};

verus! {

/// The boundary above level `j` of a width.
pub open spec fn boundary(bits: u8, j: int) -> u32 {
    if bits == 4 {
        BOUNDARIES_4BIT@[j]
    } else if bits == 5 {
        BOUNDARIES_5BIT@[j]
    } else {
        BOUNDARIES_6BIT@[j]
    }
}

/// The value of level `j` of a width.
pub open spec fn level(bits: u8, j: int) -> u32 {
    if bits == 4 {
        CENTROIDS_4BIT@[j]
    } else if bits == 5 {
        CENTROIDS_5BIT@[j]
    } else {
        CENTROIDS_6BIT@[j]
    }
}

/// How many levels a width has: two to the power of it.
pub open spec fn levels_of(bits: u8) -> int {
    if bits == 4 {
        16
    } else if bits == 5 {
        32
    } else {
        64
    }
}

/// `c` is the level whose interval holds `x`: `x` is above the boundaries below
/// the level, and above no other.
pub open spec fn is_level_of(c: int, x: u32, bits: u8) -> bool {
    &&& 0 <= c < levels_of(bits)
    &&& forall|j: int|
        0 <= j < levels_of(bits) - 1 ==> (#[trigger] above(x, boundary(bits, j)) <==> j < c)
}

proof fn lemma_table_entries(bits: u8, j: int)
    requires
        is_width(bits),
    ensures
        boundary_table(bits)[j] == boundary(bits, j),
        centroid_table(bits)[j] == level(bits, j),
        level_count(bits) == levels_of(bits),
{
    reveal(boundary_table);
    reveal(centroid_table);
}

/// Of increasing boundaries, those below a number come first.
proof fn lemma_count_is_split(x: u32, bits: u8, n: nat, j: int)
    requires
        is_width(bits),
        n <= level_count(bits) - 1,
        0 <= j < n,
    ensures
        above(x, boundary_table(bits)[j]) <==> j < count_below(x, boundary_table(bits), n),
        count_below(x, boundary_table(bits), n) <= n,
    decreases n,
{
    law_tables_interleave(bits);
    let b = boundary_table(bits);
    let m = (n - 1) as nat;
    lemma_count_at_most(x, b, m);
    if m > 0 {
        lemma_count_is_split(x, bits, m, m - 1);
        if j < m {
            lemma_count_is_split(x, bits, m, j);
            assert(above(b[m as int], b[j]));
        }
        assert(above(b[m as int], b[m - 1]));
    }
}

proof fn lemma_count_at_most(x: u32, table: Seq<u32>, n: nat)
    ensures
        count_below(x, table, n) <= n,
    decreases n,
{
    if n > 0 {
        lemma_count_at_most(x, table, (n - 1) as nat);
    }
}

/// Quantization gives the level whose interval holds the number.
pub proof fn law_code_is_the_level(x: u32, bits: u8)
    requires
        is_width(bits),
    ensures
        is_level_of(code_of(x, bits) as int, x, bits),
{
    lemma_code_range(x, bits);
    lemma_table_entries(bits, 0);
    law_tables_interleave(bits);
    let n = (level_count(bits) - 1) as nat;
    assert forall|j: int| 0 <= j < levels_of(bits) - 1 implies (#[trigger] above(
        x,
        boundary(bits, j),
    ) <==> j < code_of(x, bits)) by {
        lemma_table_entries(bits, j);
        lemma_count_is_split(x, bits, n, j);
    }
}

/// The codes of coordinates, packed, are the levels of the coordinates.
proof fn lemma_packed_levels(x: Seq<u32>, bits: u8, i: int)
    requires
        is_width(bits),
        0 <= i < x.len(),
        bits == 4 ==> x.len() % 2 == 0,
    ensures
        code_at(packed(codes_of(x, bits), bits), bits, i) == codes_of(x, bits)[i],
        is_level_of(codes_of(x, bits)[i] as int, x[i], bits),
{
    lemma_code_range(x[i], bits);
    law_unpack_undoes_pack(codes_of(x, bits), bits, i);
    law_code_is_the_level(x[i], bits);
}

proof fn lemma_even(st: IndexState)
    requires
        st.valid(),
        st.code_len() > 0,
    ensures
        st.bits == 4 ==> st.padded() % 2 == 0,
{
    law_padded_len(st.working_dim);
}

/// What is stored of a vector stands for it: every stored code is the level whose
/// interval holds the rotated coordinate. With a second pass, its codes are the
/// levels of what the first one leaves, divided by the root mean square of that.
pub proof fn law_stored_codes_are_levels(f: Meaning, st: IndexState, v: Seq<u32>, i: int)
    requires
        st.valid(),
        st.code_len() > 0,
        0 <= i < st.padded(),
    ensures
        ({
            let x = rotation(f, st.signs(), st.working_dim, v);
            let s = encoded(f, st, v);
            let c = code_at(s.codes, st.bits, i) as int;
            let left = Seq::new(
                st.padded(),
                |t: int|
                    f(Op::Sub, x[t], level(st.bits, code_at(s.codes, st.bits, t) as int)),
            );
            &&& is_level_of(c, x[i], st.bits)
            &&& st.residual ==> is_level_of(
                code_at(s.codes2, st.bits, i) as int,
                f(Op::Div, left[i], root_mean_square(f, left)),
                st.bits,
            )
        }),
{
    let x = rotation(f, st.signs(), st.working_dim, v);
    let s = encoded(f, st, v);
    lemma_rotation_len(f, st, v);
    lemma_even(st);
    lemma_packed_levels(x, st.bits, i);
    let left = Seq::new(
        st.padded(),
        |t: int| f(Op::Sub, x[t], level(st.bits, code_at(s.codes, st.bits, t) as int)),
    );
    let rest = leftover(f, x, values_of(codes_of(x, st.bits), st.bits));
    assert forall|t: int| 0 <= t < st.padded() implies left[t] == rest[t] by {
        lemma_packed_levels(x, st.bits, t);
        lemma_table_entries(st.bits, codes_of(x, st.bits)[t] as int);
    }
    assert(left =~= rest);
    if st.residual {
        lemma_packed_levels(divided(f, rest, root_mean_square(f, rest)), st.bits, i);
    }
}

/// The values that a stored vector stands for, from its codes: the level of each
/// coordinate, and with a second pass `m` times the level of that added.
pub open spec fn reconstruction(f: Meaning, st: IndexState, s: Slot, m: u32) -> Seq<u32> {
    Seq::new(
        st.padded(),
        |t: int|
            if st.residual {
                f(
                    Op::Add,
                    level(st.bits, code_at(s.codes, st.bits, t) as int),
                    f(Op::Mul, m, level(st.bits, code_at(s.codes2, st.bits, t) as int)),
                )
            } else {
                level(st.bits, code_at(s.codes, st.bits, t) as int)
            },
    )
}

/// The scale of a stored vector is the reciprocal norm of what its codes stand
/// for; that of a second pass is the root mean square of what the first one
/// leaves, divided by the same norm.
pub proof fn law_stored_scales(f: Meaning, st: IndexState, v: Seq<u32>)
    requires
        st.valid(),
        st.code_len() > 0,
    ensures
        ({
            let x = rotation(f, st.signs(), st.working_dim, v);
            let s = encoded(f, st, v);
            let left = Seq::new(
                st.padded(),
                |t: int|
                    f(Op::Sub, x[t], level(st.bits, code_at(s.codes, st.bits, t) as int)),
            );
            let m = root_mean_square(f, left);
            let n = norm(f, reconstruction(f, st, s, m));
            &&& s.scale == f(Op::Div, 0x3F80_0000, n)
            &&& s.scale2 == if st.residual {
                f(Op::Div, m, n)
            } else {
                0
            }
            &&& s.codes.len() == st.code_len()
            &&& s.codes2.len() == if st.residual {
                st.code_len()
            } else {
                0
            }
            &&& s.key is None
            &&& s.alive
        }),
{
    let x = rotation(f, st.signs(), st.working_dim, v);
    let s = encoded(f, st, v);
    lemma_rotation_len(f, st, v);
    lemma_even(st);
    let left = Seq::new(
        st.padded(),
        |t: int| f(Op::Sub, x[t], level(st.bits, code_at(s.codes, st.bits, t) as int)),
    );
    let c = codes_of(x, st.bits);
    let d = values_of(c, st.bits);
    let rest = leftover(f, x, d);
    assert forall|t: int| 0 <= t < st.padded() implies left[t] == rest[t] && d[t] == level(
        st.bits,
        code_at(s.codes, st.bits, t) as int,
    ) by {
        lemma_packed_levels(x, st.bits, t);
        lemma_table_entries(st.bits, c[t] as int);
    }
    assert(left =~= rest);
    let m = root_mean_square(f, left);
    let want = reconstruction(f, st, s, m);
    if st.residual {
        let y = divided(f, rest, m);
        let e = values_of(codes_of(y, st.bits), st.bits);
        let both = combined(f, d, m, e);
        assert forall|t: int| 0 <= t < st.padded() implies want[t] == both[t] by {
            lemma_packed_levels(y, st.bits, t);
            lemma_table_entries(st.bits, codes_of(y, st.bits)[t] as int);
        }
        assert(want =~= both);
    } else {
        assert(want =~= d);
    }
}

/// `sums` adds up `terms` from the front, starting at zero.
pub open spec fn adds_up(f: Meaning, terms: Seq<u32>, sums: Seq<u32>) -> bool {
    &&& sums.len() == terms.len() + 1
    &&& sums[0] == 0
    &&& forall|i: int|
        0 <= i < terms.len() ==> sums[i + 1] == f(Op::Add, sums[i], #[trigger] terms[i])
}

/// The norm is the square root of the sum of the squares, which are added up from
/// the front; the intermediate sums are returned.
pub proof fn law_norm_adds_up(f: Meaning, v: Seq<u32>) -> (sums: Seq<u32>)
    ensures
        adds_up(f, Seq::new(v.len(), |i: int| f(Op::Mul, v[i], v[i])), sums),
        norm(f, v) == f(Op::Sqrt, sums[v.len() as int], 0),
{
    Seq::new(v.len() + 1, |i: int| sum_squares(f, v, i as nat))
}

/// The root mean square is the square root of the sum of the squares divided by
/// their number, whose pattern is that of a power of two: the exponent grows by one
/// for every doubling.
pub proof fn law_root_mean_square(f: Meaning, v: Seq<u32>, k: nat) -> (sums: Seq<u32>)
    requires
        v.len() == pow2(k),
        k <= 64,
    ensures
        adds_up(f, Seq::new(v.len(), |i: int| f(Op::Mul, v[i], v[i])), sums),
        root_mean_square(f, v) == f(
            Op::Sqrt,
            f(Op::Div, sums[v.len() as int], ((127 + k) * 0x80_0000) as u32),
            0,
        ),
{
    lemma_power_pattern(k);
    Seq::new(v.len() + 1, |i: int| sum_squares(f, v, i as nat))
}

proof fn lemma_power_pattern(k: nat)
    requires
        k <= 64,
    ensures
        power_pattern(pow2(k)) == (127 + k) * 0x80_0000,
    decreases k,
{
    lemma2_to64();
    if k > 0 {
        let j = (k - 1) as nat;
        lemma_power_pattern(j);
        lemma_pow2_unfold(k);
        lemma_pow2_pos(j);
    }
}

/// Two indexes have the same parameters.
pub open spec fn same_parameters(a: IndexState, b: IndexState) -> bool {
    &&& a.dim == b.dim
    &&& a.working_dim == b.working_dim
    &&& a.bits == b.bits
    &&& a.residual == b.residual
    &&& a.seed == b.seed
}

/// Two slots hold the same vector.
pub open spec fn same_vector(a: Slot, b: Slot) -> bool {
    &&& a.codes == b.codes
    &&& a.scale == b.scale
    &&& a.codes2 == b.codes2
    &&& a.scale2 == b.scale2
}

/// An added vector takes a new slot at the end, alive and without a key; every
/// other slot is as it was.
pub proof fn law_add(f: Meaning, st: IndexState, v: Seq<u32>)
    ensures
        ({
            let r = added(f, st, v);
            let n = st.slots.len() as int;
            &&& same_parameters(st, r)
            &&& r.slots.len() == n + 1
            &&& forall|i: int| 0 <= i < n ==> #[trigger] r.slots[i] == st.slots[i]
            &&& r.slots[n].alive
            &&& r.slots[n].key is None
            &&& r.slots[n] == encoded(f, st, v)
        }),
{
}

/// After a vector is added under a key, the slot at the returned place holds that
/// vector, as an addition without a key would store it, alive and under the key. The
/// place is the first that had the key, and a new one at the end where none had;
/// every other slot is as it was.
pub proof fn law_add_keyed(f: Meaning, st: IndexState, key: u64, v: Seq<u32>) -> (at: int)
    requires
        st.slots.len() <= usize::MAX,
    ensures
        ({
            let r = added_keyed(f, st, key, v);
            let n = st.slots.len() as int;
            let plain = added(f, st, v).slots[n];
            let had = exists|i: int| 0 <= i < n && #[trigger] st.slots[i].key == Some(key);
            &&& same_parameters(st, r)
            &&& had ==> 0 <= at < n && st.slots[at].key == Some(key) && r.slots.len() == n
            &&& !had ==> at == n && r.slots.len() == n + 1
            &&& forall|i: int| 0 <= i < at ==> #[trigger] st.slots[i].key != Some(key)
            &&& same_vector(r.slots[at], plain)
            &&& r.slots[at].key == Some(key)
            &&& r.slots[at].alive
            &&& forall|i: int| 0 <= i < n && i != at ==> #[trigger] r.slots[i] == st.slots[i]
            &&& at == if slots_with_key(st.slots, key).len() > 0 {
                slots_with_key(st.slots, key)[0] as int
            } else {
                n
            }
        }),
{
    let held = slots_with_key(st.slots, key);
    let n = st.slots.len() as int;
    lemma_slots_with_key(st.slots, key);
    let at = if held.len() > 0 {
        held[0] as int
    } else {
        n
    };
    assert forall|i: int| 0 <= i < at implies #[trigger] st.slots[i].key != Some(key) by {
        if st.slots[i].key == Some(key) {
            assert(held.contains(i as usize));
            let p = choose|p: int| 0 <= p < held.len() && held[p] == i as usize;
            if p > 0 {
                assert(held[0] < held[p]);
            }
        }
    }
    if held.len() > 0 {
        assert(st.slots[at].key == Some(key));
    }
    at
}

/// One more vector under a key takes a new slot at the end, alive and under the
/// key; what the key had stays, as every other slot does.
pub proof fn law_add_beside(f: Meaning, st: IndexState, key: u64, v: Seq<u32>)
    ensures
        ({
            let r = added_beside(f, st, key, v);
            let n = st.slots.len() as int;
            &&& same_parameters(st, r)
            &&& r.slots.len() == n + 1
            &&& forall|i: int| 0 <= i < n ==> #[trigger] r.slots[i] == st.slots[i]
            &&& same_vector(r.slots[n], added(f, st, v).slots[n])
            &&& r.slots[n].key == Some(key)
            &&& r.slots[n].alive
        }),
{
}

/// The slots of a key are the places where it stands, each once and in order.
pub proof fn law_slots_of_a_key(slots: Seq<Slot>, key: u64)
    requires
        slots.len() <= usize::MAX,
    ensures
        forall|i: int, j: int|
            0 <= i < j < slots_with_key(slots, key).len() ==> #[trigger] slots_with_key(
                slots,
                key,
            )[i] < #[trigger] slots_with_key(slots, key)[j],
        forall|s: usize|
            slots_with_key(slots, key).contains(s) <==> s < slots.len() && (
            #[trigger] slots[s as int]).key == Some(key),
{
    lemma_slots_with_key(slots, key);
    let list = slots_with_key(slots, key);
    assert forall|s: usize|
        list.contains(s) <==> s < slots.len() && (#[trigger] slots[s as int]).key == Some(key) by {
        if list.contains(s) {
            let p = choose|p: int| 0 <= p < list.len() && list[p] == s;
            assert(list[p] < slots.len());
        }
    }
}

/// A renaming changes a slot's key where it is the old one, and nothing else.
pub proof fn law_renamed_slots(slots: Seq<Slot>, from: u64, to: u64, i: int)
    requires
        0 <= i < slots.len(),
    ensures
        ({
            let r = with_key_renamed(slots, from, to);
            &&& r.len() == slots.len()
            &&& same_vector(r[i], slots[i])
            &&& r[i].alive == slots[i].alive
            &&& slots[i].key == Some(from) ==> r[i].key == Some(to)
            &&& slots[i].key != Some(from) ==> r[i].key == slots[i].key
        }),
{
}

/// The working norm is that of the working coordinates; a vector has a direction where it
/// is above zero.
pub proof fn law_direction(f: Meaning, st: IndexState, v: Seq<u32>)
    requires
        st.working_dim <= v.len(),
    ensures
        working_norm(f, st.working_dim, v) == norm(f, v.subrange(0, st.working_dim as int)),
        has_direction(f, st.working_dim, v) <==> above(
            norm(f, v.subrange(0, st.working_dim as int)),
            0,
        ),
{
    assert(v.take(st.working_dim as int) =~= v.subrange(0, st.working_dim as int));
}

/// A new index has the parameters that it was made with, and no slot.
pub proof fn law_empty_index(dim: nat, working_dim: nat, bits: u8, residual: bool, seed: u64)
    ensures
        ({
            let st = empty_index(dim, working_dim, bits, residual, seed);
            &&& st.dim == dim
            &&& st.working_dim == working_dim
            &&& st.bits == bits
            &&& st.residual == residual
            &&& st.seed == seed
            &&& st.slots.len() == 0
        }),
{
}

/// The cosine of two vectors: their inner product over the length of the first, divided
/// by the product of their norms over that length. The intermediate sums of the products
/// and of the squares of each are returned.
pub proof fn law_cosine(f: Meaning, a: Seq<u32>, b: Seq<u32>) -> (r: (Seq<u32>, Seq<u32>, Seq<u32>))
    ensures
        adds_up(f, Seq::new(a.len(), |i: int| f(Op::Mul, a[i], b[i])), r.0),
        adds_up(f, Seq::new(a.len(), |i: int| f(Op::Mul, a[i], a[i])), r.1),
        adds_up(f, Seq::new(a.len(), |i: int| f(Op::Mul, b[i], b[i])), r.2),
        cosine(f, a, b) == f(
            Op::Div,
            r.0[a.len() as int],
            f(Op::Mul, f(Op::Sqrt, r.1[a.len() as int], 0), f(Op::Sqrt, r.2[a.len() as int], 0)),
        ),
        inner_product(f, a, b, a.len()) == r.0[a.len() as int],
{
    (
        Seq::new(a.len() + 1, |i: int| inner_product(f, a, b, i as nat)),
        Seq::new(a.len() + 1, |i: int| sum_squares(f, a, i as nat)),
        Seq::new(a.len() + 1, |i: int| sum_squares(f, b, i as nat)),
    )
}

/// The tables of a width: as many levels as two to its power, one boundary less, and the
/// constants of the width in their order.
pub proof fn law_tables(bits: u8, j: int)
    requires
        is_width(bits),
        0 <= j < levels_of(bits),
    ensures
        centroid_table(bits).len() == levels_of(bits),
        boundary_table(bits).len() == levels_of(bits) - 1,
        centroid_table(bits)[j] == level(bits, j),
        boundary_table(bits)[j] == boundary(bits, j),
        level_count(bits) == levels_of(bits),
{
    lemma_table_entries(bits, j);
    law_tables_interleave(bits);
}

} // verus!
