//! Laws of the rotation: which operation gives each of its numbers, stage by
//! stage, and where its signs come from.

use vstd::arithmetic::power2::{
    lemma2_to64, lemma_pow2_pos, lemma_pow2_strictly_increases, lemma_pow2_unfold, pow2,
};
use vstd::prelude::*;

use crate::arith::{norm, Meaning, Op};
use crate::rhdh::{
    butterflies, butterfly, hadamard, output, rotated, sign_diagonal, state_after,
};
use crate::state::{lemma_rotation_len, query_rotation, rotation, unit, IndexState};

verus! {

/// The signs of a seed: the stream starts from the seed, or from a constant where
/// that is zero, and goes on by shifts and exclusive ors; a sign is minus one where
/// the product of the state and a constant, cut to 64 bits, is in the lower half.
/// The states are returned.
pub proof fn law_signs(seed: u64, n: nat) -> (states: Seq<u64>)
    ensures
        states.len() == n + 1,
        states[0] == if seed == 0 {
            0x9E37_79B9_7F4A_7C15
        } else {
            seed
        },
        forall|i: int|
            0 <= i < n ==> #[trigger] states[i + 1] == ({
                let a = states[i] ^ (states[i] >> 12);
                let b = a ^ (a << 25);
                b ^ (b >> 27)
            }),
        sign_diagonal(seed, n).len() == n,
        forall|i: int|
            0 <= i < n ==> #[trigger] sign_diagonal(seed, n)[i] == if (states[i + 1]
                * 0x2545_F491_4F6C_DD1D) % 0x1_0000_0000_0000_0000 < 0x8000_0000_0000_0000 {
                0xBF80_0000u32
            } else {
                0x3F80_0000u32
            },
{
    let states = Seq::new(n + 1, |i: int| state_after(seed, i as nat));
    assert forall|i: int| 0 <= i < n implies #[trigger] states[i + 1] == ({
        let a = states[i] ^ (states[i] >> 12);
        let b = a ^ (a << 25);
        b ^ (b >> 27)
    }) by {
        assert(states[i + 1] == state_after(seed, (i + 1) as nat));
    }
    states
}

/// The stages from `pow2(t)` on, one behind the other.
proof fn lemma_stages(f: Meaning, v: Seq<u32>, t: nat, k: nat) -> (stages: Seq<Seq<u32>>)
    requires
        t <= k,
        v.len() == pow2(k),
    ensures
        stages.len() == k - t + 1,
        stages[0] == v,
        forall|i: int| 0 <= i <= k - t ==> (#[trigger] stages[i]).len() == v.len(),
        forall|i: int|
            0 <= i < k - t ==> #[trigger] stages[i + 1] == butterfly(
                f,
                stages[i],
                pow2((t + i) as nat) as int,
            ),
        butterflies(f, v, pow2(t) as int) == stages[k - t],
    decreases k - t,
{
    lemma_pow2_pos(t);
    if t == k {
        seq![v]
    } else {
        lemma_pow2_strictly_increases(t, k);
        lemma_pow2_unfold(t + 1);
        let h = pow2(t) as int;
        let next = butterfly(f, v, h);
        let rest = lemma_stages(f, next, t + 1, k);
        let stages = seq![v] + rest;
        assert forall|i: int| 0 <= i <= k - t implies (#[trigger] stages[i]).len() == v.len() by {
            if i > 0 {
                assert(stages[i] == rest[i - 1]);
            }
        }
        assert forall|i: int| 0 <= i < k - t implies #[trigger] stages[i + 1] == butterfly(
            f,
            stages[i],
            pow2((t + i) as nat) as int,
        ) by {
            assert(stages[i + 1] == rest[i]);
            if i > 0 {
                assert(stages[i] == rest[i - 1]);
                assert(rest[(i - 1) + 1] == butterfly(
                    f,
                    rest[i - 1],
                    pow2((t + 1 + (i - 1)) as nat) as int,
                ));
            }
        }
        assert(stages[k - t] == rest[k - t - 1]);
        stages
    }
}

/// Stage `t` of a transform over `pow2(k)` entries: entries whose places differ in
/// bit `t` alone become their sum, where the bit is not set, and their difference,
/// where it is.
pub open spec fn is_stage(f: Meaning, before: Seq<u32>, after: Seq<u32>, t: nat) -> bool {
    &&& after.len() == before.len()
    &&& forall|j: int|
        0 <= j < after.len() ==> #[trigger] after[j] == if (j / pow2(t) as int) % 2 == 0 {
            f(Op::Add, before[j], before[j + pow2(t)])
        } else {
            f(Op::Sub, before[j - pow2(t)], before[j])
        }
}

/// A rotated vector: its working coordinates are divided by their norm, zeros fill
/// them up to the padded length, every entry is multiplied by its sign, and one
/// stage for each bit of the places combines the entries. What each stage leaves is
/// returned.
pub proof fn law_rotation_stages(f: Meaning, st: IndexState, v: Seq<u32>, k: nat) -> (stages: Seq<
    Seq<u32>,
>)
    requires
        1 <= st.working_dim <= v.len(),
        st.padded() == pow2(k),
    ensures
        stages.len() == k + 1,
        stages[0].len() == st.padded(),
        forall|i: int|
            0 <= i < st.padded() ==> #[trigger] stages[0][i] == f(
                Op::Mul,
                if i < st.working_dim {
                    f(Op::Div, v[i], norm(f, v.subrange(0, st.working_dim as int)))
                } else {
                    0
                },
                sign_diagonal(st.seed, st.padded())[i],
            ),
        forall|t: int| 0 <= t < k ==> is_stage(f, #[trigger] stages[t], stages[t + 1], t as nat),
        rotation(f, st.signs(), st.working_dim, v) == stages[k as int],
{
    lemma2_to64();
    let signs = st.signs();
    let u = unit(f, st.working_dim, v);
    let first = Seq::new(
        signs.len(),
        |i: int|
            f(
                Op::Mul,
                if i < u.len() {
                    u[i]
                } else {
                    0
                },
                signs[i],
            ),
    );
    assert(v.take(st.working_dim as int) =~= v.subrange(0, st.working_dim as int));
    let stages = lemma_stages(f, first, 0, k);
    assert forall|t: int| 0 <= t < k implies is_stage(
        f,
        #[trigger] stages[t],
        stages[t + 1],
        t as nat,
    ) by {
        assert(stages[t + 1] == butterfly(f, stages[t], pow2((0 + t) as nat) as int));
    }
    assert(rotated(f, signs, u) == butterflies(f, first, 1));
    stages
}

/// A prepared query is the rotated query, every entry divided by the norm of all.
pub proof fn law_query_rotation(f: Meaning, st: IndexState, q: Seq<u32>, i: int)
    requires
        0 <= i < st.padded(),
    ensures
        ({
            let x = rotation(f, st.signs(), st.working_dim, q);
            let r = query_rotation(f, st.signs(), st.working_dim, q);
            &&& x.len() == st.padded()
            &&& r.len() == st.padded()
            &&& r[i] == f(Op::Div, x[i], norm(f, x))
        }),
{
    lemma_rotation_len(f, st, q);
}

/// The number that a state of the stream gives: the product of the state and a constant, cut
/// to 64 bits, without its eleven lowest bits.
pub proof fn law_stream_output(state: u64)
    ensures
        output(state) == (state * 0x2545_F491_4F6C_DD1D) % 0x1_0000_0000_0000_0000 / 2048,
{
}

/// The Walsh-Hadamard transform has one stage for each bit of the places, the lowest first;
/// what each leaves is returned.
pub proof fn law_transform_stages(f: Meaning, v: Seq<u32>, k: nat) -> (stages: Seq<Seq<u32>>)
    requires
        v.len() == pow2(k),
    ensures
        stages.len() == k + 1,
        stages[0] == v,
        forall|t: int| 0 <= t < k ==> is_stage(f, #[trigger] stages[t], stages[t + 1], t as nat),
        hadamard(f, v) == stages[k as int],
{
    lemma2_to64();
    let stages = lemma_stages(f, v, 0, k);
    assert forall|t: int| 0 <= t < k implies is_stage(
        f,
        #[trigger] stages[t],
        stages[t + 1],
        t as nat,
    ) by {
        assert(stages[t + 1] == butterfly(f, stages[t], pow2((0 + t) as nat) as int));
    }
    stages
}

} // verus!
