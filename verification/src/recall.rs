//! Ground truth and recall: exact ranking of vectors, and how much of it a
//! search found.

use vstd::prelude::*;

use crate::arith::{above, is_arithmetic, is_nan, meaning, operate, Meaning, Op, ZERO};
use crate::state::{answer, has_direction, IndexState};
use crate::store::{cosine, cosine_f32, inner_product, VecqIndex};
use crate::topk::{key_of_score, order_key};

verus! {

/// A ranking with one more index: behind all that have at least its key.
pub open spec fn placed(s: Seq<usize>, keys: Seq<u32>, i: usize) -> Seq<usize>
    decreases s.len(),
{
    if s.len() == 0 || keys[s.last() as int] >= keys[i as int] {
        s.push(i)
    } else {
        placed(s.drop_last(), keys, i).push(s.last())
    }
}

/// The indices of the first `n` keys, greatest key first, and the lower index
/// first among equal keys.
pub open spec fn ranking(keys: Seq<u32>, n: nat) -> Seq<usize>
    decreases n,
{
    if n == 0 {
        Seq::empty()
    } else {
        placed(ranking(keys, (n - 1) as nat), keys, (n - 1) as usize)
    }
}

/// At most the first `k`.
pub open spec fn first_of(s: Seq<usize>, k: nat) -> Seq<usize> {
    if s.len() <= k {
        s
    } else {
        s.take(k as int)
    }
}

/// `i` stands before `j` in a ranking.
pub open spec fn ranks_before(keys: Seq<u32>, i: usize, j: usize) -> bool {
    keys[i as int] > keys[j as int] || (keys[i as int] == keys[j as int] && i < j)
}

/// What placing an index does.
proof fn lemma_placed(s: Seq<usize>, keys: Seq<u32>, i: usize)
    ensures
        ({
            let r = placed(s, keys, i);
            &&& r.len() == s.len() + 1
            &&& exists|p: int|
                0 <= p <= s.len() && #[trigger] s.insert(p, i) == r && (forall|j: int|
                    p <= j < s.len() ==> keys[#[trigger] s[j] as int] < keys[i as int]) && (p > 0
                    ==> keys[s[p - 1] as int] >= keys[i as int])
        }),
    decreases s.len(),
{
    let r = placed(s, keys, i);
    if s.len() == 0 || keys[s.last() as int] >= keys[i as int] {
        assert(s.insert(s.len() as int, i) =~= r);
    } else {
        let rest = s.drop_last();
        lemma_placed(rest, keys, i);
        let q = placed(rest, keys, i);
        let p = choose|p: int|
            0 <= p <= rest.len() && #[trigger] rest.insert(p, i) == q && (forall|j: int|
                p <= j < rest.len() ==> keys[#[trigger] rest[j] as int] < keys[i as int]) && (p > 0
                ==> keys[rest[p - 1] as int] >= keys[i as int]);
        assert(s.insert(p, i) =~= r);
        assert forall|j: int| p <= j < s.len() implies keys[#[trigger] s[j] as int]
            < keys[i as int] by {
            if j < rest.len() {
                assert(rest[j] == s[j]);
            }
        }
        if p > 0 {
            assert(rest[p - 1] == s[p - 1]);
        }
    }
}

/// A ranking holds every index once, greatest key first and the lower index
/// first among equal keys.
pub proof fn law_ranking(keys: Seq<u32>, n: nat)
    requires
        n <= keys.len(),
        n <= usize::MAX,
    ensures
        ranking(keys, n).len() == n,
        forall|i: int| 0 <= i < n ==> (#[trigger] ranking(keys, n)[i]) < n,
        forall|i: int, j: int|
            0 <= i < j < n ==> ranks_before(
                keys,
                #[trigger] ranking(keys, n)[i],
                #[trigger] ranking(keys, n)[j],
            ),
        forall|x: usize| x < n ==> #[trigger] ranking(keys, n).contains(x),
    decreases n,
{
    if n > 0 {
        let m = (n - 1) as nat;
        law_ranking(keys, m);
        let s = ranking(keys, m);
        let i = m as usize;
        let r = ranking(keys, n);
        lemma_placed(s, keys, i);
        let p = choose|p: int|
            0 <= p <= s.len() && #[trigger] s.insert(p, i) == r && (forall|j: int|
                p <= j < s.len() ==> keys[#[trigger] s[j] as int] < keys[i as int]) && (p > 0
                ==> keys[s[p - 1] as int] >= keys[i as int]);
        assert(forall|a: int| 0 <= a < p ==> #[trigger] r[a] == s[a]);
        assert(r[p] == i);
        assert(forall|a: int| p < a < n ==> #[trigger] r[a] == s[a - 1]);
        assert forall|a: int| 0 <= a < n implies (#[trigger] r[a]) < n by {
            if a < p {
                assert(s[a] < m);
            } else if a > p {
                assert(s[a - 1] < m);
            }
        }
        assert forall|a: int, b: int| 0 <= a < b < n implies ranks_before(
            keys,
            #[trigger] r[a],
            #[trigger] r[b],
        ) by {
            if a < p && b < p {
                assert(ranks_before(keys, s[a], s[b]));
            } else if a < p && b == p {
                assert(s[a] < m);
                if a < p - 1 {
                    assert(ranks_before(keys, s[a], s[p - 1]));
                }
            } else if a < p {
                assert(ranks_before(keys, s[a], s[b - 1]));
            } else if a == p {
                assert(keys[s[b - 1] as int] < keys[i as int]);
            } else {
                assert(ranks_before(keys, s[a - 1], s[b - 1]));
            }
        }
        assert forall|x: usize| x < n implies #[trigger] r.contains(x) by {
            if x == i {
                assert(r[p] == x);
            } else {
                assert(s.contains(x));
                let a = choose|a: int| 0 <= a < s.len() && s[a] == x;
                if a < p {
                    assert(r[a] == x);
                } else {
                    assert(r[a + 1] == x);
                }
            }
        }
    }
}

/// The first `k` of a ranking come from the first `k` of the shorter one.
proof fn lemma_first_placed(s: Seq<usize>, keys: Seq<u32>, i: usize, k: nat)
    requires
        forall|a: int, b: int|
            0 <= a <= b < s.len() ==> keys[#[trigger] s[a] as int] >= keys[#[trigger] s[b] as int],
    ensures
        first_of(placed(s, keys, i), k) == first_of(placed(first_of(s, k), keys, i), k),
    decreases s.len(),
{
    if s.len() > k {
        let rest = s.drop_last();
        assert(first_of(rest, k) =~= first_of(s, k));
        assert forall|a: int, b: int| 0 <= a <= b < rest.len() implies keys[#[trigger] rest[a] as int]
            >= keys[#[trigger] rest[b] as int] by {
            assert(rest[a] == s[a] && rest[b] == s[b]);
        }
        lemma_first_placed(rest, keys, i, k);
        lemma_placed(s, keys, i);
        lemma_placed(rest, keys, i);
        if keys[s.last() as int] >= keys[i as int] {
            // The new index comes last, behind those that count.
            assert(first_of(placed(s, keys, i), k) =~= first_of(s, k));
            if rest.len() > 0 {
                assert(keys[rest.last() as int] >= keys[s.last() as int]) by {
                    assert(s[rest.len() - 1] == rest.last());
                    assert(s[s.len() - 1] == s.last());
                }
            }
            assert(placed(rest, keys, i) == rest.push(i));
            assert(first_of(rest.push(i), k) =~= first_of(s, k));
        } else {
            assert(first_of(placed(s, keys, i), k) =~= first_of(placed(rest, keys, i), k));
        }
    }
}

/// Rank keys: the indices of the `k` greatest.
pub fn rank(keys: &[u32], k: usize) -> (r: Vec<usize>)
    ensures
        r@ == first_of(ranking(keys@, keys@.len()), k as nat),
{
    let mut best: Vec<usize> = Vec::new();
    let n: usize = keys.len();
    let mut i: usize = 0;
    while i < n
        invariant
            n == keys@.len(),
            i <= n,
            best@ == first_of(ranking(keys@, i as nat), k as nat),
        decreases n - i,
    {
        let ghost before = best@;
        proof {
            let s = ranking(keys@, i as nat);
            law_ranking(keys@, i as nat);
            assert forall|a: int, b: int| 0 <= a <= b < s.len() implies keys@[#[trigger] s[a] as int]
                >= keys@[#[trigger] s[b] as int] by {
                if a < b {
                    assert(ranks_before(keys@, s[a], s[b]));
                }
            }
            lemma_first_placed(s, keys@, i, k as nat);
            assert forall|j: int| 0 <= j < before.len() implies #[trigger] before[j] < n by {
                assert(before[j] == s[j]);
            }
        }
        let mut p: usize = best.len();
        while p > 0 && keys[best[p - 1]] < keys[i]
            invariant
                n == keys@.len(),
                i < n,
                best@ == before,
                p <= before.len(),
                forall|j: int| 0 <= j < before.len() ==> #[trigger] before[j] < n,
                forall|j: int|
                    p <= j < before.len() ==> keys@[#[trigger] before[j] as int] < keys@[i as int],
            decreases p,
        {
            p = p - 1;
        }
        proof {
            lemma_placed_at(before, keys@, i, p as int);
        }
        if p < k {
            best.insert(p, i);
            if best.len() > k {
                best.pop();
            }
        }
        proof {
            let full = placed(before, keys@, i);
            assert(best@ =~= first_of(full, k as nat));
        }
        i = i + 1;
    }
    best
}

/// Where an index is placed.
proof fn lemma_placed_at(s: Seq<usize>, keys: Seq<u32>, i: usize, p: int)
    requires
        0 <= p <= s.len(),
        forall|j: int| p <= j < s.len() ==> keys[#[trigger] s[j] as int] < keys[i as int],
        p > 0 ==> keys[s[p - 1] as int] >= keys[i as int],
    ensures
        placed(s, keys, i) == s.insert(p, i),
    decreases s.len(),
{
    if p == s.len() {
        if p > 0 {
            assert(s.last() == s[p - 1]);
        }
        assert(s.push(i) =~= s.insert(p, i));
    } else {
        assert(keys[s[s.len() - 1] as int] < keys[i as int]);
        let rest = s.drop_last();
        assert forall|j: int| p <= j < rest.len() implies keys[#[trigger] rest[j] as int]
            < keys[i as int] by {
            assert(rest[j] == s[j]);
        }
        if p > 0 {
            assert(rest[p - 1] == s[p - 1]);
        }
        lemma_placed_at(rest, keys, i, p);
        assert(rest.insert(p, i).push(s.last()) =~= s.insert(p, i));
    }
}

/// The inner product of unit vectors is their cosine similarity.
pub fn unit_cosine<A: Fn(Op, u32, u32) -> u32>(a: &[u32], b: &[u32], arith: &A) -> (r: u32)
    requires
        is_arithmetic(*arith),
        a@.len() <= b@.len(),
    ensures
        r == inner_product(meaning(*arith), a@, b@, a@.len()),
{
    let mut dot: u32 = ZERO;
    let mut i: usize = 0;
    while i < a.len()
        invariant
            is_arithmetic(*arith),
            a@.len() <= b@.len(),
            i <= a@.len(),
            dot == inner_product(meaning(*arith), a@, b@, i as nat),
        decreases a@.len() - i,
    {
        let product: u32 = operate(arith, Op::Mul, a[i], b[i]);
        dot = operate(arith, Op::Add, dot, product);
        i = i + 1;
    }
    dot
}

/// The rank keys of unit vectors against a query.
pub open spec fn unit_keys(f: Meaning, base: Seq<Vec<u32>>, q: Seq<u32>) -> Seq<u32> {
    base.map_values(|v: Vec<u32>| order_key(inner_product(f, q, v@, q.len())))
}

/// The indices of the `k` unit vectors that are closest to a query: best first,
/// and the lower index first among equal scores.
pub fn brute_topk<A: Fn(Op, u32, u32) -> u32>(
    base: &[Vec<u32>],
    q: &[u32],
    k: usize,
    arith: &A,
) -> (r: Vec<usize>)
    requires
        is_arithmetic(*arith),
        forall|i: int| 0 <= i < base@.len() ==> q@.len() <= (#[trigger] base@[i])@.len(),
    ensures
        r@ == first_of(
            ranking(unit_keys(meaning(*arith), base@, q@), base@.len()),
            k as nat,
        ),
{
    let ghost want = unit_keys(meaning(*arith), base@, q@);
    let mut keys: Vec<u32> = Vec::new();
    let mut i: usize = 0;
    while i < base.len()
        invariant
            is_arithmetic(*arith),
            forall|i: int| 0 <= i < base@.len() ==> q@.len() <= (#[trigger] base@[i])@.len(),
            want == unit_keys(meaning(*arith), base@, q@),
            i <= base@.len(),
            keys@ == want.take(i as int),
        decreases base@.len() - i,
    {
        let s: u32 = unit_cosine(q, base[i].as_slice(), arith);
        keys.push(key_of_score(s));
        i = i + 1;
        proof {
            assert(keys@ =~= want.take(i as int));
        }
    }
    proof {
        assert(want.take(want.len() as int) =~= want);
    }
    rank(keys.as_slice(), k)
}

/// The rank key of a score among numbers: the two zeros are equal.
pub open spec fn number_key(score: u32) -> u32 {
    if score == 0x8000_0000 {
        order_key(0)
    } else {
        order_key(score)
    }
}

/// The exact scores of vectors against a query.
pub open spec fn exact_scores(f: Meaning, base: Seq<Vec<u32>>, q: Seq<u32>) -> Seq<u32> {
    base.map_values(|v: Vec<u32>| cosine(f, q, v@))
}

/// Whether scores can be compared as numbers: there are not two of them, or all
/// are numbers.
pub open spec fn comparable(scores: Seq<u32>) -> bool {
    scores.len() <= 1 || forall|i: int| 0 <= i < scores.len() ==> !is_nan(#[trigger] scores[i])
}

/// Whether a pattern is not a number.
fn not_a_number(x: u32) -> (r: bool)
    ensures
        r == is_nan(x),
{
    x % 0x8000_0000 > 0x7F80_0000
}

/// The rank keys of scores that are compared as numbers.
pub open spec fn number_keys(scores: Seq<u32>) -> Seq<u32> {
    scores.map_values(|s: u32| number_key(s))
}

/// Rank scores as numbers: the indices of the `k` greatest, best first, and the
/// lower index first among equal scores. Nothing where a score that has to be
/// compared is not a number.
pub fn rank_numbers(scores: &[u32], k: usize) -> (r: Option<Vec<usize>>)
    ensures
        r is Some <==> comparable(scores@),
        r matches Some(found) ==> found@ == first_of(
            ranking(number_keys(scores@), scores@.len()),
            k as nat,
        ),
{
    let ghost want = number_keys(scores@);
    let mut keys: Vec<u32> = Vec::new();
    let n: usize = scores.len();
    let mut i: usize = 0;
    while i < n
        invariant
            want == number_keys(scores@),
            n == scores@.len(),
            i <= n,
            keys@ == want.take(i as int),
            n > 1 ==> forall|j: int| 0 <= j < i ==> !is_nan(#[trigger] scores@[j]),
        decreases n - i,
    {
        let s: u32 = scores[i];
        if n > 1 && not_a_number(s) {
            return None;
        }
        let key: u32 = if s == 0x8000_0000 {
            key_of_score(0)
        } else {
            key_of_score(s)
        };
        keys.push(key);
        i = i + 1;
        proof {
            assert(keys@ =~= want.take(i as int));
        }
    }
    proof {
        assert(want.take(want.len() as int) =~= want);
    }
    Some(rank(keys.as_slice(), k))
}

/// The indices of the `k` vectors with the greatest cosine similarity to a query,
/// best first. Nothing where a score that has to be compared is not a number.
pub fn exact_top_k<A: Fn(Op, u32, u32) -> u32>(
    base: &[Vec<u32>],
    q: &[u32],
    k: usize,
    arith: &A,
) -> (r: Option<Vec<usize>>)
    requires
        is_arithmetic(*arith),
        forall|i: int| 0 <= i < base@.len() ==> q@.len() <= (#[trigger] base@[i])@.len(),
    ensures
        r is Some <==> comparable(exact_scores(meaning(*arith), base@, q@)),
        r matches Some(found) ==> found@ == first_of(
            ranking(number_keys(exact_scores(meaning(*arith), base@, q@)), base@.len()),
            k as nat,
        ),
{
    let ghost want = exact_scores(meaning(*arith), base@, q@);
    let mut scores: Vec<u32> = Vec::new();
    let mut i: usize = 0;
    while i < base.len()
        invariant
            is_arithmetic(*arith),
            forall|i: int| 0 <= i < base@.len() ==> q@.len() <= (#[trigger] base@[i])@.len(),
            want == exact_scores(meaning(*arith), base@, q@),
            i <= base@.len(),
            scores@ == want.take(i as int),
        decreases base@.len() - i,
    {
        scores.push(cosine_f32(q, base[i].as_slice(), arith));
        i = i + 1;
        proof {
            assert(scores@ =~= want.take(i as int));
        }
    }
    proof {
        assert(want.take(want.len() as int) =~= want);
    }
    rank_numbers(scores.as_slice(), k)
}

/// How many of the first `n` of `truth` were found.
pub open spec fn hit_count(truth: Seq<usize>, found: Seq<usize>, n: nat) -> nat
    decreases n,
{
    if n == 0 {
        0
    } else {
        hit_count(truth, found, (n - 1) as nat) + if found.contains(truth[n - 1]) {
            1nat
        } else {
            0nat
        }
    }
}

/// Whether an index is among those found.
fn holds(found: &[usize], x: usize) -> (r: bool)
    ensures
        r == found@.contains(x),
{
    let mut i: usize = 0;
    while i < found.len()
        invariant
            i <= found@.len(),
            forall|j: int| 0 <= j < i ==> #[trigger] found@[j] != x,
        decreases found@.len() - i,
    {
        if found[i] == x {
            return true;
        }
        i = i + 1;
    }
    false
}

/// How many of the true neighbours were found; recall is this number over that
/// of the true neighbours.
pub fn count_hits(truth: &[usize], found: &[usize]) -> (r: usize)
    ensures
        r == hit_count(truth@, found@, truth@.len()),
        r <= truth@.len(),
{
    let mut hits: usize = 0;
    let mut i: usize = 0;
    while i < truth.len()
        invariant
            i <= truth@.len(),
            hits <= i,
            hits == hit_count(truth@, found@, i as nat),
        decreases truth@.len() - i,
    {
        if holds(found, truth[i]) {
            hits = hits + 1;
        }
        i = i + 1;
    }
    hits
}

/// Finding everything is full recall.
pub proof fn law_full_recall(truth: Seq<usize>, found: Seq<usize>, n: nat)
    requires
        n <= truth.len(),
        forall|i: int| 0 <= i < truth.len() ==> found.contains(#[trigger] truth[i]),
    ensures
        hit_count(truth, found, n) == n,
    decreases n,
{
    if n > 0 {
        law_full_recall(truth, found, (n - 1) as nat);
        assert(found.contains(truth[n - 1]));
    }
}

/// The score of two coded vectors by a table of products of sixteen levels,
/// added up from the front over the first `n` codes.
pub open spec fn table_score(
    f: Meaning,
    products: Seq<u32>,
    a: Seq<u8>,
    b: Seq<u8>,
    n: nat,
) -> u32
    decreases n,
{
    if n == 0 {
        ZERO
    } else {
        f(
            Op::Add,
            table_score(f, products, a, b, (n - 1) as nat),
            products[a[n - 1] * 16 + b[n - 1]],
        )
    }
}

/// Score a coded vector against a coded query by a table of products.
pub fn symmetric_score<A: Fn(Op, u32, u32) -> u32>(
    products: &[u32],
    query: &[u8],
    codes: &[u8],
    arith: &A,
) -> (r: u32)
    requires
        is_arithmetic(*arith),
        products@.len() == 256,
        codes@.len() <= query@.len(),
        forall|i: int| 0 <= i < query@.len() ==> #[trigger] query@[i] < 16,
        forall|i: int| 0 <= i < codes@.len() ==> #[trigger] codes@[i] < 16,
    ensures
        r == table_score(meaning(*arith), products@, query@, codes@, codes@.len()),
{
    let mut s: u32 = ZERO;
    let mut j: usize = 0;
    while j < codes.len()
        invariant
            is_arithmetic(*arith),
            products@.len() == 256,
            codes@.len() <= query@.len(),
            forall|i: int| 0 <= i < query@.len() ==> #[trigger] query@[i] < 16,
            forall|i: int| 0 <= i < codes@.len() ==> #[trigger] codes@[i] < 16,
            j <= codes@.len(),
            s == table_score(meaning(*arith), products@, query@, codes@, j as nat),
        decreases codes@.len() - j,
    {
        let cell: usize = query[j] as usize * 16 + codes[j] as usize;
        s = operate(arith, Op::Add, s, products[cell]);
        j = j + 1;
    }
    s
}

/// The scores of coded vectors against a coded query.
pub open spec fn table_scores(
    f: Meaning,
    products: Seq<u32>,
    query: Seq<u8>,
    base: Seq<Vec<u8>>,
) -> Seq<u32> {
    base.map_values(|c: Vec<u8>| table_score(f, products, query, c@, c@.len()))
}

/// The indices of the `k` coded vectors that score highest against a coded query
/// by a table of products, best first. Nothing where a score that has to be
/// compared is not a number.
pub fn symmetric_top_k<A: Fn(Op, u32, u32) -> u32>(
    products: &[u32],
    base: &[Vec<u8>],
    query: &[u8],
    k: usize,
    arith: &A,
) -> (r: Option<Vec<usize>>)
    requires
        is_arithmetic(*arith),
        products@.len() == 256,
        forall|i: int| 0 <= i < query@.len() ==> #[trigger] query@[i] < 16,
        forall|i: int|
            0 <= i < base@.len() ==> coded_like(#[trigger] base@[i]@, query@.len()),
    ensures
        r is Some <==> comparable(table_scores(meaning(*arith), products@, query@, base@)),
        r matches Some(found) ==> found@ == first_of(
            ranking(
                number_keys(table_scores(meaning(*arith), products@, query@, base@)),
                base@.len(),
            ),
            k as nat,
        ),
{
    let ghost want = table_scores(meaning(*arith), products@, query@, base@);
    let mut scores: Vec<u32> = Vec::new();
    let mut i: usize = 0;
    while i < base.len()
        invariant
            is_arithmetic(*arith),
            products@.len() == 256,
            forall|i: int| 0 <= i < query@.len() ==> #[trigger] query@[i] < 16,
            forall|i: int|
                0 <= i < base@.len() ==> coded_like(#[trigger] base@[i]@, query@.len()),
            want == table_scores(meaning(*arith), products@, query@, base@),
            i <= base@.len(),
            scores@ == want.take(i as int),
        decreases base@.len() - i,
    {
        assert(coded_like(base@[i as int]@, query@.len()));
        scores.push(symmetric_score(products, query, base[i].as_slice(), arith));
        i = i + 1;
        proof {
            assert(scores@ =~= want.take(i as int));
        }
    }
    proof {
        assert(want.take(want.len() as int) =~= want);
    }
    rank_numbers(scores.as_slice(), k)
}

/// Codes of sixteen levels, no more than `n` of them.
pub open spec fn coded_like(codes: Seq<u8>, n: nat) -> bool {
    &&& codes.len() <= n
    &&& forall|i: int| 0 <= i < codes.len() ==> #[trigger] codes[i] < 16
}

/// The slots of hits.
pub open spec fn slots_of(found: Seq<(usize, u32)>) -> Seq<usize> {
    found.map_values(|h: (usize, u32)| h.0)
}

/// How many of the true `k` nearest of the first `n` queries an index finds
/// among its `k` best.
pub open spec fn hits_of(
    f: Meaning,
    st: IndexState,
    base: Seq<Vec<u32>>,
    queries: Seq<Vec<u32>>,
    k: nat,
    n: nat,
) -> nat
    decreases n,
{
    if n == 0 {
        0
    } else {
        let q = queries[n - 1]@;
        let truth = first_of(ranking(unit_keys(f, base, q), base.len()), k);
        hits_of(f, st, base, queries, k, (n - 1) as nat) + hit_count(
            truth,
            slots_of(answer(f, st, q, k)),
            truth.len(),
        )
    }
}

/// How many of the true nearest unit vectors an index finds, over all queries.
pub fn total_hits<A: Fn(Op, u32, u32) -> u32>(
    idx: &VecqIndex,
    base: &[Vec<u32>],
    queries: &[Vec<u32>],
    k: usize,
    arith: &A,
) -> (r: usize)
    requires
        idx.wf(),
        is_arithmetic(*arith),
        forall|i: int|
            0 <= i < queries@.len() ==> (#[trigger] queries@[i])@.len() == idx@.dim
                && has_direction(meaning(*arith), idx@.working_dim, queries@[i]@),
        forall|i: int| 0 <= i < base@.len() ==> idx@.dim <= (#[trigger] base@[i])@.len(),
        queries@.len() * k <= usize::MAX,
    ensures
        r == hits_of(meaning(*arith), idx@, base@, queries@, k as nat, queries@.len()),
{
    let ghost f = meaning(*arith);
    let n: usize = queries.len();
    let mut hits: usize = 0;
    let mut i: usize = 0;
    proof {
        assert(0 * k == 0) by (nonlinear_arith);
    }
    while i < n
        invariant
            idx.wf(),
            is_arithmetic(*arith),
            f == meaning(*arith),
            forall|i: int|
                0 <= i < queries@.len() ==> (#[trigger] queries@[i])@.len() == idx@.dim
                    && has_direction(f, idx@.working_dim, queries@[i]@),
            forall|i: int| 0 <= i < base@.len() ==> idx@.dim <= (#[trigger] base@[i])@.len(),
            n == queries@.len(),
            n * k <= usize::MAX,
            i <= n,
            hits == hits_of(f, idx@, base@, queries@, k as nat, i as nat),
            hits <= i * k,
        decreases n - i,
    {
        let q = queries[i].as_slice();
        let found = idx.search(q, k, arith);
        let truth = brute_topk(base, q, k, arith);
        let slots = only_slots(found.as_slice());
        let now: usize = count_hits(truth.as_slice(), slots.as_slice());
        proof {
            assert(now <= k);
            assert((i + 1) * k == i * k + k && (i + 1) * k <= n * k) by (nonlinear_arith)
                requires
                    i + 1 <= n,
                    0 <= k,
            ;
        }
        hits = hits + now;
        i = i + 1;
    }
    hits
}

/// The slots of hits.
fn only_slots(found: &[(usize, u32)]) -> (r: Vec<usize>)
    ensures
        r@ == slots_of(found@),
{
    let mut out: Vec<usize> = Vec::new();
    while out.len() < found.len()
        invariant
            out@.len() <= found@.len(),
            out@ == slots_of(found@).take(out@.len() as int),
        decreases found@.len() - out@.len(),
    {
        out.push(found[out.len()].0);
        proof {
            assert(out@ =~= slots_of(found@).take(out@.len() as int));
        }
    }
    proof {
        assert(out@ =~= slots_of(found@));
    }
    out
}

/// A ranking of scores: at most `k` of the indices, each once; the greatest key first, the
/// lower index first among equal ones; and none that is left out has a greater key than
/// one that is there.
pub proof fn law_rank_is_best(keys: Seq<u32>, k: nat)
    requires
        keys.len() <= usize::MAX,
    ensures
        ({
            let r = first_of(ranking(keys, keys.len()), k);
            &&& r.len() == if keys.len() < k {
                keys.len()
            } else {
                k
            }
            &&& forall|i: int| 0 <= i < r.len() ==> (#[trigger] r[i]) < keys.len()
            &&& forall|i: int, j: int|
                0 <= i < j < r.len() ==> keys[(#[trigger] r[i]) as int] > keys[(
                #[trigger] r[j]) as int] || (keys[r[i] as int] == keys[r[j] as int] && r[i] < r[j])
            &&& forall|x: usize, i: int|
                x < keys.len() && !r.contains(x) && 0 <= i < r.len() ==> keys[(
                #[trigger] r[i]) as int] > #[trigger] keys[x as int] || (keys[r[i] as int]
                    == keys[x as int] && r[i] < x)
        }),
{
    let all = ranking(keys, keys.len());
    let r = first_of(all, k);
    law_ranking(keys, keys.len());
    assert forall|i: int, j: int| 0 <= i < j < r.len() implies keys[(#[trigger] r[i]) as int]
        > keys[(#[trigger] r[j]) as int] || (keys[r[i] as int] == keys[r[j] as int] && r[i]
        < r[j]) by {
        assert(r[i] == all[i] && r[j] == all[j]);
        assert(ranks_before(keys, all[i], all[j]));
    }
    assert forall|x: usize, i: int| x < keys.len() && !r.contains(x) && 0 <= i < r.len() implies
        keys[(#[trigger] r[i]) as int] > #[trigger] keys[x as int] || (keys[r[i] as int]
        == keys[x as int] && r[i] < x) by {
        assert(all.contains(x));
        let p = choose|p: int| 0 <= p < all.len() && all[p] == x;
        if p < r.len() {
            assert(r[p] == x);
        }
        assert(ranks_before(keys, all[i], all[p]));
    }
}

/// The keys by which scores are ranked: a greater score that is a number has a greater
/// key, and equal numbers have equal keys, zero and minus zero among them.
pub proof fn law_rank_keys(f: Meaning, base: Seq<Vec<u32>>, q: Seq<u32>, i: int, j: int)
    requires
        0 <= i < base.len(),
        0 <= j < base.len(),
    ensures
        ({
            let a = inner_product(f, q, base[i]@, q.len());
            let b = inner_product(f, q, base[j]@, q.len());
            let x = cosine(f, q, base[i]@);
            let y = cosine(f, q, base[j]@);
            let by_product = unit_keys(f, base, q);
            let scores = exact_scores(f, base, q);
            let by_cosine = number_keys(scores);
            &&& by_product.len() == base.len()
            &&& scores.len() == base.len()
            &&& by_cosine.len() == base.len()
            &&& scores[i] == x
            &&& above(a, b) ==> by_product[i] > by_product[j]
            &&& a == b ==> by_product[i] == by_product[j]
            &&& above(x, y) ==> by_cosine[i] > by_cosine[j]
            &&& !is_nan(x) && !is_nan(y) && !above(x, y) && !above(y, x) ==> by_cosine[i]
                == by_cosine[j]
        }),
{
}

/// The indices of the found among the true: their number is the recall, over that of the
/// true ones.
pub proof fn law_hits_are_counted(truth: Seq<usize>, found: Seq<usize>, n: nat)
    requires
        n <= truth.len(),
    ensures
        Set::new(|i: int| 0 <= i < n && found.contains(truth[i])).finite(),
        hit_count(truth, found, n) == Set::new(
            |i: int| 0 <= i < n && found.contains(truth[i]),
        ).len(),
    decreases n,
{
    let s = Set::new(|i: int| 0 <= i < n && found.contains(truth[i]));
    if n == 0 {
        assert(s =~= Set::empty());
    } else {
        law_hits_are_counted(truth, found, (n - 1) as nat);
        let t = Set::new(|i: int| 0 <= i < n - 1 && found.contains(truth[i]));
        if found.contains(truth[n - 1]) {
            assert(s =~= t.insert(n - 1));
        } else {
            assert(s =~= t);
        }
    }
}

/// The hits over all queries are those of each query, added: of the `k` vectors of the
/// base that rank highest, how many are among the slots of the answer.
pub proof fn law_total_hits(
    f: Meaning,
    st: IndexState,
    base: Seq<Vec<u32>>,
    queries: Seq<Vec<u32>>,
    k: nat,
    n: nat,
)
    requires
        n < queries.len(),
    ensures
        hits_of(f, st, base, queries, k, 0) == 0,
        ({
            let truth = first_of(ranking(unit_keys(f, base, queries[n as int]@), base.len()), k);
            let found = answer(f, st, queries[n as int]@, k);
            let slots = Seq::new(found.len(), |i: int| found[i].0);
            hits_of(f, st, base, queries, k, n + 1) == hits_of(f, st, base, queries, k, n)
                + hit_count(truth, slots, truth.len())
        }),
{
    let found = answer(f, st, queries[n as int]@, k);
    assert(slots_of(found) =~= Seq::new(found.len(), |i: int| found[i].0));
}

/// The score of two coded vectors adds up the products of their levels from the front; the
/// intermediate sums are returned.
pub proof fn law_table_score(f: Meaning, products: Seq<u32>, a: Seq<u8>, b: Seq<u8>, n: nat) -> (
    sums: Seq<u32>)
    ensures
        sums.len() == n + 1,
        sums[0] == 0,
        forall|i: int|
            0 <= i < n ==> #[trigger] sums[i + 1] == f(
                Op::Add,
                sums[i],
                products[16 * a[i] + b[i]],
            ),
        table_score(f, products, a, b, n) == sums[n as int],
{
    let sums = Seq::new(n + 1, |i: int| table_score(f, products, a, b, i as nat));
    assert forall|i: int| 0 <= i < n implies #[trigger] sums[i + 1] == f(
        Op::Add,
        sums[i],
        products[16 * a[i] + b[i]],
    ) by {
        assert(a[i] * 16 + b[i] == 16 * a[i] + b[i]);
    }
    sums
}

/// The scores of coded vectors, one for each.
pub proof fn law_table_scores(
    f: Meaning,
    products: Seq<u32>,
    query: Seq<u8>,
    base: Seq<Vec<u8>>,
    i: int,
)
    requires
        0 <= i < base.len(),
    ensures
        table_scores(f, products, query, base).len() == base.len(),
        table_scores(f, products, query, base)[i] == table_score(
            f,
            products,
            query,
            base[i]@,
            base[i]@.len(),
        ),
{
}

/// Scores can be compared where there are not two of them, or all are numbers.
pub proof fn law_comparable(scores: Seq<u32>)
    ensures
        comparable(scores) <==> scores.len() <= 1 || forall|i: int|
            0 <= i < scores.len() ==> (#[trigger] scores[i]) % 0x8000_0000 <= 0x7F80_0000,
{
}

} // verus!
