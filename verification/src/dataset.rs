//! Test data: deterministic random streams, raw vector files and their metadata.

use vstd::prelude::*;

use crate::bytes::{read_u32, u32_at};
use crate::rhdh::{xorshift, MULTIPLIER};

verus! {

/// A pseudo-random stream for reproducible data.
pub struct Rng {
    /// The state.
    pub state: u64,
}

impl Rng {
    /// The next number of the stream: a xorshift step from the state with its
    /// lowest bit set, multiplied.
    pub fn next_u64(&mut self) -> (r: u64)
        ensures
            final(self).state == xorshift(old(self).state | 1),
            r == (final(self).state * MULTIPLIER) % 0x1_0000_0000_0000_0000,
    {
        let mut x: u64 = self.state | 1;
        x = x ^ (x >> 12);
        x = x ^ (x << 25);
        x = x ^ (x >> 27);
        self.state = x;
        x.wrapping_mul(MULTIPLIER)
    }

    /// The numerator, over 2^53, of the next number in `[0, 1)`.
    pub fn next_numerator(&mut self) -> (r: u64)
        ensures
            final(self).state == xorshift(old(self).state | 1),
            r == (final(self).state * MULTIPLIER) % 0x1_0000_0000_0000_0000 / 2048,
            r < 0x20_0000_0000_0000,
    {
        self.next_u64() / 2048
    }
}

/// The state of a pair stream behind its first number.
pub open spec fn pair_first(x: u64) -> u64 {
    let a = x ^ (x << 13);
    let b = a ^ (a >> 7);
    b ^ (b << 17)
}

/// The state of a pair stream behind its second number.
pub open spec fn pair_second(x: u64) -> u64 {
    x ^ (x << 16)
}

/// A pseudo-random stream of pairs, for normal deviates.
pub struct PairRng {
    /// The state.
    pub state: u64,
}

impl PairRng {
    /// The numerators, over 2^53, of the next two numbers in `[0, 1)`.
    pub fn next_pair(&mut self) -> (r: (u64, u64))
        ensures
            r.0 == pair_first(old(self).state) / 2048,
            final(self).state == pair_second(pair_first(old(self).state)),
            r.1 == final(self).state / 2048,
    {
        let mut x: u64 = self.state;
        x = x ^ (x << 13);
        x = x ^ (x >> 7);
        x = x ^ (x << 17);
        let first: u64 = x / 2048;
        x = x ^ (x << 16);
        self.state = x;
        (first, x / 2048)
    }
}

/// Entry `j` of vector `i` of a raw file of vectors of length `dim`.
pub open spec fn raw_entry(b: Seq<u8>, dim: nat, i: int, j: int) -> u32 {
    u32_at(b, (i * dim + j) * 4)
}

/// The vectors of a raw file: `n` vectors of `dim` binary32 numbers each, one
/// behind the other. Nothing where the size is not that.
pub fn load_f32(bytes: &[u8], n: usize, dim: usize) -> (r: Option<Vec<Vec<u32>>>)
    ensures
        r is Some <==> bytes@.len() == n * dim * 4,
        r matches Some(rows) ==> {
            &&& rows@.len() == n
            &&& forall|i: int|
                0 <= i < n ==> (#[trigger] rows@[i])@ == Seq::new(
                    dim as nat,
                    |j: int| raw_entry(bytes@, dim as nat, i, j),
                )
        },
{
    let len: usize = bytes.len();
    let ghost nn = n as int;
    let ghost dd = dim as int;
    if len % 4 != 0 {
        return None;
    }
    let entries: usize = len / 4;
    let matches: bool = match n.checked_mul(dim) {
        Some(p) => p == entries,
        None => false,
    };
    if !matches {
        return None;
    }
    let mut rows: Vec<Vec<u32>> = Vec::new();
    let mut i: usize = 0;
    while i < n
        invariant
            len == bytes@.len(),
            entries * 4 == len,
            entries == n * dim,
            i <= n,
            rows@.len() == i,
            forall|t: int|
                0 <= t < i ==> (#[trigger] rows@[t])@ == Seq::new(
                    dim as nat,
                    |j: int| raw_entry(bytes@, dim as nat, t, j),
                ),
        decreases n - i,
    {
        let mut row: Vec<u32> = Vec::new();
        proof {
            assert(i * dim + dim <= n * dim && 0 <= i * dim) by (nonlinear_arith)
                requires
                    i + 1 <= n,
                    0 <= i,
                    0 <= dim,
            ;
        }
        let base: usize = i * dim;
        while row.len() < dim
            invariant
                len == bytes@.len(),
                entries * 4 == len,
                base == i * dim,
                base + dim <= entries,
                row@.len() <= dim,
                forall|j: int|
                    0 <= j < row@.len() ==> #[trigger] row@[j] == raw_entry(
                        bytes@,
                        dim as nat,
                        i as int,
                        j,
                    ),
            decreases dim - row@.len(),
        {
            let at: usize = (base + row.len()) * 4;
            row.push(read_u32(bytes, at));
        }
        proof {
            assert(row@ =~= Seq::new(
                dim as nat,
                |j: int| raw_entry(bytes@, dim as nat, i as int, j),
            ));
        }
        rows.push(row);
        i = i + 1;
    }
    Some(rows)
}

/// `needle` stands in `hay` at `i`.
pub open spec fn occurs_at(hay: Seq<u8>, needle: Seq<u8>, i: int) -> bool {
    i + needle.len() <= hay.len() && hay.subrange(i, i + needle.len()) == needle
}

/// Where `needle` first stands in `hay`, from `i` on.
pub open spec fn first_occurrence(hay: Seq<u8>, needle: Seq<u8>, i: int) -> Option<int>
    decreases hay.len() + 1 - i,
{
    if i + needle.len() > hay.len() {
        None
    } else if occurs_at(hay, needle, i) {
        Some(i)
    } else {
        first_occurrence(hay, needle, i + 1)
    }
}

/// A decimal digit.
pub open spec fn is_digit(c: u8) -> bool {
    48 <= c <= 57
}

/// Where the run of digits from `i` on ends; nothing if the text ends with it.
pub open spec fn digits_end(s: Seq<u8>, i: int) -> Option<int>
    decreases s.len() - i,
{
    if i >= s.len() {
        None
    } else if is_digit(s[i]) {
        digits_end(s, i + 1)
    } else {
        Some(i)
    }
}

/// The number that digits write.
pub open spec fn number_of(s: Seq<u8>) -> nat
    decreases s.len(),
{
    if s.len() == 0 {
        0
    } else {
        number_of(s.drop_last()) * 10 + (s.last() - 48) as nat
    }
}

/// A key in quotation marks.
pub open spec fn quoted(key: Seq<u8>) -> Seq<u8> {
    seq![34u8] + key + seq![34u8]
}

/// The number behind a key: the quoted key is followed by a colon and a blank,
/// whatever they are, and the digits end before the text does. Nothing where
/// the key is missing or no number that fits follows.
pub open spec fn meta_value(meta: Seq<u8>, key: Seq<u8>) -> Option<nat> {
    match first_occurrence(meta, quoted(key), 0) {
        None => None,
        Some(p) => {
            let at = p + key.len() + 4;
            match digits_end(meta, at) {
                None => None,
                Some(end) => {
                    let v = number_of(meta.subrange(at, end));
                    if end == at || v > usize::MAX {
                        None
                    } else {
                        Some(v)
                    }
                },
            }
        },
    }
}

/// Whether a text stands at a place.
fn stands_at(hay: &[u8], needle: &[u8], i: usize) -> (r: bool)
    requires
        i + needle@.len() <= hay@.len(),
    ensures
        r == occurs_at(hay@, needle@, i as int),
{
    let total: usize = hay.len();
    let mut j: usize = 0;
    while j < needle.len()
        invariant
            total == hay@.len(),
            i + needle@.len() <= total,
            j <= needle@.len(),
            forall|t: int| 0 <= t < j ==> hay@[i + t] == #[trigger] needle@[t],
        decreases needle@.len() - j,
    {
        if hay[i + j] != needle[j] {
            proof {
                let sub = hay@.subrange(i as int, i + needle@.len());
                assert(sub[j as int] == hay@[i + j]);
            }
            return false;
        }
        j = j + 1;
    }
    proof {
        assert(hay@.subrange(i as int, i + needle@.len()) =~= needle@);
    }
    true
}

/// Where a text first stands.
fn find(hay: &[u8], needle: &[u8]) -> (r: Option<usize>)
    ensures
        match first_occurrence(hay@, needle@, 0) {
            Some(p) => r is Some && r->0 == p && p + needle@.len() <= hay@.len(),
            None => r is None,
        },
{
    let n: usize = needle.len();
    let total: usize = hay.len();
    if n > total {
        return None;
    }
    let mut i: usize = 0;
    while i <= total - n
        invariant
            n == needle@.len(),
            total == hay@.len(),
            n <= total,
            i <= total - n + 1,
            first_occurrence(hay@, needle@, 0) == first_occurrence(hay@, needle@, i as int),
        decreases total + 1 - i,
    {
        if stands_at(hay, needle, i) {
            return Some(i);
        }
        if i == total - n {
            proof {
                assert(first_occurrence(hay@, needle@, i + 1) is None);
            }
            return None;
        }
        i = i + 1;
    }
    None
}

/// The number behind a key of a small metadata text.
pub fn meta_get(meta: &[u8], key: &[u8]) -> (r: Option<usize>)
    ensures
        match meta_value(meta@, key@) {
            Some(v) => r is Some && r->0 == v,
            None => r is None,
        },
{
    let mut needle: Vec<u8> = Vec::new();
    needle.push(34);
    needle.extend_from_slice(key);
    needle.push(34);
    proof {
        assert(needle@ =~= quoted(key@));
    }
    let p: usize = match find(meta, needle.as_slice()) {
        None => {
            return None;
        },
        Some(p) => p,
    };
    let total: usize = meta.len();
    let n: usize = needle.len();
    if total - (p + n) < 2 {
        proof {
            assert(digits_end(meta@, p + key@.len() + 4) is None);
        }
        return None;
    }
    let at: usize = p + n + 2;
    let mut end: usize = at;
    let mut v: usize = 0;
    let mut fits: bool = true;
    proof {
        assert(meta@.subrange(at as int, at as int) =~= Seq::empty());
    }
    while end < total && meta[end] >= 48 && meta[end] <= 57
        invariant
            total == meta@.len(),
            at <= end <= total,
            digits_end(meta@, at as int) == digits_end(meta@, end as int),
            forall|i: int| at <= i < end ==> is_digit(#[trigger] meta@[i]),
            fits ==> v == number_of(meta@.subrange(at as int, end as int)),
            !fits ==> number_of(meta@.subrange(at as int, end as int)) > usize::MAX,
        decreases total - end,
    {
        let d: usize = (meta[end] - 48) as usize;
        let ghost s = meta@.subrange(at as int, end + 1);
        proof {
            assert(s.drop_last() =~= meta@.subrange(at as int, end as int));
            assert(s.last() == meta@[end as int]);
        }
        if fits {
            match v.checked_mul(10) {
                Some(t) => match t.checked_add(d) {
                    Some(u) => {
                        v = u;
                    },
                    None => {
                        fits = false;
                    },
                },
                None => {
                    fits = false;
                },
            }
        }
        end = end + 1;
    }
    if end == total || end == at || !fits {
        None
    } else {
        Some(v)
    }
}

/// An entry of a raw file is the number in its four bytes, the lowest first; the entries of
/// a vector, and the vectors, follow one another.
pub proof fn law_raw_entries(b: Seq<u8>, dim: nat, i: int, j: int)
    ensures
        ({
            let at = 4 * (i * dim + j);
            raw_entry(b, dim, i, j) == b[at] + 256 * b[at + 1] + 65536 * b[at + 2] + 16777216
                * b[at + 3]
        }),
{
    reveal(u32_at);
}

/// One step of a stream, from its state.
pub proof fn law_stream_steps(x: u64)
    ensures
        xorshift(x) == ({
            let a = x ^ (x >> 12);
            let b = a ^ (a << 25);
            b ^ (b >> 27)
        }),
        pair_first(x) == ({
            let a = x ^ (x << 13);
            let b = a ^ (a >> 7);
            b ^ (b << 17)
        }),
        pair_second(x) == x ^ (x << 16),
        MULTIPLIER == 0x2545_F491_4F6C_DD1D,
{
}

/// The place at which a text is found is one where it stands, and there is none before it;
/// where nothing is found, it stands nowhere.
pub proof fn law_first_occurrence(hay: Seq<u8>, needle: Seq<u8>, from: int, i: int)
    requires
        0 <= from <= i,
        i + needle.len() <= hay.len(),
    ensures
        first_occurrence(hay, needle, from) matches Some(p) ==> from <= p && p + needle.len()
            <= hay.len() && hay.subrange(p, p + needle.len()) == needle && (i < p ==> hay.subrange(
            i,
            i + needle.len(),
        ) != needle),
        first_occurrence(hay, needle, from) is None ==> hay.subrange(i, i + needle.len()) != needle,
    decreases hay.len() - from,
{
    if from + needle.len() <= hay.len() && !occurs_at(hay, needle, from) {
        if from < i {
            law_first_occurrence(hay, needle, from + 1, i);
        } else if from + 1 + needle.len() <= hay.len() {
            law_first_occurrence(hay, needle, from + 1, from + 1);
        }
    }
}

/// A run of digits ends at the first byte that is none.
pub proof fn law_digits_end(s: Seq<u8>, from: int, i: int)
    requires
        0 <= from <= i < s.len(),
    ensures
        digits_end(s, from) matches Some(e) ==> from <= e < s.len() && !(48 <= s[e] <= 57) && (i < e
            ==> 48 <= s[i] <= 57),
        digits_end(s, from) is None ==> 48 <= s[i] <= 57,
    decreases s.len() - from,
{
    if is_digit(s[from]) {
        if from < i {
            law_digits_end(s, from + 1, i);
        } else if from + 1 < s.len() {
            law_digits_end(s, from + 1, from + 1);
        }
    }
}

/// One more digit makes a number ten times as great, and adds the digit.
pub proof fn law_number(s: Seq<u8>, c: u8)
    requires
        48 <= c <= 57,
    ensures
        number_of(Seq::empty()) == 0,
        number_of(s.push(c)) == 10 * number_of(s) + c - 48,
{
    assert(s.push(c).drop_last() =~= s);
}

/// The number behind a key: that of the digits which follow, two bytes behind the first
/// place where the key stands in quotation marks. There is none where the key stands
/// nowhere, where no digit follows, where nothing follows the digits, and where the number
/// is too great.
pub proof fn law_meta_value(meta: Seq<u8>, key: Seq<u8>)
    ensures
        ({
            let needle = seq![34u8] + key + seq![34u8];
            let found = first_occurrence(meta, needle, 0);
            let at = found->0 + needle.len() + 2;
            let end = digits_end(meta, at);
            let v = number_of(meta.subrange(at, end->0));
            &&& found is None ==> meta_value(meta, key) is None
            &&& found is Some && end is None ==> meta_value(meta, key) is None
            &&& found is Some && end is Some && (end->0 == at || v > usize::MAX) ==> meta_value(
                meta,
                key,
            ) is None
            &&& found is Some && end is Some && end->0 != at && v <= usize::MAX ==> meta_value(
                meta,
                key,
            ) == Some(v)
        }),
{
}

} // verus!
