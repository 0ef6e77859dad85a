//! Laws of the scoring kernels: which products a score adds up, and in what
//! order.

use vstd::arithmetic::power2::pow2;
use vstd::prelude::*;

use crate::arith::{Meaning, Op};
use crate::codes::{
    byte_at, code_at, law_code_at_range, lemma_packed_bit, lemma_window_bit, packed, packed_len,
};
use crate::lloyd::is_width;
use crate::rhdh::law_padded_len;
use crate::score::{bucket, pair_term, raw_score, tail};
use crate::state::IndexState;
use crate::storing::adds_up;

verus! {

/// The products of two neighbouring query coordinates with the values of their
/// codes, added.
pub open spec fn pair_product(
    f: Meaning,
    codes: Seq<u8>,
    bits: u8,
    q: Seq<u32>,
    lut: Seq<u32>,
    u: int,
) -> u32 {
    f(
        Op::Add,
        f(Op::Mul, q[2 * u], lut[code_at(codes, bits, 2 * u) as int]),
        f(Op::Mul, q[2 * u + 1], lut[code_at(codes, bits, 2 * u + 1) as int]),
    )
}

/// An unscaled score takes in the products of every pair of coordinates once. Pair
/// `u` goes to bucket `u % 8`, in increasing order, as long as there are eight more;
/// the others add up on their own. The buckets are added two by two, the sums again,
/// and the others last. The buckets before each block and the sums of the others are
/// returned.
pub proof fn law_score_adds_up(
    f: Meaning,
    codes: Seq<u8>,
    bits: u8,
    q: Seq<u32>,
    lut: Seq<u32>,
) -> (r: (Seq<Seq<u32>>, Seq<u32>))
    requires
        is_width(bits),
        q.len() % 2 == 0 || bits == 4,
    ensures
        ({
            let pairs = q.len() / 2;
            let blocks = pairs / 8;
            let (acc, rest) = r;
            &&& acc.len() == blocks + 1
            &&& forall|b: int, j: int|
                0 <= b < blocks && 0 <= j < 8 ==> #[trigger] acc[b + 1][j] == f(
                    Op::Add,
                    acc[b][j],
                    pair_product(f, codes, bits, q, lut, 8 * b + j),
                )
            &&& forall|j: int| 0 <= j < 8 ==> #[trigger] acc[0][j] == 0
            &&& adds_up(
                f,
                Seq::new(
                    (pairs - 8 * blocks) as nat,
                    |i: int| pair_product(f, codes, bits, q, lut, 8 * blocks + i),
                ),
                rest,
            )
            &&& raw_score(f, codes, bits, q, lut) == ({
                let a = acc[blocks as int];
                f(
                    Op::Add,
                    f(
                        Op::Add,
                        f(Op::Add, f(Op::Add, a[0], a[1]), f(Op::Add, a[2], a[3])),
                        f(Op::Add, f(Op::Add, a[4], a[5]), f(Op::Add, a[6], a[7])),
                    ),
                    rest[pairs - 8 * blocks],
                )
            })
        }),
{
    reveal(raw_score);
    let pairs = q.len() / 2;
    let blocks = pairs / 8;
    let acc = Seq::new(
        blocks + 1,
        |b: int| Seq::new(8, |j: int| bucket(f, codes, bits, q, lut, j, b as nat)),
    );
    let from = (8 * blocks) as int;
    let rest = Seq::new(
        (pairs - from + 1) as nat,
        |i: int| tail(f, codes, bits, q, lut, from, from + i),
    );
    assert forall|u: int| 0 <= u < pairs implies #[trigger] pair_term(f, codes, bits, q, lut, u)
        == pair_product(f, codes, bits, q, lut, u) by {}
    assert forall|b: int, j: int| 0 <= b < blocks && 0 <= j < 8 implies #[trigger] acc[b + 1][j]
        == f(Op::Add, acc[b][j], pair_product(f, codes, bits, q, lut, 8 * b + j)) by {
        assert(acc[b + 1][j] == bucket(f, codes, bits, q, lut, j, (b + 1) as nat));
        assert(pair_term(f, codes, bits, q, lut, 8 * b + j) == pair_product(
            f,
            codes,
            bits,
            q,
            lut,
            8 * b + j,
        ));
    }
    let terms = Seq::new(
        (pairs - from) as nat,
        |i: int| pair_product(f, codes, bits, q, lut, from + i),
    );
    assert forall|i: int| 0 <= i < terms.len() implies rest[i + 1] == f(
        Op::Add,
        rest[i],
        #[trigger] terms[i],
    ) by {
        assert(pair_term(f, codes, bits, q, lut, from + i) == terms[i]);
    }
    (acc, rest)
}

/// Bit `s` of a code that is read from packed bytes: the codes follow one another
/// bit by bit, the lowest bit of each first, and bit `p` of the stream is bit `p % 8`
/// of byte `p / 8`.
pub proof fn law_code_bits(bytes: Seq<u8>, bits: u8, i: int, s: u8)
    requires
        is_width(bits),
        0 <= i,
        s < bits,
        (i + 1) * bits <= 8 * bytes.len(),
    ensures
        (code_at(bytes, bits, i) >> s) & 1 == (bytes[(i * bits + s) / 8] >> ((i * bits + s)
            % 8) as u8) & 1,
        (code_at(bytes, bits, i) >> bits) == 0,
{
    let p = i * bits;
    assert(0 <= p && (i + 1) * bits == p + bits) by (nonlinear_arith)
        requires
            p == i * bits,
            0 <= i,
            bits >= 0,
    ;
    let offset = (p % 8) as u16;
    let lo = byte_at(bytes, p / 8);
    let hi = byte_at(bytes, p / 8 + 1);
    lemma_window_bit(lo, hi, offset, bits, s);
    law_code_at_range(bytes, bits, i);
    let c = code_at(bytes, bits, i);
    assert(c >> bits == 0) by (bit_vector)
        requires
            bits == 4 && c < 16 || bits == 5 && c < 32 || bits == 6 && c < 64,
    ;
    if offset + s < 8 {
        assert((p + s) / 8 == p / 8 && (p + s) % 8 == offset + s);
    } else {
        assert((p + s) / 8 == p / 8 + 1 && (p + s) % 8 == offset + s - 8);
    }
}

/// How many bytes the codes of a vector take: two codes to a byte at four bits, and
/// no more bytes than the bits fill otherwise.
pub proof fn law_code_len(st: IndexState)
    requires
        st.valid(),
    ensures
        st.bits == 4 ==> st.code_len() == st.padded() / 2,
        st.bits == 5 ==> 8 * st.code_len() - 8 < 5 * st.padded() <= 8 * st.code_len(),
        st.bits == 6 ==> 8 * st.code_len() - 8 < 6 * st.padded() <= 8 * st.code_len(),
        st.working_dim <= st.padded(),
        st.padded() < 2 * st.working_dim,
        exists|k: nat| st.padded() == pow2(k),
{
    law_padded_len(st.working_dim);
    let k = choose|k: nat| st.padded() as int == pow2(k);
    assert(st.padded() == pow2(k));
}

/// The bits of packed codes: those of one code after the other, the lowest of each first, and
/// zeros behind the last.
pub proof fn law_packed_bits(codes: Seq<u8>, bits: u8, p: int)
    requires
        is_width(bits),
        0 <= p < 8 * packed(codes, bits).len(),
    ensures
        (packed(codes, bits)[p / 8] >> (p % 8) as u8) & 1 == if p < codes.len() * bits {
            (codes[p / bits as int] >> (p % bits as int) as u8) & 1
        } else {
            0
        },
{
    lemma_packed_bit(codes, bits, p / 8, (p % 8) as u8);
    assert(8 * (p / 8) + p % 8 == p);
}

/// How many bytes packed codes take.
pub proof fn law_packed_len(codes: Seq<u8>, bits: u8)
    requires
        is_width(bits),
    ensures
        packed(codes, bits).len() == packed_len(codes.len(), bits),
        bits == 4 ==> packed_len(codes.len(), bits) == codes.len() / 2,
        bits == 5 ==> 8 * packed_len(codes.len(), bits) - 8 < 5 * codes.len() <= 8 * packed_len(
            codes.len(),
            bits,
        ),
        bits == 6 ==> 8 * packed_len(codes.len(), bits) - 8 < 6 * codes.len() <= 8 * packed_len(
            codes.len(),
            bits,
        ),
{
}

/// The unscaled score of a single coordinate, where its code has room: its product with the
/// value of the code, added to zeros in the same order.
pub proof fn law_score_of_one_coordinate(
    f: Meaning,
    codes: Seq<u8>,
    bits: u8,
    q: Seq<u32>,
    lut: Seq<u32>,
)
    requires
        is_width(bits),
        bits != 4,
        q.len() == 1,
    ensures
        ({
            let two = f(Op::Add, 0, 0);
            let four = f(Op::Add, two, two);
            let product = f(Op::Mul, q[0], lut[code_at(codes, bits, 0) as int]);
            raw_score(f, codes, bits, q, lut) == f(
                Op::Add,
                f(Op::Add, four, four),
                f(Op::Add, 0, product),
            )
        }),
{
    reveal(raw_score);
    reveal_with_fuel(tail, 2);
    reveal_with_fuel(bucket, 1);
    assert(pair_term(f, codes, bits, q, lut, 0) == f(
        Op::Mul,
        q[0],
        lut[code_at(codes, bits, 0) as int],
    ));
}

} // verus!
