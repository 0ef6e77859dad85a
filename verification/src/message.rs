//! Errors in words.

use vstd::prelude::*;
use vstd::string::*;

use crate::format::Error;

verus! {

/// A decimal digit.
pub open spec fn digit(d: nat) -> Seq<char> {
    if d == 0 {
        "0"@
    } else if d == 1 {
        "1"@
    } else if d == 2 {
        "2"@
    } else if d == 3 {
        "3"@
    } else if d == 4 {
        "4"@
    } else if d == 5 {
        "5"@
    } else if d == 6 {
        "6"@
    } else if d == 7 {
        "7"@
    } else if d == 8 {
        "8"@
    } else {
        "9"@
    }
}

/// A number in decimal.
pub open spec fn decimal(n: nat) -> Seq<char>
    decreases n,
{
    if n < 10 {
        digit(n)
    } else {
        decimal(n / 10) + digit(n % 10)
    }
}

/// What an error says.
pub open spec fn message_of(e: Error) -> Seq<char> {
    match e {
        Error::NotAStableFile => "not a vecq file"@,
        Error::UnsupportedVersion(v) => "unsupported version "@ + decimal(v as nat),
        Error::Truncated => "file truncated"@,
        Error::DimMismatch { expected, got } => "dim mismatch: expected "@ + decimal(
            expected as nat,
        ) + ", got "@ + decimal(got as nat),
        Error::InvalidWorkingDim { dim, working_dim } => "invalid working_dim "@ + decimal(
            working_dim as nat,
        ) + " for dim "@ + decimal(dim as nat),
        Error::InvalidWidth { width } => "invalid code width "@ + decimal(width as nat),
        Error::InvalidKeyTable => "invalid keyed-slot table"@,
    }
}

/// A decimal digit.
fn digit_str(d: usize) -> (r: &'static str)
    requires
        d < 10,
    ensures
        r@ == digit(d as nat),
{
    match d {
        0 => "0",
        1 => "1",
        2 => "2",
        3 => "3",
        4 => "4",
        5 => "5",
        6 => "6",
        7 => "7",
        8 => "8",
        _ => "9",
    }
}

/// Append a number in decimal.
fn append_decimal(out: &mut String, n: usize)
    ensures
        final(out)@ == old(out)@ + decimal(n as nat),
    decreases n,
{
    if n >= 10 {
        append_decimal(out, n / 10);
    }
    out.append(digit_str(n % 10));
    proof {
        assert(out@ =~= old(out)@ + decimal(n as nat));
    }
}

impl Error {
    /// The error in words.
    pub fn message(&self) -> (r: String)
        ensures
            r@ == message_of(*self),
    {
        let mut out = String::new();
        match self {
            Error::NotAStableFile => {
                out.append("not a vecq file");
            },
            Error::UnsupportedVersion(v) => {
                out.append("unsupported version ");
                append_decimal(&mut out, *v as usize);
            },
            Error::Truncated => {
                out.append("file truncated");
            },
            Error::DimMismatch { expected, got } => {
                out.append("dim mismatch: expected ");
                append_decimal(&mut out, *expected);
                out.append(", got ");
                append_decimal(&mut out, *got);
            },
            Error::InvalidWorkingDim { dim, working_dim } => {
                out.append("invalid working_dim ");
                append_decimal(&mut out, *working_dim);
                out.append(" for dim ");
                append_decimal(&mut out, *dim);
            },
            Error::InvalidWidth { width } => {
                out.append("invalid code width ");
                append_decimal(&mut out, *width as usize);
            },
            Error::InvalidKeyTable => {
                out.append("invalid keyed-slot table");
            },
        }
        proof {
            assert(out@ =~= message_of(*self));
        }
        out
    }
}

/// The number that a text of digits writes.
pub open spec fn reads_as(s: Seq<char>) -> int
    decreases s.len(),
{
    if s.len() == 0 {
        0
    } else {
        10 * reads_as(s.drop_last()) + (s.last() as int - 48)
    }
}

/// A number in decimal reads as the number; it is made of digits, and starts with a zero
/// only where it is zero.
pub proof fn law_decimal(n: nat)
    ensures
        reads_as(decimal(n)) == n,
        decimal(n).len() >= 1,
        forall|i: int| 0 <= i < decimal(n).len() ==> '0' <= #[trigger] decimal(n)[i] <= '9',
        n > 0 ==> decimal(n)[0] != '0',
    decreases n,
{
    lemma_digit(n % 10);
    let d = digit(n % 10);
    if n < 10 {
        assert(decimal(n) =~= d);
        assert(d.drop_last() =~= Seq::empty());
        reveal_with_fuel(reads_as, 2);
    } else {
        let head = decimal(n / 10);
        law_decimal(n / 10);
        assert(decimal(n) =~= head + d);
        assert((head + d).drop_last() =~= head);
        assert((head + d).last() == d[0]);
    }
}

proof fn lemma_digit(d: nat)
    requires
        d < 10,
    ensures
        digit(d).len() == 1,
        digit(d)[0] as int == 48 + d,
{
    reveal_strlit("0");
    reveal_strlit("1");
    reveal_strlit("2");
    reveal_strlit("3");
    reveal_strlit("4");
    reveal_strlit("5");
    reveal_strlit("6");
    reveal_strlit("7");
    reveal_strlit("8");
    reveal_strlit("9");
}

/// What errors say: what is wrong, and the numbers that tell it.
pub proof fn law_messages(v: u16, a: usize, b: usize, w: u8)
    ensures
        message_of(Error::NotAStableFile) == "not a vecq file"@,
        message_of(Error::UnsupportedVersion(v)) == "unsupported version "@ + decimal(v as nat),
        message_of(Error::Truncated) == "file truncated"@,
        message_of(Error::DimMismatch { expected: a, got: b }) == "dim mismatch: expected "@
            + decimal(a as nat) + ", got "@ + decimal(b as nat),
        message_of(Error::InvalidWorkingDim { dim: a, working_dim: b }) == "invalid working_dim "@
            + decimal(b as nat) + " for dim "@ + decimal(a as nat),
        message_of(Error::InvalidWidth { width: w }) == "invalid code width "@ + decimal(w as nat),
        message_of(Error::InvalidKeyTable) == "invalid keyed-slot table"@,
{
}

} // verus!
