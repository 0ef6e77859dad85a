//! Binary32 values as bit patterns, and the arithmetic supplied by the caller.
//!
//! The library stores and orders binary32 numbers as their `u32` bit
//! patterns. Arithmetic on them is not defined here: every function that
//! needs it takes a callable which maps an operation and its operands to the
//! result, and the contracts are stated over the function that the callable
//! computes. What the library fixes, and proves, is which operations are
//! applied to which operands and in which order.

use vstd::prelude::*;

verus! {

/// The operations that a caller supplies.
#[derive(Clone, Copy, Debug, PartialEq, Eq, Structural)]
pub enum Op {
    /// `x + y`
    Add,
    /// `x - y`
    Sub,
    /// `x * y`
    Mul,
    /// `x / y`
    Div,
    /// The square root of `x`; the second operand is zero and carries nothing.
    Sqrt,
}

/// What an arithmetic computes: the result for each operation and operands.
pub type Meaning = spec_fn(Op, u32, u32) -> u32;

/// Bit pattern of `0.0`.
pub const ZERO: u32 = 0;

/// Bit pattern of `1.0`.
pub const ONE: u32 = 0x3F80_0000;

/// Bit pattern of `-1.0`.
pub const MINUS_ONE: u32 = 0xBF80_0000;

/// `a` computes the function `f`.
pub open spec fn computes<A: Fn(Op, u32, u32) -> u32>(a: A, f: Meaning) -> bool {
    forall|op: Op, x: u32, y: u32, r: u32| #[trigger]
        call_ensures(a, (op, x, y), r) ==> r == f(op, x, y)
}

/// `a` can be called on all operands, and its result is a function of them.
pub open spec fn is_arithmetic<A: Fn(Op, u32, u32) -> u32>(a: A) -> bool {
    &&& forall|op: Op, x: u32, y: u32| #[trigger] call_requires(a, (op, x, y))
    &&& exists|f: Meaning| computes(a, f)
}

/// The function that an arithmetic computes.
pub open spec fn meaning<A: Fn(Op, u32, u32) -> u32>(a: A) -> Meaning {
    choose|f: Meaning| computes(a, f)
}

/// The function that an arithmetic computes is the one its calls show: whatever
/// a call may return is the value of that function.
pub proof fn law_meaning_is_what_calls_return<A: Fn(Op, u32, u32) -> u32>(
    a: A,
    op: Op,
    x: u32,
    y: u32,
    r: u32,
)
    requires
        is_arithmetic(a),
        call_ensures(a, (op, x, y), r),
    ensures
        meaning(a)(op, x, y) == r,
{
}

/// One operation of the supplied arithmetic.
pub fn operate<A: Fn(Op, u32, u32) -> u32>(a: &A, op: Op, x: u32, y: u32) -> (r: u32)
    requires
        is_arithmetic(*a),
    ensures
        r == meaning(*a)(op, x, y),
{
    a(op, x, y)
}

/// `x` is not a number.
pub open spec fn is_nan(x: u32) -> bool {
    x % 0x8000_0000 > 0x7F80_0000
}

/// The position of a number in the order of binary32: the magnitude of its bit
/// pattern, with the sign. Both zeros are at position zero.
pub open spec fn position(x: u32) -> int {
    if x < 0x8000_0000 {
        x as int
    } else {
        0x8000_0000 - x
    }
}

/// The binary32 comparison `x > y`: false where either is not a number.
pub open spec fn above(x: u32, y: u32) -> bool {
    !is_nan(x) && !is_nan(y) && position(x) > position(y)
}

/// The binary32 comparison `x > y`.
pub fn gt(x: u32, y: u32) -> (r: bool)
    ensures
        r == above(x, y),
{
    let mx: u32 = x % 0x8000_0000;
    let my: u32 = y % 0x8000_0000;
    if mx > 0x7F80_0000 || my > 0x7F80_0000 {
        return false;
    }
    if x < 0x8000_0000 {
        if y < 0x8000_0000 {
            x > y
        } else {
            mx > 0 || my > 0
        }
    } else if y < 0x8000_0000 {
        false
    } else {
        x < y
    }
}

/// The sum of the squares of the first `n` entries, added up from the front.
pub open spec fn sum_squares(f: Meaning, v: Seq<u32>, n: nat) -> u32
    decreases n,
{
    if n == 0 {
        ZERO
    } else {
        f(Op::Add, sum_squares(f, v, (n - 1) as nat), f(Op::Mul, v[n - 1], v[n - 1]))
    }
}

/// The Euclidean norm.
pub open spec fn norm(f: Meaning, v: Seq<u32>) -> u32 {
    f(Op::Sqrt, sum_squares(f, v, v.len()), ZERO)
}

/// Every entry divided by `d`.
pub open spec fn divided(f: Meaning, v: Seq<u32>, d: u32) -> Seq<u32> {
    Seq::new(v.len(), |i: int| f(Op::Div, v[i], d))
}

/// The sum of the squares of a vector's entries.
pub fn norm_squared<A: Fn(Op, u32, u32) -> u32>(v: &[u32], arith: &A) -> (r: u32)
    requires
        is_arithmetic(*arith),
    ensures
        r == sum_squares(meaning(*arith), v@, v@.len()),
{
    let mut sum: u32 = ZERO;
    let mut i: usize = 0;
    while i < v.len()
        invariant
            is_arithmetic(*arith),
            i <= v@.len(),
            sum == sum_squares(meaning(*arith), v@, i as nat),
        decreases v@.len() - i,
    {
        let square: u32 = operate(arith, Op::Mul, v[i], v[i]);
        sum = operate(arith, Op::Add, sum, square);
        i = i + 1;
    }
    sum
}

/// The Euclidean norm of a vector.
pub fn norm_of<A: Fn(Op, u32, u32) -> u32>(v: &[u32], arith: &A) -> (r: u32)
    requires
        is_arithmetic(*arith),
    ensures
        r == norm(meaning(*arith), v@),
{
    let sum: u32 = norm_squared(v, arith);
    operate(arith, Op::Sqrt, sum, ZERO)
}

/// Divide every entry of a vector by `d`.
pub fn divide<A: Fn(Op, u32, u32) -> u32>(v: &[u32], d: u32, arith: &A) -> (r: Vec<u32>)
    requires
        is_arithmetic(*arith),
    ensures
        r@ == divided(meaning(*arith), v@, d),
{
    let mut out: Vec<u32> = Vec::new();
    let mut i: usize = 0;
    while i < v.len()
        invariant
            is_arithmetic(*arith),
            i <= v@.len(),
            out@ == divided(meaning(*arith), v@.take(i as int), d),
        decreases v@.len() - i,
    {
        let x: u32 = operate(arith, Op::Div, v[i], d);
        out.push(x);
        i = i + 1;
        proof {
            assert(out@ =~= divided(meaning(*arith), v@.take(i as int), d));
        }
    }
    proof {
        assert(v@.take(v@.len() as int) =~= v@);
    }
    out
}

} // verus!
