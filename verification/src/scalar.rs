//! Double precision values as bit patterns: their order, and the arithmetic
//! that the caller performs on them.

use vstd::prelude::*;

verus! {

/// The sign bit of a double.
pub const SIGN_BIT: u64 = 0x8000_0000_0000_0000;

/// Positive infinity, the largest magnitude that is still a number.
pub const INFINITY: u64 = 0x7FF0_0000_0000_0000;

/// The quiet NaN that the library hands out for an unscorable expression.
pub const NAN: u64 = 0x7FF8_0000_0000_0000;

/// Positive zero.
pub const ZERO: u64 = 0;

/// The value two.
pub const TWO: u64 = 0x4000_0000_0000_0000;

/// The value six.
pub const SIX: u64 = 0x4018_0000_0000_0000;

/// The bits without the sign.
pub open spec fn magnitude(bits: u64) -> u64 {
    if bits >= SIGN_BIT {
        (bits - SIGN_BIT) as u64
    } else {
        bits
    }
}

/// A pattern above infinity's magnitude is not a number.
pub open spec fn is_nan(bits: u64) -> bool {
    magnitude(bits) > INFINITY
}

/// The place of a value on the line along which values are sorted: numbers
/// by their value, the two zeros together, every NaN behind positive
/// infinity.
pub open spec fn rank(bits: u64) -> int {
    if is_nan(bits) {
        INFINITY + 1
    } else if bits >= SIGN_BIT {
        -(magnitude(bits) as int)
    } else {
        magnitude(bits) as int
    }
}

/// `a >= b` as doubles compare: false as soon as either is NaN.
pub open spec fn at_least(a: u64, b: u64) -> bool {
    !is_nan(a) && !is_nan(b) && rank(a) >= rank(b)
}

/// Whether the bits are those of a NaN.
pub fn is_nan_bits(bits: u64) -> (r: bool)
    ensures
        r == is_nan(bits),
{
    if bits >= SIGN_BIT {
        bits - SIGN_BIT > INFINITY
    } else {
        bits > INFINITY
    }
}

/// The place of a value in the order of sorting.
pub fn rank_of(bits: u64) -> (r: i64)
    ensures
        r == rank(bits),
{
    if is_nan_bits(bits) {
        0x7FF0_0000_0000_0001
    } else if bits >= SIGN_BIT {
        let m: u64 = bits - SIGN_BIT;
        0 - (m as i64)
    } else {
        bits as i64
    }
}

/// `a >= b` on doubles, computed on their bits.
pub fn reaches(a: u64, b: u64) -> (r: bool)
    ensures
        r == at_least(a, b),
{
    !is_nan_bits(a) && !is_nan_bits(b) && rank_of(a) >= rank_of(b)
}

/// One computation on doubles that the library asks of its caller. The
/// operands and the result travel as bit patterns.
#[derive(Clone, Copy, Debug, PartialEq, Eq, Structural)]
pub enum Calc {
    /// `a + b`
    Sum,
    /// `a - b`
    Difference,
    /// `a * b`
    Product,
    /// `a / b`
    Quotient,
    /// `|a|`; the second operand is not used
    Magnitude,
    /// The registered function of one argument with this handle, at `a`
    Unary(u64),
    /// The registered function of two arguments with this handle, at `(a, b)`
    Binary(u64),
}

/// What `arith` returns for one computation.
pub open spec fn outcome<A: Fn(Calc, u64, u64) -> u64>(arith: A, op: Calc, a: u64, b: u64) -> u64 {
    choose|r: u64| call_ensures(arith, (op, a, b), r)
}

/// `arith` accepts every request and answers each in one way only, as a
/// function on doubles does.
pub open spec fn dependable<A: Fn(Calc, u64, u64) -> u64>(arith: A) -> bool {
    &&& forall|op: Calc, a: u64, b: u64| #[trigger] call_requires(arith, (op, a, b))
    &&& forall|op: Calc, a: u64, b: u64, r: u64| #[trigger]
        call_ensures(arith, (op, a, b), r) ==> r == outcome(arith, op, a, b)
}

/// `a + b` as `arith` computes it.
pub open spec fn plus<A: Fn(Calc, u64, u64) -> u64>(arith: A, a: u64, b: u64) -> u64 {
    outcome(arith, Calc::Sum, a, b)
}

/// `a - b` as `arith` computes it.
pub open spec fn minus<A: Fn(Calc, u64, u64) -> u64>(arith: A, a: u64, b: u64) -> u64 {
    outcome(arith, Calc::Difference, a, b)
}

/// `a * b` as `arith` computes it.
pub open spec fn times<A: Fn(Calc, u64, u64) -> u64>(arith: A, a: u64, b: u64) -> u64 {
    outcome(arith, Calc::Product, a, b)
}

/// `a / b` as `arith` computes it.
pub open spec fn over<A: Fn(Calc, u64, u64) -> u64>(arith: A, a: u64, b: u64) -> u64 {
    outcome(arith, Calc::Quotient, a, b)
}

/// `|a|` as `arith` computes it.
pub open spec fn absolute<A: Fn(Calc, u64, u64) -> u64>(arith: A, a: u64) -> u64 {
    outcome(arith, Calc::Magnitude, a, ZERO)
}

/// Asks `arith` for one computation.
pub fn compute<A: Fn(Calc, u64, u64) -> u64>(arith: &A, op: Calc, a: u64, b: u64) -> (r: u64)
    requires
        dependable(*arith),
    ensures
        r == outcome(*arith, op, a, b),
{
    arith(op, a, b)
}

} // verus!
