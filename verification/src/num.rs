//! Real values and real arithmetic, seen from a distance.
//!
//! The library stores every real value as the 64 bits of its IEEE 754
//! double-precision representation and never interprets those bits as a
//! number itself.  Wherever arithmetic on such values is needed, the caller
//! supplies a function that answers [`NumOp`] requests on bit patterns; the
//! library's contracts then speak of that function's possible answers
//! through `call_ensures`.  What the library can decide on the bits alone
//! (the NaN test, the total order used for ranking) it decides itself, and
//! proves exact.

use crate::expr::BinaryOp;
use crate::expr::UnaryOp;
use vstd::prelude::*;

verus! {

/// One arithmetic request handed to a caller-supplied evaluator.
///
/// Arguments and results are IEEE 754 bit patterns, except where a variant
/// says otherwise.
#[derive(Debug, Clone, Copy, PartialEq, Eq, Structural)]
pub enum NumOp {
    /// Apply the binary operator to both arguments.
    Bin(BinaryOp),
    /// Apply the unary operator to the first argument; the second is
    /// ignored.
    Un(UnaryOp),
    /// Encode the first argument, read as a plain count, as a real value;
    /// the second argument is ignored.
    OfCount,
    /// Truncate the first argument to a plain count; the result is a count,
    /// not a bit pattern.  The second argument is ignored.
    ToCount,
}

/// The arithmetic function accepts every request.
pub open spec fn num_total<F: Fn(NumOp, u64, u64) -> u64>(f: F) -> bool {
    forall|args: (NumOp, u64, u64)| #[trigger] call_requires(f, args)
}

/// The arithmetic function answers equal requests equally: what it may
/// return is determined by the request alone.
pub open spec fn num_functional<F: Fn(NumOp, u64, u64) -> u64>(f: F) -> bool {
    forall|args: (NumOp, u64, u64), r1: u64, r2: u64|
        #[trigger] call_ensures(f, args, r1) && #[trigger] call_ensures(f, args, r2) ==> r1 == r2
}

/// The random-draw function accepts its (empty) argument list.
pub open spec fn draw_total<U: Fn() -> u64>(u: U) -> bool {
    call_requires(u, ())
}

/// The bit pattern of positive infinity.
pub const INFINITY_BITS: u64 = 0x7FF0000000000000;

/// Whether `bits` encodes a NaN: all eleven exponent bits set and a
/// non-zero mantissa.
pub open spec fn spec_is_nan(bits: u64) -> bool {
    (bits >> 52) & 0x7FF == 0x7FF && bits & 0x000FFFFFFFFFFFFF != 0
}

/// Decides the NaN test on the bits themselves.
pub fn is_nan_bits(bits: u64) -> (r: bool)
    ensures
        r == spec_is_nan(bits),
{
    (bits >> 52) & 0x7FF == 0x7FF && bits & 0x000FFFFFFFFFFFFF != 0
}

/// Maps a bit pattern to a key whose unsigned order is the IEEE 754 total
/// order of the encoded values: negative values (sign bit set) have all
/// bits flipped, others only the sign bit.  NaN with a clear sign bit sits
/// above positive infinity.
pub open spec fn spec_order_key(bits: u64) -> u64 {
    if bits >> 63 == 1 {
        !bits
    } else {
        bits ^ 0x8000000000000000
    }
}

/// Computes the total-order key of a bit pattern.
pub fn order_key(bits: u64) -> (r: u64)
    ensures
        r == spec_order_key(bits),
{
    if bits >> 63 == 1 {
        !bits
    } else {
        bits ^ 0x8000000000000000
    }
}

/// `a` is at or below `b` in the total order on encoded values.
pub open spec fn le_total(a: u64, b: u64) -> bool {
    spec_order_key(a) <= spec_order_key(b)
}

/// Decides the total order on two bit patterns.
pub fn le_total_bits(a: u64, b: u64) -> (r: bool)
    ensures
        r == le_total(a, b),
{
    order_key(a) <= order_key(b)
}

} // verus!
