//! Comparison of distances that are given by their single-precision bit patterns.
//!
//! A pattern is a sign bit above a magnitude. Two patterns compare as the numbers
//! that they stand for: by the signed magnitude, with both zeros alike, unless one of
//! them is not a number.
use vstd::prelude::*;

verus! {

/// The lowest pattern with a sign bit.
pub const SIGN: u32 = 0x8000_0000;

/// The magnitude of infinity; a greater one is not a number.
pub const INFINITY: u32 = 0x7f80_0000;

/// The pattern without its sign bit.
pub open spec fn magnitude(bits: u32) -> int {
    if bits >= SIGN {
        bits - SIGN
    } else {
        bits as int
    }
}

/// The pattern stands for no number.
pub open spec fn is_nan(bits: u32) -> bool {
    magnitude(bits) > INFINITY
}

/// The magnitude with its sign.
pub open spec fn signed_magnitude(bits: u32) -> int {
    if bits >= SIGN {
        -magnitude(bits)
    } else {
        magnitude(bits)
    }
}

/// The patterns stand for equal numbers.
pub open spec fn equal_distance(a: u32, b: u32) -> bool {
    !is_nan(a) && !is_nan(b) && signed_magnitude(a) == signed_magnitude(b)
}

/// The place of a distance in the order from near to far. What is not a number comes last.
pub open spec fn rank(bits: u32) -> int {
    if is_nan(bits) {
        INFINITY + 1
    } else {
        signed_magnitude(bits)
    }
}

/// Whether the patterns stand for equal numbers.
pub fn same_distance(a: u32, b: u32) -> (r: bool)
    ensures
        r == equal_distance(a, b),
{
    let a_low: u32 = if a >= SIGN { a - SIGN } else { a };
    let b_low: u32 = if b >= SIGN { b - SIGN } else { b };
    a_low <= INFINITY && b_low <= INFINITY && (a == b || (a_low == 0 && b_low == 0))
}

/// The place of a distance in the order from near to far.
pub fn distance_rank(bits: u32) -> (r: i64)
    ensures
        r == rank(bits),
{
    let low: u32 = if bits >= SIGN { bits - SIGN } else { bits };
    if low > INFINITY {
        INFINITY as i64 + 1
    } else if bits >= SIGN {
        -(low as i64)
    } else {
        low as i64
    }
}

} // verus!
