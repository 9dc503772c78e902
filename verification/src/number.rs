//! Equality of binary64 numbers, decided on their bit patterns.

use vstd::prelude::*;

verus! {

/// The bit that holds the sign of a binary64 number.
pub const SIGN_BIT: u64 = 0x8000_0000_0000_0000;

/// The bit pattern of positive infinity: every pattern whose magnitude is
/// larger is not a number.
pub const INFINITY_BITS: u64 = 0x7ff0_0000_0000_0000;

/// The bit pattern with the sign cleared.
pub open spec fn magnitude(bits: u64) -> u64 {
    if bits >= SIGN_BIT {
        (bits - SIGN_BIT) as u64
    } else {
        bits
    }
}

/// The bit pattern is not a number.
pub open spec fn is_nan(bits: u64) -> bool {
    magnitude(bits) > INFINITY_BITS
}

/// Equality of the numbers with bit patterns `a` and `b`: what is not a
/// number equals nothing, not even itself; the two zeros are equal; any
/// other two numbers are equal exactly when their bit patterns are.
pub open spec fn ieee_equal(a: u64, b: u64) -> bool {
    &&& !is_nan(a)
    &&& !is_nan(b)
    &&& (a == b || (magnitude(a) == 0 && magnitude(b) == 0))
}

/// The bit pattern with the sign cleared.
pub fn bits_magnitude(bits: u64) -> (m: u64)
    ensures
        m == magnitude(bits),
{
    if bits >= SIGN_BIT {
        bits - SIGN_BIT
    } else {
        bits
    }
}

/// Whether the numbers with bit patterns `a` and `b` are equal.
pub fn bits_equal(a: u64, b: u64) -> (r: bool)
    ensures
        r == ieee_equal(a, b),
{
    let ma = bits_magnitude(a);
    let mb = bits_magnitude(b);
    if ma > INFINITY_BITS || mb > INFINITY_BITS {
        false
    } else {
        a == b || (ma == 0 && mb == 0)
    }
}

} // verus!
