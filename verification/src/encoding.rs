//! Real numbers as they cross the boundary of this library.
//!
//! The numeric side works in IEEE-754 binary64. This library does no
//! arithmetic on such values: it receives each as the 64-bit pattern of its
//! encoding and only ever compares two of them. A pattern holds a sign bit, an
//! exponent of eleven bits and a fraction of fifty-two. Below the sign bit the
//! patterns of the numbers grow with the numbers they encode, up to the
//! pattern of infinity; the patterns beyond it encode no number and compare
//! with nothing.
use vstd::prelude::*;

verus! {

/// The sign bit of a pattern.
pub const SIGN_BIT: u64 = 0x8000_0000_0000_0000;

/// The pattern of positive infinity: the largest that encodes a number once
/// the sign is taken off.
pub const INFINITY_BITS: u64 = 0x7FF0_0000_0000_0000;

/// The pattern of zero.
pub const ZERO_BITS: u64 = 0;

/// The pattern of the number two.
pub const TWO_BITS: u64 = 0x4000_0000_0000_0000;

/// The pattern without its sign bit.
pub open spec fn magnitude(bits: u64) -> int {
    if bits >= SIGN_BIT {
        bits - SIGN_BIT
    } else {
        bits as int
    }
}

/// Whether the pattern encodes a number, infinite ones included.
pub open spec fn encodes_number(bits: u64) -> bool {
    magnitude(bits) <= INFINITY_BITS
}

/// Where the encoded number stands among all encoded numbers: an integer
/// that grows with the number. Both patterns of zero stand at 0.
pub open spec fn rank(bits: u64) -> int {
    if bits >= SIGN_BIT {
        -magnitude(bits)
    } else {
        magnitude(bits)
    }
}

/// Whether both patterns encode numbers and the first number is less than or
/// equal to the second.
pub open spec fn at_most(a: u64, b: u64) -> bool {
    encodes_number(a) && encodes_number(b) && rank(a) <= rank(b)
}

/// Whether both patterns encode numbers and the first number is less than
/// the second.
pub open spec fn below(a: u64, b: u64) -> bool {
    encodes_number(a) && encodes_number(b) && rank(a) < rank(b)
}

/// On the patterns that encode numbers, `at_most` is an order that compares
/// any two of them; `below` is its strict part.
pub proof fn lemma_at_most_is_a_total_order(a: u64, b: u64, c: u64)
    requires
        encodes_number(a),
        encodes_number(b),
        encodes_number(c),
    ensures
        at_most(a, a),
        at_most(a, b) || at_most(b, a),
        at_most(a, b) && at_most(b, c) ==> at_most(a, c),
        at_most(a, b) && at_most(b, a) ==> rank(a) == rank(b),
        below(a, b) <==> at_most(a, b) && !at_most(b, a),
{
}

/// A pattern that encodes no number compares with nothing, itself included.
pub proof fn lemma_no_number_no_order(a: u64, b: u64)
    requires
        !encodes_number(a),
    ensures
        !at_most(a, b),
        !at_most(b, a),
        !below(a, b),
        !below(b, a),
{
}

/// Tells whether the pattern encodes a number.
pub fn is_number(bits: u64) -> (number: bool)
    ensures
        number == encodes_number(bits),
{
    if bits >= SIGN_BIT {
        bits - SIGN_BIT <= INFINITY_BITS
    } else {
        bits <= INFINITY_BITS
    }
}

/// Tells whether the first encoded number is less than or equal to the
/// second.
pub fn is_at_most(a: u64, b: u64) -> (holds: bool)
    ensures
        holds == at_most(a, b),
{
    if !is_number(a) || !is_number(b) {
        false
    } else if a >= SIGN_BIT {
        if b >= SIGN_BIT {
            b <= a
        } else {
            true
        }
    } else {
        if b >= SIGN_BIT {
            a == ZERO_BITS && b == SIGN_BIT
        } else {
            a <= b
        }
    }
}

/// Tells whether the first encoded number is less than the second.
pub fn is_below(a: u64, b: u64) -> (holds: bool)
    ensures
        holds == below(a, b),
{
    is_at_most(a, b) && !is_at_most(b, a)
}

} // verus!
