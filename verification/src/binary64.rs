//! Order and sign of IEEE-754 binary64 values, read off their encodings.
//!
//! The mesh never does arithmetic on a coordinate, a distance or a radius: it
//! stores each as the 64 bits of its binary64 encoding and only ever asks how
//! two of them compare. This module answers that question on the encodings
//! themselves, with the answers IEEE-754 gives for the encoded values: a NaN
//! compares with nothing, and the two zeros are equal.

use vstd::prelude::*;

verus! {

/// The sign bit of an encoding.
pub const SIGN_BIT: u64 = 0x8000_0000_0000_0000;

/// The encoding of positive infinity: the largest magnitude that is not a NaN.
pub const INFINITY: u64 = 0x7FF0_0000_0000_0000;

/// The encoding of positive zero.
pub const ZERO: u64 = 0;

/// The encoding with its sign bit cleared.
pub open spec fn magnitude(bits: u64) -> u64 {
    if bits >= SIGN_BIT {
        (bits - SIGN_BIT) as u64
    } else {
        bits
    }
}

/// Whether the encoding is that of a NaN.
pub open spec fn is_nan(bits: u64) -> bool {
    magnitude(bits) > INFINITY
}

/// The place of an encoded value on the number line: encodings of larger
/// values have larger ordinals, and both zeros have ordinal 0. Meaningful for
/// encodings that are not NaNs.
pub open spec fn ordinal(bits: u64) -> int {
    if bits >= SIGN_BIT {
        -(magnitude(bits) as int)
    } else {
        bits as int
    }
}

/// The encoding of the value with the opposite sign: the sign bit flipped.
pub open spec fn negated(bits: u64) -> u64 {
    if bits >= SIGN_BIT {
        (bits - SIGN_BIT) as u64
    } else {
        (bits + SIGN_BIT) as u64
    }
}

/// `a <= b` on the encoded values.
pub open spec fn le(a: u64, b: u64) -> bool {
    !is_nan(a) && !is_nan(b) && ordinal(a) <= ordinal(b)
}

/// `a < b` on the encoded values.
pub open spec fn lt(a: u64, b: u64) -> bool {
    !is_nan(a) && !is_nan(b) && ordinal(a) < ordinal(b)
}

/// The encoded value is zero or more (and not a NaN).
pub open spec fn non_negative(bits: u64) -> bool {
    le(ZERO, bits)
}

/// The encoded value is more than zero (and not a NaN).
pub open spec fn positive(bits: u64) -> bool {
    lt(ZERO, bits)
}

/// Clears the sign bit.
pub fn magnitude_of(bits: u64) -> (m: u64)
    ensures
        m == magnitude(bits),
{
    if bits >= SIGN_BIT {
        bits - SIGN_BIT
    } else {
        bits
    }
}

/// Flips the sign bit.
pub fn negate(bits: u64) -> (opposite: u64)
    ensures
        opposite == negated(bits),
{
    if bits >= SIGN_BIT {
        bits - SIGN_BIT
    } else {
        bits + SIGN_BIT
    }
}

/// Tells whether `bits` encodes a NaN.
pub fn is_nan_encoding(bits: u64) -> (nan: bool)
    ensures
        nan == is_nan(bits),
{
    magnitude_of(bits) > INFINITY
}

/// Decides `a <= b` on the encoded values.
pub fn ordered_le(a: u64, b: u64) -> (holds: bool)
    ensures
        holds == le(a, b),
{
    let ma = magnitude_of(a);
    let mb = magnitude_of(b);
    if ma > INFINITY || mb > INFINITY {
        false
    } else if a >= SIGN_BIT {
        b < SIGN_BIT || ma >= mb
    } else {
        if b >= SIGN_BIT {
            ma == 0 && mb == 0
        } else {
            ma <= mb
        }
    }
}

/// Decides `a < b` on the encoded values.
pub fn ordered_lt(a: u64, b: u64) -> (holds: bool)
    ensures
        holds == lt(a, b),
{
    let ma = magnitude_of(a);
    let mb = magnitude_of(b);
    if ma > INFINITY || mb > INFINITY {
        false
    } else if a >= SIGN_BIT {
        if b >= SIGN_BIT {
            ma > mb
        } else {
            ma > 0 || mb > 0
        }
    } else {
        b < SIGN_BIT && ma < mb
    }
}

/// Tells whether the encoded value is zero or more.
pub fn is_non_negative(bits: u64) -> (holds: bool)
    ensures
        holds == non_negative(bits),
        holds == (bits <= INFINITY || bits == SIGN_BIT),
{
    ordered_le(ZERO, bits)
}

/// Tells whether the encoded value is more than zero.
pub fn is_positive(bits: u64) -> (holds: bool)
    ensures
        holds == positive(bits),
        holds == (0 < bits <= INFINITY),
{
    ordered_lt(ZERO, bits)
}

/// The order on encoded values is the order of the reals where it holds at
/// all: nothing is below itself strictly, `<` is `<=` without `>=`, and `<=`
/// is transitive.
pub proof fn lemma_order_laws(a: u64, b: u64, c: u64)
    ensures
        !lt(a, a),
        le(a, a) <==> !is_nan(a),
        lt(a, b) <==> le(a, b) && !le(b, a),
        le(a, b) && le(b, c) ==> le(a, c),
        !is_nan(a) && !is_nan(b) ==> le(a, b) || le(b, a),
        negated(negated(a)) == a,
        le(a, b) <==> le(negated(b), negated(a)),
{
}

} // verus!
