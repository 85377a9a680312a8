//! Ranking of distances held as IEEE-754 binary32 bit patterns.

use vstd::prelude::*;

verus! {

pub const SIGN_BIT: u32 = 0x8000_0000;

pub const MAGNITUDE_MASK: u32 = 0x7fff_ffff;

pub const INFINITY_BITS: u32 = 0x7f80_0000;

/// Whether the pattern encodes a NaN: all exponent bits set and a non-zero fraction.
pub open spec fn is_nan(bits: u32) -> bool {
    (bits & MAGNITUDE_MASK) > INFINITY_BITS
}

/// Rank of a distance. On numbers it orders as IEEE-754 comparison does
/// (both zeros rank 0); every NaN ranks above every number.
pub open spec fn distance_key(bits: u32) -> int {
    let magnitude = (bits & MAGNITUDE_MASK) as int;
    if is_nan(bits) {
        0x8000_0000
    } else if bits & SIGN_BIT != 0 {
        -magnitude
    } else {
        magnitude
    }
}

/// `a` ranks strictly before `b`.
pub open spec fn closer(a: u32, b: u32) -> bool {
    distance_key(a) < distance_key(b)
}

pub fn rank(bits: u32) -> (key: i64)
    ensures
        key == distance_key(bits),
        -0x7f80_0000 <= key <= 0x8000_0000,
{
    let magnitude: u32 = bits & MAGNITUDE_MASK;
    assert(bits & 0x7fff_ffffu32 <= 0x7fff_ffffu32) by (bit_vector);
    if magnitude > INFINITY_BITS {
        0x8000_0000i64
    } else if bits & SIGN_BIT != 0 {
        -(magnitude as i64)
    } else {
        magnitude as i64
    }
}

pub fn is_closer(a: u32, b: u32) -> (r: bool)
    ensures
        r == closer(a, b),
{
    rank(a) < rank(b)
}

/// Ranking is a strict weak order: irreflexive and transitive, and so is
/// its complement.
pub proof fn lemma_closer_is_strict_order(a: u32, b: u32, c: u32)
    ensures
        !closer(a, a),
        closer(a, b) && closer(b, c) ==> closer(a, c),
        !closer(a, b) && !closer(b, c) ==> !closer(a, c),
        closer(a, b) ==> !closer(b, a),
{
}

} // verus!
