use vstd::prelude::*;

verus! {

/// Bit pattern of positive infinity in the IEEE-754 single-precision layout.
pub const POSITIVE_INFINITY_BITS: u32 = 0x7F80_0000;

/// Bit pattern of negative infinity in the IEEE-754 single-precision layout.
pub const NEGATIVE_INFINITY_BITS: u32 = 0xFF80_0000;

/// Order key of positive infinity.
pub const INFINITY_KEY: u32 = 0xFF80_0000;

/// Order key of negative infinity.
pub const NEG_INFINITY_KEY: u32 = 0x007F_FFFF;

/// The order key of a single-precision bit pattern: negative values have all
/// bits flipped, non-negative values get the sign bit set.
pub open spec fn key_of(bits: u32) -> u32 {
    if bits & 0x8000_0000u32 != 0 {
        !bits
    } else {
        bits | 0x8000_0000u32
    }
}

/// Maps the bit pattern of an `f32` to an unsigned key whose integer order is
/// the order of the numbers it encodes (for every pattern but NaN; negative
/// zero keys just below positive zero).
pub fn order_key(bits: u32) -> (r: u32)
    ensures
        r == key_of(bits),
{
    if bits & 0x8000_0000u32 != 0 {
        !bits
    } else {
        bits | 0x8000_0000u32
    }
}

/// The bit pattern that a key stands for.
pub open spec fn bits_of(key: u32) -> u32 {
    if key & 0x8000_0000u32 != 0 {
        key & 0x7FFF_FFFFu32
    } else {
        !key
    }
}

/// The value that a non-NaN bit pattern encodes, up to a monotone scale:
/// the magnitude bits, negated when the sign bit is set.
pub open spec fn sign_magnitude(bits: u32) -> int {
    if bits & 0x8000_0000u32 != 0 {
        -((bits & 0x7FFF_FFFFu32) as int)
    } else {
        (bits & 0x7FFF_FFFFu32) as int
    }
}

/// Recovers the bit pattern of an `f32` from its order key.
pub fn bits_from_key(key: u32) -> (r: u32)
    ensures
        r == bits_of(key),
        key_of(r) == key,
{
    proof {
        lemma_key_round_trip(key);
    }
    if key & 0x8000_0000u32 != 0 {
        key & 0x7FFF_FFFFu32
    } else {
        !key
    }
}

/// The two infinity keys are the keys of the two infinities.
pub proof fn lemma_infinity_keys()
    ensures
        key_of(POSITIVE_INFINITY_BITS) == INFINITY_KEY,
        key_of(NEGATIVE_INFINITY_BITS) == NEG_INFINITY_KEY,
{
    assert(0x7F80_0000u32 & 0x8000_0000u32 == 0 && (0x7F80_0000u32 | 0x8000_0000u32) == 0xFF80_0000u32)
        by (bit_vector);
    assert(0xFF80_0000u32 & 0x8000_0000u32 != 0 && !0xFF80_0000u32 == 0x007F_FFFFu32) by (bit_vector);
}

/// Keys and bit patterns correspond one to one.
pub proof fn lemma_key_round_trip(key: u32)
    ensures
        key_of(bits_of(key)) == key,
        bits_of(key_of(key)) == key,
{
    assert(key & 0x8000_0000u32 != 0 ==> (key & 0x7FFF_FFFFu32) & 0x8000_0000u32 == 0
        && ((key & 0x7FFF_FFFFu32) | 0x8000_0000u32) == key) by (bit_vector);
    assert(key & 0x8000_0000u32 == 0 ==> (!key) & 0x8000_0000u32 != 0 && !(!key) == key)
        by (bit_vector);
    assert(key & 0x8000_0000u32 != 0 ==> (!key) & 0x8000_0000u32 == 0
        && ((!key) | 0x8000_0000u32) & 0x7FFF_FFFFu32 == !key && !(!key) == key) by (bit_vector);
    assert(key & 0x8000_0000u32 == 0 ==> (key | 0x8000_0000u32) & 0x8000_0000u32 != 0
        && (key | 0x8000_0000u32) & 0x7FFF_FFFFu32 == key) by (bit_vector);
}

/// Order keys respect the order of the encoded values: a smaller value never
/// gets a larger or equal key. (Negative and positive zero have equal value and
/// adjacent keys.)
pub proof fn lemma_key_preserves_order(a: u32, b: u32)
    requires
        sign_magnitude(a) < sign_magnitude(b),
    ensures
        key_of(a) < key_of(b),
{
    assert(a & 0x8000_0000u32 == 0 ==> a == (a & 0x7FFF_FFFFu32)
        && (a | 0x8000_0000u32) == (a & 0x7FFF_FFFFu32) + 0x8000_0000u32) by (bit_vector);
    assert(b & 0x8000_0000u32 == 0 ==> b == (b & 0x7FFF_FFFFu32)
        && (b | 0x8000_0000u32) == (b & 0x7FFF_FFFFu32) + 0x8000_0000u32) by (bit_vector);
    assert(a & 0x8000_0000u32 != 0 ==> !a == 0x7FFF_FFFFu32 - (a & 0x7FFF_FFFFu32))
        by (bit_vector);
    assert(b & 0x8000_0000u32 != 0 ==> !b == 0x7FFF_FFFFu32 - (b & 0x7FFF_FFFFu32))
        by (bit_vector);
    assert((a & 0x7FFF_FFFFu32) <= 0x7FFF_FFFFu32 && (b & 0x7FFF_FFFFu32) <= 0x7FFF_FFFFu32)
        by (bit_vector);
}

} // verus!
