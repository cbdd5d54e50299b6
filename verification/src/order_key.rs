//! Order keys: integers that stand for `f32` values in the integer-only
//! stages of the pipeline.
//!
//! A key is read off the IEEE 754 bit pattern as sign and magnitude: the
//! pattern with the sign bit clear is its own key, the pattern with the sign
//! bit set is the negated magnitude.  For values that are not NaN, keys
//! compare exactly as the values do (`+0.0` and `-0.0` share the key 0), so a
//! comparison of two values is a comparison of their keys.  The keys of the
//! infinities are `±INFINITY_KEY`; every key beyond them stands for a NaN,
//! which compares false with everything.
use vstd::prelude::*;

verus! {

/// The sign bit of an `f32` bit pattern.
pub const SIGN_BIT: u32 = 0x8000_0000;

/// The order key of `f32::INFINITY` (bit pattern `0x7F80_0000`).
pub const INFINITY_KEY: i32 = 0x7F80_0000;

/// The key stands for a NaN: its magnitude lies beyond that of infinity.
pub open spec fn is_nan_key(k: int) -> bool {
    k > INFINITY_KEY || k < -INFINITY_KEY
}

/// The key of an `f32` bit pattern.
pub open spec fn key_of_bits(bits: u32) -> int {
    if bits >= SIGN_BIT {
        -(bits - SIGN_BIT)
    } else {
        bits as int
    }
}

/// The order key of the `f32` with bit pattern `bits`.
pub fn order_key(bits: u32) -> (key: i32)
    ensures
        key == key_of_bits(bits),
{
    if bits >= SIGN_BIT {
        -((bits - SIGN_BIT) as i32)
    } else {
        bits as i32
    }
}

/// The `f32` bit pattern with order key `key`; keys below zero carry the
/// sign bit.  Every key but `i32::MIN` is the key of a pattern.
pub fn key_bits(key: i32) -> (bits: u32)
    requires
        key > i32::MIN,
    ensures
        key_of_bits(bits) == key,
        (bits >= SIGN_BIT) == (key < 0),
{
    if key < 0 {
        (-key) as u32 + SIGN_BIT
    } else {
        key as u32
    }
}

/// Reading a pattern's key and writing it back gives the pattern again,
/// except for `-0.0`, which comes back as `+0.0`.
pub proof fn lemma_key_round_trip(bits: u32)
    ensures
        bits != SIGN_BIT ==> (if key_of_bits(bits) < 0 {
            (-key_of_bits(bits)) + SIGN_BIT
        } else {
            key_of_bits(bits)
        }) == bits,
        bits == SIGN_BIT ==> key_of_bits(bits) == 0,
        i32::MIN < key_of_bits(bits) <= i32::MAX,
{
}

/// Two patterns share a key only when they are equal or are the two zeros.
pub proof fn lemma_key_injective(a: u32, b: u32)
    requires
        key_of_bits(a) == key_of_bits(b),
    ensures
        a == b || (key_of_bits(a) == 0 && (a == 0 || a == SIGN_BIT) && (b == 0 || b == SIGN_BIT)),
{
}

} // verus!
