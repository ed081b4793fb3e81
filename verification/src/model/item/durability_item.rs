use vstd::prelude::*;

verus! {

/// The ways an operation on item stacks with durability can be refused.
#[derive(Debug, PartialEq, Eq, Clone, Copy, Structural)]
pub enum ItemError {
    /// A split asked for more than the stack holds.
    InsufficientAmountToSplit,
    /// The container holds less of the item than was asked for.
    InsufficientTotalAmount,
}

/// The bit pattern `b` of an IEEE-754 single-precision value is a NaN: all
/// exponent bits set and a nonzero fraction.
pub open spec fn is_nan_bits(b: u32) -> bool {
    (b & 0x7F80_0000u32) == 0x7F80_0000u32 && (b & 0x007F_FFFFu32) != 0
}

/// The sign bit of the pattern is set.
pub open spec fn sign_set(b: u32) -> bool {
    (b & 0x8000_0000u32) != 0
}

/// The pattern with the sign bit cleared: the value's magnitude, whose
/// patterns order as the magnitudes do.
pub open spec fn magnitude_bits(b: u32) -> u32 {
    b & 0x7FFF_FFFFu32
}

/// The values with (non-NaN) patterns `a` and `b` are equal: the same
/// pattern, or both zeros of either sign.
pub open spec fn value_eq(a: u32, b: u32) -> bool {
    a == b || (magnitude_bits(a) == 0 && magnitude_bits(b) == 0)
}

/// The value with (non-NaN) pattern `a` is less than that with pattern `b`
/// in the numeric order of IEEE-754 (sign and magnitude; the two zeros are
/// equal).
pub open spec fn value_lt(a: u32, b: u32) -> bool {
    if value_eq(a, b) {
        false
    } else if sign_set(a) != sign_set(b) {
        sign_set(a)
    } else if sign_set(a) {
        magnitude_bits(a) > magnitude_bits(b)
    } else {
        magnitude_bits(a) < magnitude_bits(b)
    }
}

/// The sort key of a durability value given by its bit pattern: negative
/// zero is taken as zero, negative values are flipped whole and the others
/// get the sign bit set.
pub open spec fn key_of_bits(b: u32) -> u32 {
    if b == 0x8000_0000u32 {
        0x8000_0000u32
    } else if sign_set(b) {
        !b
    } else {
        b | 0x8000_0000u32
    }
}

/// The key under which a durability value sorts when the most worn stacks
/// go first, from the value's IEEE-754 single-precision bit pattern. A NaN
/// has no place in the order and gets no key.
pub fn durability_sort_key(bits: u32) -> (key: Option<u32>)
    ensures
        key == if is_nan_bits(bits) {
            None
        } else {
            Some(key_of_bits(bits))
        },
{
    if (bits & 0x7F80_0000u32) == 0x7F80_0000u32 && (bits & 0x007F_FFFFu32) != 0 {
        None
    } else if bits == 0x8000_0000u32 {
        Some(0x8000_0000u32)
    } else if (bits & 0x8000_0000u32) != 0 {
        Some(!bits)
    } else {
        Some(bits | 0x8000_0000u32)
    }
}

/// Sort keys order durability values exactly as their numeric order does:
/// a smaller value gets a smaller key, and equal values (the two zeros
/// included) get the same key.
pub proof fn lemma_sort_key_follows_value_order(a: u32, b: u32)
    ensures
        value_lt(a, b) <==> key_of_bits(a) < key_of_bits(b),
        value_eq(a, b) <==> key_of_bits(a) == key_of_bits(b),
{
    assert(value_lt(a, b) <==> key_of_bits(a) < key_of_bits(b)) by (bit_vector);
    assert(value_eq(a, b) <==> key_of_bits(a) == key_of_bits(b)) by (bit_vector);
}

/// A pattern lacks a key exactly when it is a NaN: its 8-bit exponent field
/// (bits 23 to 30) is all ones and its 23-bit fraction field is not zero.
/// Zeros, subnormals, normal numbers and infinities all get a key.
pub proof fn lemma_only_nan_lacks_key(b: u32)
    ensures
        is_nan_bits(b) <==> (((b >> 23u32) & 0xFFu32) == 0xFFu32 && b % 0x80_0000u32 != 0),
{
    assert(is_nan_bits(b) <==> (((b >> 23u32) & 0xFFu32) == 0xFFu32 && b % 0x80_0000u32 != 0))
        by (bit_vector);
}

/// Keys order the patterns as the numbers they encode, stated on the raw
/// patterns: among non-negative patterns (sign bit clear) a larger pattern
/// is a larger number; among negative ones (sign bit set, negative zero
/// aside) a larger pattern is a smaller number; every negative number is
/// below every non-negative one; and the two zeros share a key.
pub proof fn lemma_sort_key_on_raw_patterns(a: u32, b: u32)
    ensures
        a < 0x8000_0000u32 && b < 0x8000_0000u32 ==> (key_of_bits(a) < key_of_bits(b) <==> a < b),
        a > 0x8000_0000u32 && b > 0x8000_0000u32 ==> (key_of_bits(a) < key_of_bits(b) <==> a > b),
        a > 0x8000_0000u32 && b < 0x8000_0000u32 ==> key_of_bits(a) < key_of_bits(b),
        key_of_bits(0x8000_0000u32) == key_of_bits(0u32),
        key_of_bits(a) == key_of_bits(b) ==> (a == b || (a | 0x8000_0000u32) == 0x8000_0000u32 && (b
            | 0x8000_0000u32) == 0x8000_0000u32),
{
    assert(a < 0x8000_0000u32 && b < 0x8000_0000u32 ==> (key_of_bits(a) < key_of_bits(b) <==> a < b))
        by (bit_vector);
    assert(a > 0x8000_0000u32 && b > 0x8000_0000u32 ==> (key_of_bits(a) < key_of_bits(b) <==> a > b))
        by (bit_vector);
    assert(a > 0x8000_0000u32 && b < 0x8000_0000u32 ==> key_of_bits(a) < key_of_bits(b))
        by (bit_vector);
    assert(key_of_bits(0x8000_0000u32) == key_of_bits(0u32)) by (bit_vector);
    assert(key_of_bits(a) == key_of_bits(b) ==> (a == b || (a | 0x8000_0000u32) == 0x8000_0000u32
        && (b | 0x8000_0000u32) == 0x8000_0000u32)) by (bit_vector);
}

} // verus!
