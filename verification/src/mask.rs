//! Obfuscation of stored offset/length values: a 32-bit key, zero-extended to
//! 64 bits, is XORed into each value. Masking and unmasking are the same
//! operation, and applying it twice restores the original value.
use vstd::prelude::*;

verus! {

/// The value a 64-bit word obfuscates to under a 32-bit key.
pub open spec fn spec_mask(value: u64, key: u32) -> u64 {
    value ^ (key as u64)
}

/// Unmask (or mask: the operation is its own inverse) a stored value.
pub fn mask_value(value: u64, key: u32) -> (r: u64)
    ensures
        r == spec_mask(value, key),
{
    value ^ (key as u64)
}

/// Obfuscation is an involution: masking a value twice with the same key
/// yields the value itself.
pub proof fn lemma_mask_involution(value: u64, key: u32)
    ensures
        spec_mask(spec_mask(value, key), key) == value,
{
    let k = key as u64;
    assert ((value ^ k) ^ k == value) by (bit_vector);
}

/// The unsigned 64-bit word with the same bits as a signed one (two's
/// complement), as a stored signed offset is cast before unmasking.
pub open spec fn spec_i64_to_u64(x: i64) -> u64 {
    if x >= 0 {
        x as u64
    } else {
        (x + 0x1_0000_0000_0000_0000) as u64
    }
}

/// The signed 64-bit word with the same bits as an unsigned one.
pub open spec fn spec_u64_to_i64(x: u64) -> i64 {
    if x <= (i64::MAX as u64) {
        x as i64
    } else {
        (x - 0x1_0000_0000_0000_0000) as i64
    }
}

/// Reinterpret a signed 64-bit word as unsigned, keeping the bits.
pub fn i64_to_u64(x: i64) -> (r: u64)
    ensures
        r == spec_i64_to_u64(x),
{
    if x >= 0 {
        x as u64
    } else {
        let y: i128 = (x as i128) + 0x1_0000_0000_0000_0000i128;
        y as u64
    }
}

/// Reinterpret an unsigned 64-bit word as signed, keeping the bits.
pub fn u64_to_i64(x: u64) -> (r: i64)
    ensures
        r == spec_u64_to_i64(x),
{
    if x <= 0x7fff_ffff_ffff_ffff {
        x as i64
    } else {
        let y: i128 = (x as i128) - 0x1_0000_0000_0000_0000i128;
        y as i64
    }
}

} // verus!
