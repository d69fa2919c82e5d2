//! Integer keys for IEEE-754 binary64 bit patterns under the standard's
//! `totalOrder` (the order of `f64::total_cmp`): negatives before positives,
//! larger magnitudes first among negatives, smaller first among positives.
//! The estimators rank values by these keys.

use vstd::prelude::*;

verus! {

/// 2⁶³, the sign bit of a binary64 pattern.
pub open spec fn sign_bit() -> nat {
    0x8000_0000_0000_0000
}

/// `a` comes strictly before `b` in `totalOrder` on bit patterns.
pub open spec fn total_order_before(a: u64, b: u64) -> bool {
    let a_neg = a >= sign_bit();
    let b_neg = b >= sign_bit();
    if a_neg && !b_neg {
        true
    } else if !a_neg && b_neg {
        false
    } else if !a_neg {
        a < b
    } else {
        a > b
    }
}

/// The key of a bit pattern: the pattern itself when the sign bit is clear,
/// `−1 − magnitude` when it is set.
pub open spec fn key_of_bits(bits: u64) -> int {
    if bits < sign_bit() {
        bits as int
    } else {
        -1 - (bits - sign_bit())
    }
}

/// The key of the bit pattern `bits`.
pub fn total_order_key(bits: u64) -> (key: i64)
    ensures
        key == key_of_bits(bits),
{
    if bits < 0x8000_0000_0000_0000 {
        bits as i64
    } else {
        -1 - ((bits - 0x8000_0000_0000_0000) as i64)
    }
}

/// The bit pattern whose key is `key`.
pub fn bits_of_key(key: i64) -> (bits: u64)
    ensures
        key_of_bits(bits) == key,
{
    if key >= 0 {
        key as u64
    } else {
        0x8000_0000_0000_0000 + ((-1 - key) as u64)
    }
}

/// Order law: keys compare as their bit patterns do under `totalOrder`, and
/// distinct patterns have distinct keys (so a key determines its pattern).
pub proof fn lemma_key_order_is_total_order(a: u64, b: u64)
    ensures
        key_of_bits(a) < key_of_bits(b) <==> total_order_before(a, b),
        key_of_bits(a) == key_of_bits(b) <==> a == b,
{
}

} // verus!
