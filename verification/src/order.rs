//! Order keys for IEEE-754 doubles.
//!
//! Distances and weights are doubles, computed outside this library. Where
//! the library decides by comparing them it works on their order keys: the
//! bits of a double mapped so that unsigned comparison of keys agrees with
//! the numeric order of the doubles (negative values below positive ones,
//! `-0.0` just below `+0.0`, NaNs at the ends).

use vstd::prelude::*;

verus! {

pub open spec fn sign_bit() -> u64 {
    0x8000_0000_0000_0000
}

/// The order key of the double with bits `b`: negative doubles have all
/// their bits flipped, non-negative ones their sign bit set.
pub open spec fn spec_key_of_bits(b: u64) -> u64 {
    if b >= sign_bit() {
        (u64::MAX - b) as u64
    } else {
        (b + sign_bit()) as u64
    }
}

/// The bits of the double whose order key is `k`.
pub open spec fn spec_bits_of_key(k: u64) -> u64 {
    if k >= sign_bit() {
        (k - sign_bit()) as u64
    } else {
        (u64::MAX - k) as u64
    }
}

pub fn key_of_bits(b: u64) -> (k: u64)
    ensures
        k == spec_key_of_bits(b),
{
    if b >= 0x8000_0000_0000_0000 {
        u64::MAX - b
    } else {
        b + 0x8000_0000_0000_0000
    }
}

pub fn bits_of_key(k: u64) -> (b: u64)
    ensures
        b == spec_bits_of_key(k),
{
    if k >= 0x8000_0000_0000_0000 {
        k - 0x8000_0000_0000_0000
    } else {
        u64::MAX - k
    }
}

/// Keys and bits are in one-to-one correspondence.
pub proof fn lemma_key_bits_inverse(b: u64, k: u64)
    ensures
        spec_bits_of_key(spec_key_of_bits(b)) == b,
        spec_key_of_bits(spec_bits_of_key(k)) == k,
{
}

/// Among non-negative doubles (sign bit clear) keys order like the bits,
/// which order like the values; every non-negative double's key lies above
/// every negative double's.
pub proof fn lemma_key_monotone(a: u64, b: u64)
    ensures
        a < sign_bit() && b < sign_bit() ==> (spec_key_of_bits(a) <= spec_key_of_bits(b) <==> a <= b),
        a >= sign_bit() && b >= sign_bit() ==> (spec_key_of_bits(a) <= spec_key_of_bits(b) <==> b <= a),
        a >= sign_bit() && b < sign_bit() ==> spec_key_of_bits(a) < spec_key_of_bits(b),
{
}

} // verus!
