//! Common helpers: the bijection between signed and unsigned 64-bit values
//! used to encode signed gaps with codes for non-negative integers.

use vstd::prelude::*;

verus! {

/// The error kinds that the engine surfaces to its callers.
#[derive(Clone, Copy, PartialEq, Eq, Structural, Debug)]
pub enum GraphError {
    /// A read or write failed in the word backend, including running off its
    /// end.
    BackendIo,
    /// The bit stream does not parse as the records it should hold.
    MalformedStream,
    /// The declared codes or endianness do not match the reader.
    PropertyMismatch,
    /// A caller-side misuse, such as a slice of the wrong length.
    BadArgument,
    /// Declared totals do not match what the stream holds.
    Inconsistency,
}

/// Mathematical zigzag map: non-negative integers go to even numbers,
/// negative integers to odd numbers.
pub open spec fn zigzag(x: int) -> int {
    if x >= 0 {
        2 * x
    } else {
        -2 * x - 1
    }
}

/// Mathematical inverse of [`zigzag`]: even numbers come from non-negative
/// integers, odd numbers from negative integers.
pub open spec fn unzigzag(n: int) -> int {
    if n % 2 == 0 {
        n / 2
    } else {
        -(n / 2) - 1
    }
}

/// Bijective mapping from `i64` to `u64`, sending `x` to `2x` when `x >= 0`
/// and to `-2x - 1` otherwise, so that signed gaps can be written with codes
/// for non-negative integers.
pub fn int2nat(x: i64) -> (r: u64)
    ensures
        r == zigzag(x as int),
{
    let ux: u64 = x as u64;
    let sign: u64 = if x < 0 {
        u64::MAX
    } else {
        0
    };
    let r: u64 = (ux << 1u64) ^ sign;
    proof {
        assert(r == zigzag(x as int)) by (bit_vector)
            requires
                ux == x as u64,
                sign == (if x < 0 { u64::MAX } else { 0u64 }),
                r == (ux << 1u64) ^ sign,
        ;
    }
    r
}

/// Bijective mapping from `u64` to `i64`, the inverse of [`int2nat`]: even
/// values `n` go to `n / 2`, odd values to `-(n / 2) - 1`.
pub fn nat2int(x: u64) -> (r: i64)
    ensures
        r == unzigzag(x as int),
{
    let mask: u64 = if x & 1 == 1 {
        u64::MAX
    } else {
        0
    };
    let r: i64 = ((x >> 1u64) ^ mask) as i64;
    proof {
        assert(r == unzigzag(x as int)) by (bit_vector)
            requires
                mask == (if x & 1 == 1 { u64::MAX } else { 0u64 }),
                r == (((x >> 1u64) ^ mask)) as i64,
        ;
    }
    r
}

/// The two maps are mutually inverse: starting from a signed value, encoding
/// and decoding gives the value back.
pub proof fn lemma_zigzag_unzigzag(x: int)
    ensures
        unzigzag(zigzag(x)) == x,
{
}

/// The two maps are mutually inverse: starting from an unsigned value,
/// decoding and re-encoding gives the value back.
pub proof fn lemma_unzigzag_zigzag(n: int)
    requires
        n >= 0,
    ensures
        zigzag(unzigzag(n)) == n,
{
}

} // verus!
