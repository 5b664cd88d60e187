//! Bit-preserving reinterpretation between unsigned and signed 64-bit
//! integers, as a relational store expects for wide unsigned keys.

use vstd::prelude::*;

verus! {

/// The signed value whose two's-complement bits are those of `u`.
pub open spec fn u64_as_i64(u: u64) -> int {
    if u <= 0x7fff_ffff_ffff_ffff {
        u as int
    } else {
        u - 0x1_0000_0000_0000_0000
    }
}

/// The unsigned value whose bits are those of `i`.
pub open spec fn i64_as_u64(i: i64) -> int {
    if i >= 0 {
        i as int
    } else {
        i + 0x1_0000_0000_0000_0000
    }
}

/// Reinterpreting one way and back yields the value again.
pub proof fn lemma_bitwise_round_trip(u: u64, i: i64)
    ensures
        -0x8000_0000_0000_0000 <= u64_as_i64(u) <= 0x7fff_ffff_ffff_ffff,
        0 <= i64_as_u64(i) < 0x1_0000_0000_0000_0000,
        i64_as_u64(u64_as_i64(u) as i64) == u,
        u64_as_i64(i64_as_u64(i) as u64) == i,
{
}

/// Reinterprets an unsigned 64-bit value as signed without changing
/// its bits.
pub fn u64_to_i64_bitwise(u: u64) -> (r: i64)
    ensures
        r == u64_as_i64(u),
{
    if u <= 0x7fff_ffff_ffff_ffff {
        u as i64
    } else {
        -((u64::MAX - u) as i64) - 1
    }
}

/// Reinterprets a signed 64-bit value as unsigned without changing its
/// bits.
pub fn i64_to_u64_bitwise(i: i64) -> (r: u64)
    ensures
        r == i64_as_u64(i),
{
    if i >= 0 {
        i as u64
    } else {
        u64::MAX - ((-(i + 1)) as u64)
    }
}

} // verus!
