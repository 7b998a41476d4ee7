//! A toy linear fingerprint hash over unsigned integers.
use vstd::prelude::*;

verus! {

/// Computes `((a * x) + b) mod 2^64, then mod m`: the products and sums wrap
/// at the 64-bit boundary before the final reduction.
pub fn simple_hash(a: u64, b: u64, x: u64, m: u64) -> (r: u64)
    requires
        m >= 1,
    ensures
        r == ((a * x + b) % 0x1_0000_0000_0000_0000) % (m as int),
        r < m,
{
    proof {
        assert((a as int) * (x as int) + (b as int) <= 0xFFFF_FFFF_FFFF_FFFFu64
            * 0xFFFF_FFFF_FFFF_FFFFu64 + 0xFFFF_FFFF_FFFF_FFFFu64) by (nonlinear_arith)
            requires
                a <= 0xFFFF_FFFF_FFFF_FFFFu64,
                x <= 0xFFFF_FFFF_FFFF_FFFFu64,
                b <= 0xFFFF_FFFF_FFFF_FFFFu64;
    }
    let t: u128 = (a as u128) * (x as u128) + (b as u128);
    let low: u64 = (t % 0x1_0000_0000_0000_0000u128) as u64;
    low % m
}

} // verus!
