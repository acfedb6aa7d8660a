//! Saturating arithmetic and integer square roots, with exact contracts.

use vstd::prelude::*;

verus! {

/// Addition clamped to a ceiling: the exact value of a saturating add.
pub open spec fn sat_add(a: int, b: int, cap: int) -> int {
    if a + b <= cap {
        a + b
    } else {
        cap
    }
}

/// Saturating addition on `u64`.
pub fn sat_add64(a: u64, b: u64) -> (r: u64)
    ensures
        r == sat_add(a as int, b as int, u64::MAX as int),
{
    if a <= u64::MAX - b {
        a + b
    } else {
        u64::MAX
    }
}

/// Saturating addition on `u32`.
pub fn sat_add_u32(a: u32, b: u32) -> (r: u32)
    ensures
        r == sat_add(a as int, b as int, u32::MAX as int),
{
    if a <= u32::MAX - b {
        a + b
    } else {
        u32::MAX
    }
}

/// Saturating addition on `u128`.
pub fn sat_add128(a: u128, b: u128) -> (r: u128)
    ensures
        r == sat_add(a as int, b as int, u128::MAX as int),
{
    if a <= u128::MAX - b {
        a + b
    } else {
        u128::MAX
    }
}

/// The integer square root: the largest `r` with `r * r <= x`.
pub fn isqrt128(x: u128) -> (r: u128)
    ensures
        r * r <= x,
        x < (r + 1) * (r + 1),
{
    if x == 0 {
        return 0;
    }
    let mut lo: u128 = 0;
    let mut hi: u128 = if x < 0x1_0000_0000_0000_0000 {
        0x1_0000_0000
    } else {
        0x1_0000_0000_0000_0000
    };
    proof {
        if x < 0x1_0000_0000_0000_0000 {
            assert((0x1_0000_0000 as int) * (0x1_0000_0000 as int) == 0x1_0000_0000_0000_0000);
        } else {
            assert((0x1_0000_0000_0000_0000 as int) * (0x1_0000_0000_0000_0000 as int) > x as int)
                by (nonlinear_arith)
                requires x <= u128::MAX;
        }
    }
    while lo + 1 < hi
        invariant
            lo < hi,
            lo * lo <= x,
            x < hi * hi,
            hi <= 0x1_0000_0000_0000_0000,
        decreases hi - lo,
    {
        let mid: u128 = lo + (hi - lo) / 2;
        if mid <= x / mid {
            proof {
                assert(mid * mid <= x) by (nonlinear_arith)
                    requires mid <= x / mid, mid > 0;
            }
            lo = mid;
        } else {
            proof {
                assert(x < mid * mid) by (nonlinear_arith)
                    requires mid > x / mid, mid > 0,
                ;
            }
            hi = mid;
        }
    }
    lo
}

} // verus!
