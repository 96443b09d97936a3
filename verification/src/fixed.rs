//! Arithmetic on world units: scaling by thousandths, and sums that stop at
//! the ends of the coordinate range.

use vstd::prelude::*;

verus! {

/// The coordinate nearest to `v`.
pub open spec fn clamp(v: int) -> i64 {
    if v < i64::MIN {
        i64::MIN
    } else if v > i64::MAX {
        i64::MAX
    } else {
        v as i64
    }
}

/// A half-extent under a scale, in thousandths of a world unit.
pub open spec fn reach(extent: u32, scale: u32) -> int {
    extent * scale
}

/// The coordinate nearest to `v`.
pub fn saturate(v: i128) -> (c: i64)
    ensures
        c == clamp(v as int),
{
    if v < i64::MIN as i128 {
        i64::MIN
    } else if v > i64::MAX as i128 {
        i64::MAX
    } else {
        v as i64
    }
}

/// A half-extent under a scale, in thousandths of a world unit.
pub fn scaled(extent: u32, scale: u32) -> (r: u64)
    ensures
        r == reach(extent, scale),
{
    assert(0 <= extent * scale <= 0xFFFF_FFFF * 0xFFFF_FFFF) by (nonlinear_arith)
        requires
            0 <= extent <= 0xFFFF_FFFF,
            0 <= scale <= 0xFFFF_FFFF,
    ;
    (extent as u64) * (scale as u64)
}

} // verus!
