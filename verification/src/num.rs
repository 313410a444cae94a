//! Saturating integer arithmetic.

use vstd::prelude::*;

verus! {

/// `x` brought into the range `lo..=hi`.
pub open spec fn clamp(lo: int, x: int, hi: int) -> int {
    if x < lo {
        lo
    } else if x > hi {
        hi
    } else {
        x
    }
}

/// `x` brought into the range of `i64`.
pub open spec fn clamp_i64(x: int) -> int {
    clamp(i64::MIN as int, x, i64::MAX as int)
}

/// `x` brought into the range of `u64`.
pub open spec fn clamp_u64(x: int) -> int {
    clamp(0, x, u64::MAX as int)
}

/// `x` brought into the range of `i128`.
pub open spec fn clamp_i128(x: int) -> int {
    clamp(i128::MIN as int, x, i128::MAX as int)
}

/// Saturating conversion to `i64`.
pub fn to_i64(x: i128) -> (r: i64)
    ensures
        r == clamp_i64(x as int),
{
    if x > 0x7fff_ffff_ffff_ffffi128 {
        i64::MAX
    } else if x < -0x8000_0000_0000_0000i128 {
        i64::MIN
    } else {
        x as i64
    }
}

/// Saturating conversion to `u64`.
pub fn to_u64(x: i128) -> (r: u64)
    ensures
        r == clamp_u64(x as int),
{
    if x < 0 {
        0
    } else if x > 0xffff_ffff_ffff_ffffi128 {
        u64::MAX
    } else {
        x as u64
    }
}

/// Saturating addition.
pub fn add_i64(a: i64, b: i64) -> (r: i64)
    ensures
        r == clamp_i64(a + b),
{
    to_i64(a as i128 + b as i128)
}

/// Saturating subtraction.
pub fn sub_i64(a: i64, b: i64) -> (r: i64)
    ensures
        r == clamp_i64(a - b),
{
    to_i64(a as i128 - b as i128)
}

/// Saturating addition.
pub fn add_u64(a: u64, b: u64) -> (r: u64)
    ensures
        r == clamp_u64(a + b),
{
    a.saturating_add(b)
}

/// Saturating subtraction.
pub fn sub_u64(a: u64, b: u64) -> (r: u64)
    ensures
        r == clamp_u64(a - b),
{
    a.saturating_sub(b)
}

/// Saturating addition.
pub fn add_i128(a: i128, b: i128) -> (r: i128)
    ensures
        r == clamp_i128(a + b),
{
    match a.checked_add(b) {
        Some(r) => r,
        None => if a > 0 {
            i128::MAX
        } else {
            i128::MIN
        },
    }
}

/// Saturating multiplication.
pub fn mul_i128(a: i128, b: i128) -> (r: i128)
    ensures
        r == clamp_i128(a * b),
{
    match a.checked_mul(b) {
        Some(r) => r,
        None => {
            let same = (a > 0) == (b > 0);
            proof {
                assert(a * b > i128::MAX ==> same) by (nonlinear_arith)
                    requires
                        same == ((a > 0) == (b > 0)),
                ;
                assert(a * b < i128::MIN ==> !same) by (nonlinear_arith)
                    requires
                        same == ((a > 0) == (b > 0)),
                ;
            }
            if same {
                i128::MAX
            } else {
                i128::MIN
            }
        },
    }
}

} // verus!
