//! Lengths as whole numbers of ticks, and the decimal and hexadecimal texts
//! that numbers are written as in a PDF.
//!
//! A tick is a ten-thousandth of a point (or of a screen pixel): exactly the
//! resolution at which coordinates are written into a content stream.

use vstd::prelude::*;

verus! {

/// Ticks in one point.
pub const TICKS_PER_PT: i64 = 10_000;

/// Largest magnitude of a coordinate, in ticks.
pub const COORD_LIMIT: i64 = 100_000_000_000_000_000;

/// A coordinate or length that the library works on.
pub open spec fn in_range(v: int) -> bool {
    -COORD_LIMIT <= v <= COORD_LIMIT
}

/// The distance from one coordinate to another.
pub open spec fn is_extent(v: int) -> bool {
    -2 * COORD_LIMIT <= v <= 2 * COORD_LIMIT
}

/// `v` moved to the nearest value of `lo..=hi`.
pub open spec fn clamped(v: int, lo: int, hi: int) -> int {
    if v < lo {
        lo
    } else if v > hi {
        hi
    } else {
        v
    }
}

/// `v` kept within the range of coordinates.
pub open spec fn limited(v: int) -> int {
    clamped(v, -COORD_LIMIT as int, COORD_LIMIT as int)
}

pub open spec fn spec_min(a: int, b: int) -> int {
    if a <= b {
        a
    } else {
        b
    }
}

pub open spec fn spec_max(a: int, b: int) -> int {
    if a >= b {
        a
    } else {
        b
    }
}

/// The whole number nearest to `num / den`; halfway cases go away from zero.
pub open spec fn rounded(num: int, den: int) -> int
    recommends
        den > 0,
{
    if num >= 0 {
        (2 * num + den) / (2 * den)
    } else {
        -((-2 * num + den) / (2 * den))
    }
}

/// The smaller of two lengths.
pub fn min(a: i64, b: i64) -> (r: i64)
    ensures
        r == spec_min(a as int, b as int),
{
    if a <= b {
        a
    } else {
        b
    }
}

/// The larger of two lengths.
pub fn max(a: i64, b: i64) -> (r: i64)
    ensures
        r == spec_max(a as int, b as int),
{
    if a >= b {
        a
    } else {
        b
    }
}

/// `v` moved to the nearest value of `lo..=hi`.
pub fn clamp(v: i128, lo: i64, hi: i64) -> (r: i64)
    requires
        lo <= hi,
    ensures
        r == clamped(v as int, lo as int, hi as int),
        lo <= r <= hi,
{
    if v < lo as i128 {
        lo
    } else if v > hi as i128 {
        hi
    } else {
        v as i64
    }
}

/// `v` kept within the range of coordinates.
pub fn limit(v: i128) -> (r: i64)
    ensures
        r == limited(v as int),
        in_range(r as int),
{
    clamp(v, -COORD_LIMIT, COORD_LIMIT)
}

/// `rounded` never lies further than half a unit from the exact quotient.
pub proof fn rounded_is_nearest(num: int, den: int)
    requires
        den > 0,
    ensures
        -den <= 2 * (rounded(num, den) * den - num) <= den,
{
    let n = if num >= 0 {
        num
    } else {
        -num
    };
    let q = (2 * n + den) / (2 * den);
    assert(2 * (q * den - n) <= den && -den <= 2 * (q * den - n)) by (nonlinear_arith)
        requires
            den > 0,
            q == (2 * n + den) / (2 * den),
    ;
    assert((-q) * den == -(q * den)) by (nonlinear_arith);
}

/// A quotient of two numbers of one sign stays below the dividend.
proof fn lemma_rounded_bound(num: int, den: int)
    requires
        den > 0,
    ensures
        num >= 0 ==> 0 <= rounded(num, den) <= num + 1,
        num < 0 ==> num - 1 <= rounded(num, den) <= 0,
{
    let n = if num >= 0 {
        num
    } else {
        -num
    };
    let q = (2 * n + den) / (2 * den);
    assert(0 <= q <= n + 1) by (nonlinear_arith)
        requires
            den > 0,
            n >= 0,
            q == (2 * n + den) / (2 * den),
    ;
}

/// The whole number nearest to `num / den`; halfway cases go away from zero.
pub fn round_div(num: i128, den: i128) -> (r: i128)
    requires
        0 < den <= 0x2000_0000_0000_0000_0000_0000_0000_0000,
        -0x2000_0000_0000_0000_0000_0000_0000_0000 <= num <= 0x2000_0000_0000_0000_0000_0000_0000_0000,
    ensures
        r == rounded(num as int, den as int),
        num >= 0 ==> 0 <= r <= num + 1,
        num < 0 ==> num - 1 <= r <= 0,
{
    proof {
        lemma_rounded_bound(num as int, den as int);
    }
    if num >= 0 {
        ((2 * num as u128 + den as u128) / (2 * den as u128)) as i128
    } else {
        -(((2 * (-num) as u128 + den as u128) / (2 * den as u128)) as i128)
    }
}

} // verus!
