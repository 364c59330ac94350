//! Wrap-safe comparison of 16-bit tick counters.
//!
//! A tick advances by 1 per simulation step and wraps modulo 2^16, so raw
//! numeric order inverts near the boundary. Ordering decisions throughout the
//! library go through [`wrapping_diff`]: the signed minimal difference on the
//! mod-2^16 circle.

use vstd::prelude::*;

verus! {

/// The signed minimal difference from `b` to `a` on the mod-2^16 circle: the
/// value `d` in `[-32768, 32767]` with `a - b == d (mod 2^16)`.
pub open spec fn wrapping_diff_spec(a: u16, b: u16) -> int {
    if a - b >= 32768 {
        a - b - 65536
    } else if a - b < -32768 {
        a - b + 65536
    } else {
        a - b
    }
}

/// Tick `a` is strictly later than tick `b` under wrapping comparison.
pub open spec fn tick_gt(a: u16, b: u16) -> bool {
    wrapping_diff_spec(a, b) > 0
}

/// The signed minimal difference from `b` to `a` on the mod-2^16 circle.
/// `a` is strictly later than `b` exactly when the result is positive.
pub fn wrapping_diff(a: u16, b: u16) -> (r: i32)
    ensures
        r == wrapping_diff_spec(a, b),
{
    let d: i32 = a as i32 - b as i32;
    if d >= 32768 {
        d - 65536
    } else if d < -32768 {
        d + 65536
    } else {
        d
    }
}

/// The difference always lies in the signed 16-bit range, and it is zero
/// exactly on equal ticks.
pub proof fn lemma_wrapping_diff_range(a: u16, b: u16)
    ensures
        -32768 <= wrapping_diff_spec(a, b) <= 32767,
        wrapping_diff_spec(a, b) == 0 <==> a == b,
{
}

/// Antisymmetry of the wrapping difference: `wrapping_diff(a, b)` is the
/// negation of `wrapping_diff(b, a)`, except that two ticks exactly 2^15
/// apart yield `-32768` in both directions.
pub proof fn lemma_wrapping_diff_antisymmetric(a: u16, b: u16)
    ensures
        wrapping_diff_spec(a, b) == -32768 <==> wrapping_diff_spec(b, a) == -32768,
        wrapping_diff_spec(a, b) != -32768 ==> wrapping_diff_spec(a, b) == -wrapping_diff_spec(
            b,
            a,
        ),
{
}

} // verus!
