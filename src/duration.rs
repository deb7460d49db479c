//! Splitting a signed number of seconds into hours, minutes and seconds.
use vstd::prelude::*;

verus! {

/// Division rounding toward zero.
pub open spec fn trunc_div(a: int, b: int) -> int {
    if a >= 0 { a / b } else { -((-a) / b) }
}

/// Splits `total` seconds into hours, minutes and seconds, each rounded
/// toward zero: hours are the whole hours of `total`, minutes the whole
/// minutes left over, seconds the rest. All three carry the sign of `total`.
pub fn split_seconds(total: i64) -> (r: (i64, i64, i64))
    ensures
        r.0 == trunc_div(total as int, 3600),
        r.1 == trunc_div(total as int, 60) - r.0 * 60,
        r.2 == total - r.0 * 3600 - r.1 * 60,
        total >= 0 ==> r.0 >= 0 && 0 <= r.1 < 60 && 0 <= r.2 < 60,
        total < 0 ==> r.0 <= 0 && -60 < r.1 <= 0 && -60 < r.2 <= 0,
{
    let mag: u64 = if total < 0 { (-(total as i128)) as u64 } else { total as u64 };
    let h: u64 = mag / 3600;
    let m: u64 = mag / 60 - h * 60;
    let s: u64 = mag - h * 3600 - m * 60;
    proof {
        assert(h * 3600 <= mag) by (nonlinear_arith) requires h == mag / 3600;
        assert(h * 60 <= mag / 60) by (nonlinear_arith) requires h == mag / 3600;
        assert(mag / 60 - h * 60 < 60) by (nonlinear_arith) requires h == mag / 3600;
        assert(mag - h * 3600 - (mag / 60 - h * 60) * 60 < 60) by (nonlinear_arith) requires h == mag / 3600;
        assert(mag - h * 3600 - (mag / 60 - h * 60) * 60 >= 0) by (nonlinear_arith) requires h == mag / 3600;
        assert(h <= 2562047788015216) by (nonlinear_arith) requires h == mag / 3600, mag <= 9223372036854775808;
    }
    if total < 0 {
        (-(h as i64), -(m as i64), -(s as i64))
    } else {
        (h as i64, m as i64, s as i64)
    }
}

} // verus!
