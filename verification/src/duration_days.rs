//! Durations in seconds as counts of whole days.

use crate::iso8601_duration::as_signed;
use crate::time::MAX_DURATION;
use vstd::prelude::*;

verus! {

/// A signed 64-bit number read as an unsigned one.
pub open spec fn as_unsigned(n: int) -> int {
    if n >= 0 {
        n
    } else {
        n + 0x1_0000_0000_0000_0000
    }
}

/// `a / b` for a positive `b`, rounded towards zero.
pub open spec fn towards_zero(a: int, b: int) -> int {
    if a >= 0 {
        a / b
    } else {
        -((-a) / b)
    }
}

/// A signed 64-bit number read as an unsigned one.
pub fn unsigned(n: i64) -> (value: u64)
    ensures
        value == as_unsigned(n as int),
{
    if n >= 0 {
        n as u64
    } else {
        (u64::MAX - ((-(n + 1)) as u64))
    }
}

/// An unsigned 64-bit number read as a signed one.
pub fn signed(n: u64) -> (value: i64)
    ensures
        value == as_signed(n as int),
{
    if n <= 0x7fff_ffff_ffff_ffff {
        n as i64
    } else {
        -((u64::MAX - n) as i64) - 1
    }
}

/// The whole days of a duration of `duration` seconds, rounded towards
/// zero, as an unsigned number.
pub fn serialize(duration: i64) -> (days: u64)
    ensures
        days == as_unsigned(towards_zero(duration as int, 86_400)),
{
    unsigned(duration / 86_400)
}

/// The duration in seconds of `days` days, read as a signed number; `None`
/// where the duration is longer than can be represented.
pub fn deserialize(days: u64) -> (duration: Option<i64>)
    ensures
        duration == if -MAX_DURATION <= as_signed(days as int) * 86_400 <= MAX_DURATION {
            Some((as_signed(days as int) * 86_400) as i64)
        } else {
            None
        },
{
    let days = signed(days);
    if days < -106_751_991_167 || days > 106_751_991_167 {
        None
    } else {
        Some(days * 86_400)
    }
}

} // verus!
