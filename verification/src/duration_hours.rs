//! Durations in seconds as counts of whole hours.

use crate::duration_days::{as_unsigned, signed, towards_zero, unsigned};
use crate::iso8601_duration::as_signed;
use crate::time::MAX_DURATION;
use vstd::prelude::*;

verus! {

/// The whole hours of a duration of `duration` seconds, rounded towards
/// zero, as an unsigned number.
pub fn serialize(duration: i64) -> (hours: u64)
    ensures
        hours == as_unsigned(towards_zero(duration as int, 3600)),
{
    unsigned(duration / 3600)
}

/// The duration in seconds of `hours` hours, read as a signed number;
/// `None` where the duration is longer than can be represented.
pub fn deserialize(hours: u64) -> (duration: Option<i64>)
    ensures
        duration == if -MAX_DURATION <= as_signed(hours as int) * 3600 <= MAX_DURATION {
            Some((as_signed(hours as int) * 3600) as i64)
        } else {
            None
        },
{
    let hours = signed(hours);
    if hours < -2_562_047_788_015 || hours > 2_562_047_788_015 {
        None
    } else {
        Some(hours * 3600)
    }
}

} // verus!
