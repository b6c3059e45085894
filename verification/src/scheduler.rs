//! The wake scheduler: from a wall-clock wake time to the concrete delay the
//! firing sequence waits out.
use vstd::prelude::*;

use crate::timeofday::compute_delay_seconds;
use crate::timeofday::parse_hhmm;
use crate::timeofday::spec_parse_hhmm;
use crate::timeofday::InvalidTimeFormat;
use crate::timeofday::DAY_SECONDS;

verus! {

/// The whole-second delay until the alarm fires: the wake time parsed
/// strictly as `HH:MM`, then the next occurrence of that time of day
/// relative to `now_secs` — same-day when strictly later than now, otherwise
/// rolled to the next day. Any other input is an invalid time format, and
/// nothing else fails.
pub fn plan_wake_delay(wake_time: &str, now_secs: u32) -> (r: Result<u32, InvalidTimeFormat>)
    requires
        now_secs < DAY_SECONDS,
    ensures
        match r {
            Ok(delay) => {
                &&& spec_parse_hhmm(wake_time@) is Some
                &&& {
                    let t = spec_parse_hhmm(wake_time@)->Some_0;
                    &&& t.spec_seconds() > now_secs ==> delay == t.spec_seconds() - now_secs
                    &&& t.spec_seconds() <= now_secs ==> delay == t.spec_seconds() + DAY_SECONDS
                        - now_secs
                }
                &&& 1 <= delay <= DAY_SECONDS
            },
            Err(_) => spec_parse_hhmm(wake_time@) is None,
        },
{
    match parse_hhmm(wake_time) {
        Ok(t) => Ok(compute_delay_seconds(t, now_secs)),
        Err(e) => Err(e),
    }
}

/// Plans the delay against the clock's current time of day. The delay
/// depends on the moment of the call; whatever the clock read, it is at
/// least one second and at most a full day.
pub fn plan_wake_delay_now(wake_time: &str) -> (r: Result<u32, InvalidTimeFormat>)
    ensures
        match r {
            Ok(delay) => spec_parse_hhmm(wake_time@) is Some && 1 <= delay <= DAY_SECONDS,
            Err(_) => spec_parse_hhmm(wake_time@) is None,
        },
{
    let now = crate::clock::now_seconds_of_day();
    plan_wake_delay(wake_time, now)
}

} // verus!
