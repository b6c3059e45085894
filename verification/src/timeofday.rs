//! Wall-clock times of day and the delay computation of the wake scheduler.
use vstd::prelude::*;

use crate::digits::digit_val;
use crate::digits::is_digit;

verus! {

/// Seconds in one day.
pub const DAY_SECONDS: u32 = 86400;

/// A 24-hour wall-clock time of day.
#[derive(Clone, Copy, PartialEq, Eq, Structural, Debug)]
pub struct TimeOfDay {
    pub hour: u8,
    pub minute: u8,
}

/// Rejection of a string that is not a valid `HH:MM` time.
#[derive(Clone, Copy, PartialEq, Eq, Structural, Debug)]
pub struct InvalidTimeFormat;

impl TimeOfDay {
    /// A well-formed time of day: hours below 24, minutes below 60.
    pub open spec fn wf(self) -> bool {
        self.hour < 24 && self.minute < 60
    }

    /// The time as a count of seconds since midnight.
    pub open spec fn spec_seconds(self) -> int {
        self.hour * 3600 + self.minute * 60
    }

    /// Seconds since midnight of this time of day.
    pub fn seconds(self) -> (r: u32)
        requires
            self.wf(),
        ensures
            r == self.spec_seconds(),
            r < DAY_SECONDS,
    {
        self.hour as u32 * 3600 + self.minute as u32 * 60
    }
}

/// What a five-character `HH:MM` string denotes: a well-formed time of day,
/// or nothing when the shape or the ranges are wrong.
pub open spec fn spec_parse_hhmm(s: Seq<char>) -> Option<TimeOfDay> {
    if s.len() == 5 && is_digit(s[0]) && is_digit(s[1]) && s[2] == ':' && is_digit(s[3])
        && is_digit(s[4]) {
        let h = digit_val(s[0]) * 10 + digit_val(s[1]);
        let m = digit_val(s[3]) * 10 + digit_val(s[4]);
        if h < 24 && m < 60 {
            Some(TimeOfDay { hour: h as u8, minute: m as u8 })
        } else {
            None
        }
    } else {
        None
    }
}

/// Parses a strict 24-hour `HH:MM` string; any other shape is rejected.
pub fn parse_hhmm(s: &str) -> (r: Result<TimeOfDay, InvalidTimeFormat>)
    ensures
        match r {
            Ok(t) => spec_parse_hhmm(s@) == Some(t) && t.wf(),
            Err(_) => spec_parse_hhmm(s@) is None,
        },
{
    if s.unicode_len() != 5 {
        return Err(InvalidTimeFormat);
    }
    let c0 = s.get_char(0);
    let c1 = s.get_char(1);
    let c2 = s.get_char(2);
    let c3 = s.get_char(3);
    let c4 = s.get_char(4);
    if !(c0 >= '0' && c0 <= '9' && c1 >= '0' && c1 <= '9' && c2 == ':' && c3 >= '0' && c3 <= '9'
        && c4 >= '0' && c4 <= '9') {
        return Err(InvalidTimeFormat);
    }
    let h: u32 = (c0 as u32 - 48) * 10 + (c1 as u32 - 48);
    let m: u32 = (c3 as u32 - 48) * 10 + (c4 as u32 - 48);
    if h < 24 && m < 60 {
        Ok(TimeOfDay { hour: h as u8, minute: m as u8 })
    } else {
        Err(InvalidTimeFormat)
    }
}

/// The whole-second delay until the next occurrence of `wake`: same-day when
/// `wake` is strictly later than now, otherwise rolled to the next day.
/// A wake time equal to the current time rolls to the next day, so the delay
/// is always at least one second and at most a full day.
pub fn compute_delay_seconds(wake: TimeOfDay, now_secs: u32) -> (delay: u32)
    requires
        wake.wf(),
        now_secs < DAY_SECONDS,
    ensures
        wake.spec_seconds() > now_secs ==> delay == wake.spec_seconds() - now_secs,
        wake.spec_seconds() <= now_secs ==> delay == wake.spec_seconds() + DAY_SECONDS
            - now_secs,
        1 <= delay <= DAY_SECONDS,
{
    let wake_secs = wake.seconds();
    if wake_secs > now_secs {
        wake_secs - now_secs
    } else {
        wake_secs + DAY_SECONDS - now_secs
    }
}

} // verus!
