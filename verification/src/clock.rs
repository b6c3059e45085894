//! Wall-clock readings through chrono, and the date stamp they are written
//! with.
use vstd::prelude::*;

use chrono::Datelike;
use chrono::Timelike;

use crate::codec::enc_nat;
use crate::codec::pow10;
use crate::codec::push_nat;

verus! {

/// Relies on chrono's `Utc::now` and `Timelike::num_seconds_from_midnight`:
/// every time of day maps to an integer in 0..=86399 non-leap seconds past
/// midnight.
#[verifier::external_body]
pub fn now_seconds_of_day() -> (r: u32)
    ensures
        r < 86400,
{
    chrono::Utc::now().time().num_seconds_from_midnight()
}

/// Relies on chrono's `Utc::now` and the `Datelike` accessors: the month is
/// in 1..=12 and the day in 1..=31; the year is whatever the clock's
/// calendar gives.
#[verifier::external_body]
pub fn today_ymd() -> (r: (i32, u32, u32))
    ensures
        1 <= r.1 <= 12,
        1 <= r.2 <= 31,
{
    let d = chrono::Utc::now().date_naive();
    (d.year(), d.month(), d.day())
}

/// The date stamp written into records: four-digit year, two-digit month,
/// two-digit day, dash-separated.
pub open spec fn spec_format_ymd(y: int, m: int, d: int) -> Seq<char> {
    enc_nat(y, 4) + seq!['-'] + enc_nat(m, 2) + seq!['-'] + enc_nat(d, 2)
}

/// Writes a date as its stamp.
pub fn format_ymd(y: u32, m: u32, d: u32) -> (r: String)
    requires
        y <= 9999,
        1 <= m <= 12,
        1 <= d <= 31,
    ensures
        r@ == spec_format_ymd(y as int, m as int, d as int),
        r@.len() == 10,
{
    proof {
        reveal_with_fuel(pow10, 5);
        reveal_strlit("-");
        assert("-"@ =~= seq!['-']);
    }
    let mut out = String::new();
    push_nat(&mut out, y, 4);
    out.append("-");
    push_nat(&mut out, m, 2);
    out.append("-");
    push_nat(&mut out, d, 2);
    proof {
        assert(out@ =~= spec_format_ymd(y as int, m as int, d as int));
        crate::codec::lemma_enc_nat(y as int, 4);
        crate::codec::lemma_enc_nat(m as int, 2);
        crate::codec::lemma_enc_nat(d as int, 2);
    }
    out
}

/// Today's date stamp, from the clock. A calendar year outside 0..=9999 is
/// clamped to that range before it is written.
pub fn today_stamp() -> (r: String)
    ensures
        r@.len() == 10,
{
    let (y, m, d) = today_ymd();
    let yc: u32 = if y < 0 {
        0
    } else if y > 9999 {
        9999
    } else {
        y as u32
    };
    format_ymd(yc, m, d)
}

} // verus!
