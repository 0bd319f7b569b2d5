//! The clock: the source of the current rotation period.
//!
//! Reading the wall clock is inherently outside the reach of proof, so
//! the raw reading is a trusted call that promises only what the clock
//! library's source shows of every outcome; everything after that —
//! validating the reading and turning it into a well-formed [`Date`] —
//! is verified.

use vstd::prelude::*;

use crate::date::spec_days_in_month;
use crate::date::Date;

verus! {

/// Relies on `std::time::SystemTime::now` / `duration_since` and on
/// `time::OffsetDateTime::from_unix_timestamp` with `time::Date`'s
/// accessors: a `time::Date` is a validated calendar day whose year
/// lies in -9999..=9999, whose month (as `u8`) lies in 1..=12 and whose
/// day never exceeds that month's length.  Both fallible steps return
/// errors rather than panic — a clock before 1970 or past the library's
/// date range yields `None` — and nothing more can be promised of a
/// clock reading.
#[verifier::external_body]
fn system_clock_ymd() -> (r: Option<(i32, u8, u8)>)
    ensures
        r matches Some(t) ==> {
            &&& -9999 <= t.0 <= 9999
            &&& 1 <= t.1 <= 12
            &&& 1 <= t.2 <= spec_days_in_month(t.0 as int, t.1 as int)
        },
{
    let since_epoch = std::time::SystemTime::now().duration_since(std::time::UNIX_EPOCH);
    match since_epoch {
        Ok(elapsed) => match time::OffsetDateTime::from_unix_timestamp(elapsed.as_secs() as i64) {
            Ok(stamp) => {
                let d = stamp.date();
                Some((d.year(), u8::from(d.month()), d.day()))
            },
            Err(_) => None,
        },
        Err(_) => None,
    }
}

/// Today's date according to the system clock.
///
/// Whatever the clock reports, a `Some` result is a well-formed date,
/// and every reading whose year lies in 0..=9999 yields `Some` (the
/// body checks this).  `None` is returned only when the clock cannot be
/// read as a day of those years: a host clock before 1970 or past the
/// four-digit range.
pub fn today() -> (r: Option<Date>)
    ensures
        r matches Some(d) ==> d.wf(),
{
    match system_clock_ymd() {
        Some((y, m, d)) => {
            let date = Date::try_new(y, m, d);
            proof {
                if 0 <= y <= 9999 {
                    assert(date is Some);
                }
            }
            date
        },
        None => None,
    }
}

} // verus!
