//! Calendar dates, the rotation period of the appender.
//!
//! A date is kept as plain year/month/day fields so that every rule about
//! it (validity, ordering, the numeric code its file name spells) can be
//! stated and proved directly.

use vstd::prelude::*;

verus! {

/// A calendar date in the proleptic Gregorian calendar, restricted to the
/// years 0..=9999 that the fixed-width `YYYYMMDD` file-name encoding can
/// spell.
#[derive(Clone, Copy, PartialEq, Eq, Structural, Debug)]
pub struct Date {
    pub year: u16,
    pub month: u8,
    pub day: u8,
}

pub open spec fn spec_is_leap_year(year: int) -> bool {
    year % 4 == 0 && (year % 100 != 0 || year % 400 == 0)
}

pub open spec fn spec_days_in_month(year: int, month: int) -> int {
    if month == 2 {
        if spec_is_leap_year(year) {
            29
        } else {
            28
        }
    } else if month == 4 || month == 6 || month == 9 || month == 11 {
        30
    } else {
        31
    }
}

pub fn is_leap_year(year: u16) -> (r: bool)
    ensures
        r == spec_is_leap_year(year as int),
{
    year % 4 == 0 && (year % 100 != 0 || year % 400 == 0)
}

pub fn days_in_month(year: u16, month: u8) -> (r: u8)
    requires
        1 <= month <= 12,
    ensures
        r as int == spec_days_in_month(year as int, month as int),
        28 <= r <= 31,
{
    if month == 2 {
        if is_leap_year(year) {
            29
        } else {
            28
        }
    } else if month == 4 || month == 6 || month == 9 || month == 11 {
        30
    } else {
        31
    }
}

impl Date {
    /// A well-formed date: a real calendar day whose year has at most four
    /// digits.
    pub open spec fn wf(self) -> bool {
        &&& self.year <= 9999
        &&& 1 <= self.month <= 12
        &&& 1 <= self.day <= spec_days_in_month(self.year as int, self.month as int)
    }

    /// The number that the file-name encoding of this date spells:
    /// `year * 10_000 + month * 100 + day`, e.g. 20220526.
    pub open spec fn code(self) -> int {
        self.year * 10000 + self.month * 100 + self.day
    }

    /// Builds a date after checking every validity rule.  Returns `Some`
    /// exactly on real calendar days of the years 0..=9999.
    pub fn try_new(year: i32, month: u8, day: u8) -> (r: Option<Date>)
        ensures
            r is Some <==> {
                &&& 0 <= year <= 9999
                &&& 1 <= month <= 12
                &&& 1 <= day <= spec_days_in_month(year as int, month as int)
            },
            r matches Some(d) ==> {
                &&& d.year as int == year as int
                &&& d.month == month
                &&& d.day == day
                &&& d.wf()
            },
    {
        if year < 0 || year > 9999 {
            return None;
        }
        if month < 1 || month > 12 {
            return None;
        }
        let dim = days_in_month(year as u16, month);
        if day < 1 || day > dim {
            return None;
        }
        Some(Date { year: year as u16, month, day })
    }

    /// Checks well-formedness at run time, for callers outside the
    /// verified world that must establish `wf` before handing a date in.
    pub fn is_valid(&self) -> (r: bool)
        ensures
            r == self.wf(),
    {
        self.year <= 9999 && self.month >= 1 && self.month <= 12 && self.day >= 1 && self.day
            <= days_in_month(self.year, self.month)
    }

    /// The date's code as a machine integer; it always fits well below
    /// `u32::MAX` because the year has at most four digits.
    pub fn code_u32(&self) -> (r: u32)
        requires
            self.wf(),
        ensures
            r as int == self.code(),
            r < 100000000,
    {
        (self.year as u32) * 10000 + (self.month as u32) * 100 + (self.day as u32)
    }

    /// Strict chronological comparison; dates are ordered exactly as their
    /// codes are (see `lemma_code_orders_dates`).
    pub fn is_before(&self, other: &Date) -> (r: bool)
        requires
            self.wf(),
            other.wf(),
        ensures
            r == (self.code() < other.code()),
    {
        self.code_u32() < other.code_u32()
    }

    /// The calendar day immediately before this one, as a value.
    pub open spec fn spec_previous(self) -> Date {
        if self.day > 1 {
            Date { year: self.year, month: self.month, day: (self.day - 1) as u8 }
        } else if self.month > 1 {
            Date {
                year: self.year,
                month: (self.month - 1) as u8,
                day: spec_days_in_month(self.year as int, self.month - 1) as u8,
            }
        } else {
            Date { year: (self.year - 1) as u16, month: 12, day: 31 }
        }
    }

    /// The day before this one; `None` only on the very first
    /// representable day, year 0 January 1.
    pub fn previous_day(&self) -> (r: Option<Date>)
        requires
            self.wf(),
        ensures
            r is Some <==> !(self.year == 0 && self.month == 1 && self.day == 1),
            r matches Some(p) ==> {
                &&& p == self.spec_previous()
                &&& p.wf()
                &&& p.code() < self.code()
            },
    {
        if self.day > 1 {
            Some(Date { year: self.year, month: self.month, day: self.day - 1 })
        } else if self.month > 1 {
            let m = self.month - 1;
            Some(Date { year: self.year, month: m, day: days_in_month(self.year, m) })
        } else if self.year > 0 {
            Some(Date { year: self.year - 1, month: 12, day: 31 })
        } else {
            None
        }
    }
}

/// Codes order dates chronologically: the code comparison agrees with the
/// year-month-day lexicographic order.
pub proof fn lemma_code_orders_dates(a: Date, b: Date)
    requires
        a.wf(),
        b.wf(),
    ensures
        a.code() < b.code() <==> (a.year < b.year || (a.year == b.year && (a.month < b.month || (
        a.month == b.month && a.day < b.day)))),
{
}

/// Distinct well-formed dates have distinct codes, so a dated file name
/// identifies its date uniquely.
pub proof fn lemma_code_injective(a: Date, b: Date)
    requires
        a.wf(),
        b.wf(),
        a.code() == b.code(),
    ensures
        a == b,
{
}

} // verus!
