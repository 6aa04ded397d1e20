//! Dates of the common calendar, in UTC.

use crate::words::{pad, padded, Phrase};
use vstd::prelude::*;
use vstd::string::*;

verus! {

broadcast use vstd::string::group_string_axioms;

/// Whether a year has a leap day.
pub open spec fn leap(y: int) -> bool {
    y % 4 == 0 && (y % 100 != 0 || y % 400 == 0)
}

/// How many days a month has.
pub open spec fn month_days(y: int, m: int) -> int {
    if m == 2 {
        if leap(y) {
            29
        } else {
            28
        }
    } else if m == 4 || m == 6 || m == 9 || m == 11 {
        30
    } else {
        31
    }
}

/// How many days of a year stand before a month.
pub open spec fn days_before_month(y: int, m: int) -> int
    decreases m,
{
    if m <= 1 {
        0
    } else {
        days_before_month(y, m - 1) + month_days(y, m - 1)
    }
}

/// How many days stand before a year, from the start of year zero: one more than 365 for
/// each year with a leap day.
pub open spec fn days_before_year(y: int) -> int {
    365 * y + (y + 3) / 4 - (y + 99) / 100 + (y + 399) / 400
}

/// Whether `days` after the first of January 1970 it is the given date.
pub open spec fn is_date(days: int, y: int, m: int, d: int) -> bool {
    &&& 1 <= m <= 12
    &&& 1 <= d <= month_days(y, m)
    &&& days == days_before_year(y) + days_before_month(y, m) + (d - 1) - days_before_year(1970)
}

/// A date and a time of day.
#[verifier::ext_equal]
pub struct MomentV {
    pub year: nat,
    pub month: nat,
    pub day: nat,
    pub hour: nat,
    pub minute: nat,
    pub second: nat,
}

/// Whether a date and time are `secs` seconds after the start of 1970.
pub open spec fn is_moment(secs: nat, t: MomentV) -> bool {
    &&& is_date(secs as int / 86_400, t.year as int, t.month as int, t.day as int)
    &&& t.hour < 24
    &&& t.minute < 60
    &&& t.second < 60
    &&& secs % 86_400 == 3_600 * t.hour + 60 * t.minute + t.second
}

// --- Calendar -----------------------------------------------------------------

/// Days of an era of 400 years before one of its years, where years start in March.
spec fn days_into_era(y: int) -> int {
    365 * y + y / 4 - y / 100
}

proof fn lemma_year_of_era(doe: int)
    requires
        0 <= doe <= 146_096,
    ensures
        ({
            let yoe = (doe - doe / 1_460 + doe / 36_524 - doe / 146_096) / 365;
            &&& 0 <= yoe <= 399
            &&& days_into_era(yoe) <= doe
            &&& doe <= days_into_era(yoe + 1) - (if yoe == 399 {
                0int
            } else {
                1int
            })
        }),
{
}

/// The place of a month in a year that starts in March.
spec fn march_month(m: int) -> int {
    if m > 2 {
        m - 3
    } else {
        m + 9
    }
}

/// Days of a year that starts in March before one of its months.
spec fn days_into_march_year(mp: int) -> int {
    (153 * mp + 2) / 5
}

proof fn lemma_months(y: int, m: int)
    requires
        1 <= m <= 12,
    ensures
        m > 2 ==> days_before_month(y, m) == days_before_month(y, 3) + days_into_march_year(
            march_month(m),
        ),
        days_before_month(y, 1) == 0,
        days_before_month(y, 2) == 31,
        days_before_month(y, 3) == 59 + (if leap(y) {
            1int
        } else {
            0int
        }),
        m != 2 ==> month_days(y, m) == days_into_march_year(march_month(m) + 1)
            - days_into_march_year(march_month(m)),
{
    reveal_with_fuel(days_before_month, 13);
}

proof fn lemma_eras_repeat(era: int, y: int)
    requires
        0 <= era,
        0 <= y,
    ensures
        days_before_year(400 * era + y) == 146_097 * era + days_before_year(y),
        leap(400 * era + y) == leap(y),
{
    let n = 400 * era + y;
    assert((n + 3) / 4 == 100 * era + (y + 3) / 4);
    assert((n + 99) / 100 == 4 * era + (y + 99) / 100);
    assert((n + 399) / 400 == era + (y + 399) / 400);
    assert(n % 4 == y % 4);
    assert(n % 100 == y % 100);
    assert(n % 400 == y % 400);
}

proof fn lemma_first_era(y: int)
    requires
        0 <= y <= 399,
    ensures
        days_before_year(y) + (if leap(y) {
            1int
        } else {
            0int
        }) - 1 == days_into_era(y),
        days_before_year(y + 1) == days_before_year(y) + 365 + (if leap(y) {
            1int
        } else {
            0int
        }),
        days_into_era(y + 1) - days_into_era(y) + (if y == 399 {
            1int
        } else {
            0int
        }) == 365 + (if leap(y + 1) {
            1int
        } else {
            0int
        }),
{
}

proof fn lemma_march_year(era: int, yoe: int)
    requires
        0 <= era,
        0 <= yoe <= 399,
    ensures
        ({
            let y = 400 * era + yoe;
            let leap_day = if leap(y) {
                1int
            } else {
                0int
            };
            let next_leap_day = if leap(y + 1) {
                1int
            } else {
                0int
            };
            &&& days_before_year(y) + 59 + leap_day - 60 == 146_097 * era + days_into_era(yoe)
            &&& days_before_year(y + 1) == days_before_year(y) + 365 + leap_day
            &&& days_into_era(yoe + 1) - days_into_era(yoe) + (if yoe == 399 {
                1int
            } else {
                0int
            }) == 365 + next_leap_day
        }),
{
    let y = 400 * era + yoe;
    lemma_eras_repeat(era, yoe);
    lemma_eras_repeat(era, yoe + 1);
    lemma_first_era(yoe);
}

/// The year, month and day `days` after the first of January 1970.
fn civil_from_days(days: u64) -> (r: (u64, u64, u64))
    requires
        days <= 0x1_0000_0000_0000,
    ensures
        is_date(days as int, r.0 as int, r.1 as int, r.2 as int),
{
    let z: u64 = days + 719_468;
    let era: u64 = z / 146_097;
    let doe: u64 = z % 146_097;
    let yoe: u64 = (doe - doe / 1_460 + doe / 36_524 - doe / 146_096) / 365;
    proof {
        lemma_year_of_era(doe as int);
        lemma_march_year(era as int, yoe as int);
        lemma_march_year(4, 370);
    }
    let y: u64 = yoe + era * 400;
    let doy: u64 = doe - (365 * yoe + yoe / 4 - yoe / 100);
    let mp: u64 = (5 * doy + 2) / 153;
    let d: u64 = doy - (153 * mp + 2) / 5 + 1;
    let m: u64 = if mp < 10 {
        mp + 3
    } else {
        mp - 9
    };
    let year: u64 = if m <= 2 {
        y + 1
    } else {
        y
    };
    proof {
        lemma_months(year as int, m as int);
        lemma_months(y as int, 3);
        assert(days_before_year(1970) == 719_528);
        assert(march_month(m as int) == mp);
        assert(doy == days_into_march_year(mp as int) + (d - 1));
    }
    (year, m, d)
}

/// The date and time `secs` seconds after the start of 1970: year, month, day, hour,
/// minute, second.
pub fn civil_from_unix(secs: u64) -> (r: (u64, u64, u64, u64, u64, u64))
    ensures
        is_moment(
            secs as nat,
            (MomentV {
                year: r.0 as nat,
                month: r.1 as nat,
                day: r.2 as nat,
                hour: r.3 as nat,
                minute: r.4 as nat,
                second: r.5 as nat,
            }),
        ),
{
    let rem: u64 = secs % 86_400;
    let (y, m, d) = civil_from_days(secs / 86_400);
    (y, m, d, rem / 3_600, (rem % 3_600) / 60, rem % 60)
}

/// No two dates fall on one day.
pub proof fn law_dates_are_unique(days: int, y: int, m: int, d: int, y2: int, m2: int, d2: int)
    requires
        0 <= y,
        0 <= y2,
        is_date(days, y, m, d),
        is_date(days, y2, m2, d2),
    ensures
        y == y2,
        m == m2,
        d == d2,
{
    lemma_within_year(y, m, d);
    lemma_within_year(y2, m2, d2);
    if y < y2 {
        lemma_years_grow(y + 1, y2);
    }
    if y2 < y {
        lemma_years_grow(y2 + 1, y);
    }
    if m < m2 {
        lemma_months_grow(y, m + 1, m2);
    }
    if m2 < m {
        lemma_months_grow(y, m2 + 1, m);
    }
}

proof fn lemma_year_length(y: int)
    requires
        0 <= y,
    ensures
        days_before_year(y + 1) == days_before_year(y) + 365 + (if leap(y) {
            1int
        } else {
            0int
        }),
{
    lemma_march_year(y / 400, y % 400);
    assert(400 * (y / 400) + y % 400 == y);
}

proof fn lemma_years_grow(a: int, b: int)
    requires
        0 <= a <= b,
    ensures
        days_before_year(a) <= days_before_year(b),
    decreases b - a,
{
    if a < b {
        lemma_years_grow(a, b - 1);
        lemma_year_length(b - 1);
    }
}

proof fn lemma_months_grow(y: int, a: int, b: int)
    requires
        1 <= a <= b,
    ensures
        days_before_month(y, a) <= days_before_month(y, b),
    decreases b - a,
{
    if a < b {
        lemma_months_grow(y, a, b - 1);
    }
}

proof fn lemma_within_year(y: int, m: int, d: int)
    requires
        0 <= y,
        1 <= m <= 12,
        1 <= d <= month_days(y, m),
    ensures
        0 <= days_before_month(y, m) + (d - 1) < days_before_year(y + 1) - days_before_year(y),
{
    reveal_with_fuel(days_before_month, 13);
    lemma_year_length(y);
}

/// A date and time as people read it.
pub open spec fn shown_moment(t: MomentV) -> Seq<char> {
    padded(t.year, 4) + "-"@ + padded(t.month, 2) + "-"@ + padded(t.day, 2) + " "@ + padded(
        t.hour,
        2,
    ) + ":"@ + padded(t.minute, 2) + ":"@ + padded(t.second, 2) + " UTC"@
}

/// A date and time as part of a file name.
pub open spec fn stamped_moment(t: MomentV) -> Seq<char> {
    padded(t.year, 4) + padded(t.month, 2) + padded(t.day, 2) + "-"@ + padded(t.hour, 2) + padded(
        t.minute,
        2,
    ) + padded(t.second, 2)
}

/// The date and time `secs` seconds after the start of 1970, as people read it.
pub fn format_utc(secs: u64) -> (r: String)
    ensures
        exists|t: MomentV| is_moment(secs as nat, t) && r@ == #[trigger] shown_moment(t),
{
    let (y, mo, d, h, mi, s) = civil_from_unix(secs);
    let ghost t = MomentV {
        year: y as nat,
        month: mo as nat,
        day: d as nat,
        hour: h as nat,
        minute: mi as nat,
        second: s as nat,
    };
    let r: String = Phrase::new(pad(y, 4).as_str()).add("-").add(pad(mo, 2).as_str()).add("-").add(
        pad(d, 2).as_str(),
    ).add(" ").add(pad(h, 2).as_str()).add(":").add(pad(mi, 2).as_str()).add(":").add(
        pad(s, 2).as_str(),
    ).add(" UTC").done();
    assert(r@ == shown_moment(t));
    r
}

/// The date and time `secs` seconds after the start of 1970, as part of a file name.
pub fn stamp_utc(secs: u64) -> (r: String)
    ensures
        exists|t: MomentV| is_moment(secs as nat, t) && r@ == #[trigger] stamped_moment(t),
{
    let (y, mo, d, h, mi, s) = civil_from_unix(secs);
    let ghost t = MomentV {
        year: y as nat,
        month: mo as nat,
        day: d as nat,
        hour: h as nat,
        minute: mi as nat,
        second: s as nat,
    };
    let r: String = Phrase::new(pad(y, 4).as_str()).add(pad(mo, 2).as_str()).add(
        pad(d, 2).as_str(),
    ).add("-").add(pad(h, 2).as_str()).add(pad(mi, 2).as_str()).add(pad(s, 2).as_str()).done();
    assert(r@ == stamped_moment(t));
    r
}

/// There is one date and time for each number of seconds.
pub proof fn law_moments_are_unique(secs: nat, t: MomentV, u: MomentV)
    requires
        is_moment(secs, t),
        is_moment(secs, u),
    ensures
        t == u,
{
    law_dates_are_unique(
        secs as int / 86_400,
        t.year as int,
        t.month as int,
        t.day as int,
        u.year as int,
        u.month as int,
        u.day as int,
    );
}

} // verus!
