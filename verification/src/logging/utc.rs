//! Civil UTC date-times from Unix time.

use vstd::prelude::*;

use crate::number;
use crate::text;

verus! {

/// A civil UTC date-time.
#[derive(Clone, Copy, PartialEq, Eq, Structural, Debug)]
pub struct Utc {
    pub year: u64,
    pub month: u64,
    pub day: u64,
    pub hour: u64,
    pub minute: u64,
    pub second: u64,
}

/// A year of the Gregorian calendar with a leap day.
pub open spec fn leap(year: int) -> bool {
    year % 4 == 0 && (year % 100 != 0 || year % 400 == 0)
}

pub open spec fn year_days(year: int) -> int {
    if leap(year) {
        366
    } else {
        365
    }
}

pub open spec fn month_days(year: int, month: int) -> int {
    if month == 2 {
        if leap(year) {
            29
        } else {
            28
        }
    } else if month == 4 || month == 6 || month == 9 || month == 11 {
        30
    } else {
        31
    }
}

/// The days from the first of January 1970 to that of `year`.
pub open spec fn days_to_year(year: int) -> int
    decreases year,
{
    if year <= 1970 {
        0
    } else {
        days_to_year(year - 1) + year_days(year - 1)
    }
}

/// The days of `year` in front of `month`.
pub open spec fn days_to_month(year: int, month: int) -> int
    decreases month,
{
    if month <= 1 {
        0
    } else {
        days_to_month(year, month - 1) + month_days(year, month - 1)
    }
}

impl Utc {
    /// The date and the time exist, and not before 1970.
    pub open spec fn valid(self) -> bool {
        &&& 1970 <= self.year
        &&& 1 <= self.month <= 12
        &&& 1 <= self.day <= month_days(self.year as int, self.month as int)
        &&& self.hour < 24
        &&& self.minute < 60
        &&& self.second < 60
    }

    /// The days from the first of January 1970 to the date.
    pub open spec fn days(self) -> int {
        days_to_year(self.year as int) + days_to_month(self.year as int, self.month as int) + (
        self.day - 1)
    }

    /// The seconds from the start of 1970 to the date and time, without leap seconds.
    pub open spec fn unix(self) -> int {
        86400 * self.days() + 3600 * self.hour + 60 * self.minute + self.second
    }
}

/// The leap days in the years 1 to `n`.
spec fn leaps(n: int) -> int {
    n / 4 - n / 100 + n / 400
}

proof fn lemma_leap_step(n: int)
    requires
        n >= 1,
    ensures
        leaps(n) == leaps(n - 1) + if leap(n) {
            1int
        } else {
            0int
        },
{
    assert(n / 4 == (n - 1) / 4 + if n % 4 == 0 {
        1int
    } else {
        0int
    });
    assert(n / 100 == (n - 1) / 100 + if n % 100 == 0 {
        1int
    } else {
        0int
    });
    assert(n / 400 == (n - 1) / 400 + if n % 400 == 0 {
        1int
    } else {
        0int
    });
}

proof fn lemma_days_to_year(year: int)
    requires
        year >= 1970,
    ensures
        days_to_year(year) == 365 * (year - 1970) + leaps(year - 1) - 477,
    decreases year,
{
    if year > 1970 {
        lemma_days_to_year(year - 1);
        lemma_leap_step(year - 1);
    }
}

/// In a four-year run of which the last year has the leap day, the year of day `f`.
proof fn lemma_cycle_year(f: int, g: int, j: int)
    requires
        0 <= f <= 1460,
        g == f || (g == f - 1 && f >= 1364),
        f == 1460 ==> g == f - 1,
        j == g / 365,
    ensures
        0 <= j <= 3,
        365 * j <= f,
        f < 365 * (j + 1) + if j == 3 {
            1int
        } else {
            0int
        },
{
}

/// Which year of a 400-year era, counted from the first of March, holds the day `doe`, and that
/// the division finds it.
proof fn lemma_year_of_era(doe: int, yoe: int)
    requires
        0 <= doe <= 146096,
        yoe == (doe - doe / 1460 + doe / 36524 - doe / 146096) / 365,
    ensures
        0 <= yoe <= 399,
        365 * yoe + yoe / 4 - yoe / 100 <= doe,
        doe < 365 * (yoe + 1) + (yoe + 1) / 4 - (yoe + 1) / 100 + (yoe + 1) / 400,
{
    if doe == 146096 {
        assert(yoe == 399);
    } else {
        let c: int = doe / 36524;
        let e: int = doe % 36524;
        assert(doe == 36524 * c + e && 0 <= e <= 36523 && 0 <= c <= 3);
        let k: int = e / 1461;
        let f: int = e % 1461;
        assert(e == 1461 * k + f && 0 <= f <= 1460 && 0 <= k <= 24);
        assert(k == 24 ==> f <= 1459);
        let over: int = (24 * c + k + f) / 1460;
        assert(0 <= over <= 1);
        assert(doe / 1460 == 25 * c + k + over);
        let g: int = f - over;
        assert(doe - doe / 1460 + doe / 36524 == 365 * (100 * c + 4 * k) + g);
        let j: int = g / 365;
        lemma_cycle_year(f, g, j);
        assert(yoe == 100 * c + 4 * k + j);
        assert(yoe / 100 == c);
        assert(yoe / 4 == 25 * c + k);
        if j == 3 {
            assert((yoe + 1) / 4 == 25 * c + k + 1);
            if k == 24 {
                assert((yoe + 1) / 100 == c + 1);
            } else {
                assert((yoe + 1) / 100 == c);
            }
        } else {
            assert((yoe + 1) / 4 == 25 * c + k);
            assert((yoe + 1) / 100 == c);
        }
    }
}

/// The month and day of the day `doy` of a year that begins on the first of March.
proof fn lemma_month_of_year(doy: int, year: int, mp: int, day: int)
    requires
        0 <= doy <= 365,
        doy == 365 ==> leap(year + 1),
        mp == (5 * doy + 2) / 153,
        day == doy - (153 * mp + 2) / 5 + 1,
    ensures
        0 <= mp <= 11,
        ({
            let month: int = if mp < 10 { mp + 3 } else { mp - 9 };
            let civil: int = if mp < 10 { year } else { year + 1 };
            &&& 1 <= day <= month_days(civil, month)
            &&& mp < 10 ==> days_to_month(civil, month) + (day - 1) == doy + 59 + if leap(civil) {
                1int
            } else {
                0int
            }
            &&& mp >= 10 ==> days_to_month(civil, month) + (day - 1) == doy - 306
        }),
{
    reveal_with_fuel(days_to_month, 13);
}

/// A 400-year era has 97 leap days.
proof fn lemma_leaps_of_era(era: int, yoe: int)
    requires
        0 <= era,
        0 <= yoe <= 400,
    ensures
        leaps(400 * era + yoe) == 97 * era + yoe / 4 - yoe / 100 + yoe / 400,
{
    let n: int = 400 * era + yoe;
    assert(n / 4 == 100 * era + yoe / 4);
    assert(n / 100 == 4 * era + yoe / 100);
    assert(n / 400 == era + yoe / 400);
}

/// The year that begins on the first of March and holds the day `z`, counted from 0000-03-01, and
/// its day.
proof fn lemma_march_year(z: int, era: int, doe: int, yoe: int, doy: int)
    requires
        z >= 719468,
        era == z / 146097,
        doe == z - era * 146097,
        yoe == (doe - doe / 1460 + doe / 36524 - doe / 146096) / 365,
        doy == doe - (365 * yoe + yoe / 4 - yoe / 100),
    ensures
        0 <= yoe <= 399,
        0 <= doy <= 365,
        365 * yoe + yoe / 4 - yoe / 100 <= doe,
        ({
            let march: int = 400 * era + yoe;
            &&& doy == 365 ==> leap(march + 1)
            &&& z == 365 * march + leaps(march) + doy
            &&& march >= 1969
            &&& march == 1969 ==> doy >= 306
        }),
{
    lemma_year_of_era(doe, yoe);
    let march: int = 400 * era + yoe;
    lemma_leaps_of_era(era, yoe);
    lemma_leaps_of_era(era, yoe + 1);
    lemma_leap_step(march + 1);
    assert(z == 365 * march + leaps(march) + doy);
    assert(leaps(march) <= march / 4);
}

/// The civil date of the day `z`.
proof fn lemma_civil_date(z: int, march: int, doy: int, mp: int, day: int)
    requires
        0 <= doy <= 365,
        doy == 365 ==> leap(march + 1),
        z == 365 * march + leaps(march) + doy,
        march >= 1969,
        march == 1969 ==> doy >= 306,
        mp == (5 * doy + 2) / 153,
        day == doy - (153 * mp + 2) / 5 + 1,
    ensures
        0 <= mp <= 11,
        (153 * mp + 2) / 5 <= doy,
        ({
            let month: int = if mp < 10 { mp + 3 } else { mp - 9 };
            let civil: int = if mp < 10 { march } else { march + 1 };
            &&& civil >= 1970
            &&& 1 <= day <= month_days(civil, month)
            &&& days_to_year(civil) + days_to_month(civil, month) + (day - 1) == z - 719468
        }),
{
    lemma_month_of_year(doy, march, mp, day);
    if mp < 10 {
        lemma_leap_step(march);
        lemma_days_to_year(march);
    } else {
        lemma_days_to_year(march + 1);
    }
}

/// A day's seconds as hours, minutes and seconds.
proof fn lemma_time_of_day(secs: int)
    requires
        secs >= 0,
    ensures
        secs == 86400 * (secs / 86400) + 3600 * (secs % 86400 / 3600) + 60 * (secs % 3600 / 60)
            + secs % 60,
        secs % 86400 / 3600 < 24,
        secs % 3600 / 60 < 60,
{
    let d: int = secs / 86400;
    let r: int = secs % 86400;
    let h: int = r / 3600;
    let q: int = r % 3600;
    assert(secs % 3600 == q) by {
        assert(secs == 3600 * (24 * d + h) + q);
    }
    let m: int = q / 60;
    let s: int = q % 60;
    assert(secs % 60 == s) by {
        assert(secs == 60 * (60 * (24 * d + h) + m) + s);
    }
}

impl Utc {
    /// The date and time `secs` seconds after the start of 1970.
    pub fn from_unix(secs: u64) -> (r: Self)
        ensures
            r.valid(),
            r.unix() == secs,
    {
        let hour: u64 = secs % 86_400 / 3_600;
        let minute: u64 = secs % 3_600 / 60;
        let second: u64 = secs % 60;

        // Epoch shifted to 0000-03-01 so a 400-year era ends on a leap day.
        let z: u64 = secs / 86_400 + 719_468;
        let era: u64 = z / 146_097;
        let doe: u64 = z - era * 146_097;
        let ghost year_of_era: int = (doe - doe / 1460 + doe / 36524 - doe / 146096) / 365;
        proof {
            lemma_march_year(
                z as int,
                era as int,
                doe as int,
                year_of_era,
                doe - (365 * year_of_era + year_of_era / 4 - year_of_era / 100),
            );
        }
        let yoe: u64 = (doe - doe / 1_460 + doe / 36_524 - doe / 146_096) / 365;
        let doy: u64 = doe - (365 * yoe + yoe / 4 - yoe / 100);
        let mp: u64 = (5 * doy + 2) / 153;
        proof {
            lemma_civil_date(
                z as int,
                400 * era + yoe,
                doy as int,
                mp as int,
                doy - (153 * mp + 2) / 5 + 1,
            );
            lemma_time_of_day(secs as int);
        }
        let day: u64 = doy - (153 * mp + 2) / 5 + 1;
        let month: u64 = if mp < 10 {
            mp + 3
        } else {
            mp - 9
        };
        let year: u64 = era * 400 + yoe + if month <= 2 {
            1
        } else {
            0
        };
        Utc { year, month, day, hour, minute, second }
    }
}

/// `n` in decimal, with zeros in front up to `width` digits.
pub open spec fn padded(n: nat, width: nat) -> Seq<char> {
    let digits = number::decimal(n);
    if digits.len() >= width {
        digits
    } else {
        Seq::new((width - digits.len()) as nat, |i: int| '0') + digits
    }
}

/// Append `n` in decimal, with zeros in front up to `width` digits.
fn push_padded(out: &mut Vec<char>, n: u64, width: usize)
    ensures
        final(out)@ == old(out)@ + padded(n as nat, width as nat),
{
    let mut digits: Vec<char> = Vec::new();
    number::push_written(&mut digits, n, 10);
    assert(digits@ =~= number::decimal(n as nat));
    let mut i: usize = digits.len();
    while i < width
        invariant
            digits@.len() <= i,
            i <= width || i == digits@.len(),
            out@ == old(out)@ + Seq::new((i - digits@.len()) as nat, |i: int| '0'),
        decreases width - i,
    {
        out.push('0');
        i += 1;
    }
    out.append(&mut digits);
    assert(out@ =~= old(out)@ + padded(n as nat, width as nat));
}

impl Utc {
    /// The date and time in ISO 8601.
    pub open spec fn text(self) -> Seq<char> {
        padded(self.year as nat, 4) + seq!['-'] + padded(self.month as nat, 2) + seq!['-'] + padded(
            self.day as nat,
            2,
        ) + seq!['T'] + padded(self.hour as nat, 2) + seq![':'] + padded(self.minute as nat, 2)
            + seq![':'] + padded(self.second as nat, 2) + seq!['Z']
    }

    /// The date and time in ISO 8601.
    pub fn to_text(&self) -> (r: String)
        ensures
            r@ == self.text(),
    {
        let mut out: Vec<char> = Vec::new();
        push_padded(&mut out, self.year, 4);
        out.push('-');
        push_padded(&mut out, self.month, 2);
        out.push('-');
        push_padded(&mut out, self.day, 2);
        out.push('T');
        push_padded(&mut out, self.hour, 2);
        out.push(':');
        push_padded(&mut out, self.minute, 2);
        out.push(':');
        push_padded(&mut out, self.second, 2);
        out.push('Z');
        assert(out@ =~= self.text());
        text::string(&out)
    }

    /// The date and time of a clock that is `since_epoch` seconds past the start of 1970; a clock
    /// set before it reads as the start.
    pub fn now(since_epoch: Option<u64>) -> (r: Self)
        ensures
            r.valid(),
            r.unix() == match since_epoch {
                Some(secs) => secs as int,
                None => 0,
            },
    {
        match since_epoch {
            Some(secs) => Self::from_unix(secs),
            None => Self::from_unix(0),
        }
    }
}

proof fn lemma_years_ascend(a: int, b: int)
    requires
        1970 <= a < b,
    ensures
        days_to_year(a) + year_days(a) <= days_to_year(b),
    decreases b,
{
    if a + 1 < b {
        lemma_years_ascend(a, b - 1);
    }
}

proof fn lemma_months_ascend(year: int, a: int, b: int)
    requires
        1 <= a < b <= 13,
    ensures
        days_to_month(year, a) + month_days(year, a) <= days_to_month(year, b),
        days_to_month(year, 13) == year_days(year),
    decreases b,
{
    if a + 1 < b {
        lemma_months_ascend(year, a, b - 1);
    }
    reveal_with_fuel(days_to_month, 14);
}

proof fn lemma_day_of_year(x: Utc)
    requires
        x.valid(),
    ensures
        days_to_year(x.year as int) <= x.days() < days_to_year(x.year as int) + year_days(
            x.year as int,
        ),
{
    lemma_months_ascend(x.year as int, x.month as int, 13);
    if x.month > 1 {
        lemma_months_ascend(x.year as int, 1, x.month as int);
    }
}

/// A date and time is the only one of its second.
pub proof fn law_each_second_has_one_date(x: Utc, y: Utc)
    requires
        x.valid(),
        y.valid(),
        x.unix() == y.unix(),
    ensures
        x == y,
{
    lemma_day_of_year(x);
    lemma_day_of_year(y);
    assert(x.days() == y.days());
    if x.year < y.year {
        lemma_years_ascend(x.year as int, y.year as int);
    } else if y.year < x.year {
        lemma_years_ascend(y.year as int, x.year as int);
    } else if x.month < y.month {
        lemma_months_ascend(x.year as int, x.month as int, y.month as int);
    } else if y.month < x.month {
        lemma_months_ascend(x.year as int, y.month as int, x.month as int);
    }
}

/// The calendar: every fourth year is a leap year, but for those of a full century that four hundred
/// does not divide; February has a day more in one; and time starts with 1970.
pub proof fn law_the_calendar(year: int)
    ensures
        leap(4 * year) <==> (4 * year) % 100 != 0 || (4 * year) % 400 == 0,
        !leap(4 * year + 1) && !leap(4 * year + 2) && !leap(4 * year + 3),
        month_days(year, 2) == (if leap(year) {
            29int
        } else {
            28
        }),
        month_days(year, 1) == 31 && month_days(year, 3) == 31 && month_days(year, 4) == 30
            && month_days(year, 5) == 31 && month_days(year, 6) == 30 && month_days(year, 7) == 31
            && month_days(year, 8) == 31 && month_days(year, 9) == 30 && month_days(year, 10) == 31
            && month_days(year, 11) == 30 && month_days(year, 12) == 31,
        days_to_month(year, 13) == year_days(year),
        days_to_year(1970) == 0,
        year >= 1970 ==> days_to_year(year + 1) - days_to_year(year) == (if leap(year) {
            366int
        } else {
            365
        }),
{
    reveal_with_fuel(days_to_month, 14);
}

/// A day has 86400 seconds, an hour 3600 and a minute 60.
pub proof fn law_the_seconds_of_a_day(x: Utc, y: Utc)
    requires
        x.year == y.year && x.month == y.month,
    ensures
        x.unix() - y.unix() == 86400 * (x.day - y.day) + 3600 * (x.hour - y.hour) + 60 * (x.minute
            - y.minute) + (x.second - y.second),
{
}

} // verus!
