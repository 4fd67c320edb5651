//! Epoch milliseconds to civil calendar fields in UTC. Years start on
//! 1 January 1970 and follow one another with 365 days, or 366 in a leap
//! year; leap years are exactly those divisible by four.

use vstd::prelude::*;
use vstd::arithmetic::div_mod::lemma_div_is_ordered;
use crate::decimal::{decimal_text, to_decimal};

verus! {

/// Whole days since the epoch at `millis`.
pub open spec fn epoch_days(millis: nat) -> nat {
    millis / 1000 / 86400
}

/// Seconds since midnight at `millis`.
pub open spec fn seconds_of_day(millis: nat) -> nat {
    millis / 1000 % 86400
}

/// Whether `year` counts as a leap year here: divisible by four.
pub open spec fn is_leap_year(year: nat) -> bool {
    year % 4 == 0
}

/// Days in `year`.
pub open spec fn year_length(year: nat) -> nat {
    if is_leap_year(year) { 366 } else { 365 }
}

/// Days from 1 January 1970 to 1 January of the year `k` years later.
pub open spec fn year_start(k: nat) -> nat
    decreases k,
{
    if k == 0 { 0 } else { year_start((k - 1) as nat) + year_length((1970 + k - 1) as nat) }
}

/// Whole years elapsed since 1970 after `days` days: the `k` whose year
/// holds that day.
pub open spec fn elapsed_years(days: nat) -> nat {
    choose|k: nat| #[trigger] year_start(k) <= days < year_start(k + 1)
}

/// Days in month `m` (1 to 12) of a year.
pub open spec fn month_length(leap: bool, m: int) -> nat {
    if m == 2 {
        if leap { 29 } else { 28 }
    } else if m == 4 || m == 6 || m == 9 || m == 11 {
        30
    } else {
        31
    }
}

/// Days from the start of a year to the end of its month `i + 1` (so month
/// index `i` is 0-based; zero for `i` below 0).
pub open spec fn month_end_spec(leap: bool, i: int) -> nat
    decreases i + 1,
{
    if i < 0 { 0 } else { month_end_spec(leap, i - 1) + month_length(leap, i + 1) }
}

/// The month (1-based) of 0-based index `i` or later whose end is first at
/// least `day`; the twelfth where none is.
pub open spec fn month_from(day: int, leap: bool, i: int) -> nat
    decreases 12 - i,
{
    if i >= 11 || day <= month_end_spec(leap, i) {
        (i + 1) as nat
    } else {
        month_from(day, leap, i + 1)
    }
}

/// Days in the year before `month` (1-based).
pub open spec fn days_before_month(leap: bool, month: nat) -> nat {
    month_end_spec(leap, month - 2)
}

/// The 1-based day of the year `days` days after the epoch.
pub open spec fn year_day(days: nat) -> nat {
    (days - year_start(elapsed_years(days)) + 1) as nat
}

/// The calendar year at `millis`.
pub open spec fn civil_year(millis: nat) -> nat {
    1970 + elapsed_years(epoch_days(millis))
}

/// Whether the year at `millis` is a leap year.
pub open spec fn civil_leap(millis: nat) -> bool {
    is_leap_year(civil_year(millis))
}

/// The month (1 to 12) at `millis`.
pub open spec fn civil_month(millis: nat) -> nat {
    month_from(year_day(epoch_days(millis)) as int, civil_leap(millis), 0)
}

/// The day of the month at `millis`.
pub open spec fn civil_day(millis: nat) -> nat {
    (year_day(epoch_days(millis)) - days_before_month(civil_leap(millis), civil_month(millis))) as nat
}

/// The hour at `millis`.
pub open spec fn civil_hour(millis: nat) -> nat {
    seconds_of_day(millis) / 3600
}

/// The minute at `millis`.
pub open spec fn civil_minute(millis: nat) -> nat {
    seconds_of_day(millis) % 3600 / 60
}

/// The second at `millis`.
pub open spec fn civil_second(millis: nat) -> nat {
    seconds_of_day(millis) % 60
}

/// Year starts in closed form: 365.25 days a year on average, the first
/// leap year being the third.
proof fn lemma_year_start_closed(k: nat)
    ensures
        year_start(k) == (1461 * k + 1) / 4,
    decreases k,
{
    if k > 0 {
        lemma_year_start_closed((k - 1) as nat);
    }
}

proof fn lemma_year_start_ordered(a: nat, b: nat)
    requires
        a <= b,
    ensures
        year_start(a) <= year_start(b),
{
    lemma_year_start_closed(a);
    lemma_year_start_closed(b);
    lemma_div_is_ordered((1461 * a + 1) as int, (1461 * b + 1) as int, 4);
}

/// The year of a day is the one computed from the average year length.
proof fn lemma_elapsed_years(days: nat)
    ensures
        elapsed_years(days) == (4 * days + 2) / 1461,
        year_start(elapsed_years(days)) <= days < year_start(elapsed_years(days) + 1),
        year_start(elapsed_years(days)) == (1461 * elapsed_years(days) + 1) / 4,
{
    let k = (4 * days + 2) / 1461;
    lemma_year_start_closed(k);
    lemma_year_start_closed(k + 1);
    assert(year_start(k) <= days < year_start(k + 1));
    let j = elapsed_years(days);
    assert(year_start(j) <= days < year_start(j + 1));
    if j < k {
        lemma_year_start_ordered(j + 1, k);
    } else if j > k {
        lemma_year_start_ordered(k + 1, j);
    }
}

/// The day of the year runs from 1 to the length of the year.
proof fn lemma_year_day_range(days: nat)
    ensures
        1 <= year_day(days) <= year_length(1970 + elapsed_years(days)),
{
    lemma_elapsed_years(days);
}

proof fn lemma_month_ends(leap: bool)
    ensures
        month_end_spec(leap, -1) == 0,
        month_end_spec(leap, 0) == 31,
        month_end_spec(leap, 1) == if leap { 60nat } else { 59 },
        month_end_spec(leap, 2) == if leap { 91nat } else { 90 },
        month_end_spec(leap, 3) == if leap { 121nat } else { 120 },
        month_end_spec(leap, 4) == if leap { 152nat } else { 151 },
        month_end_spec(leap, 5) == if leap { 182nat } else { 181 },
        month_end_spec(leap, 6) == if leap { 213nat } else { 212 },
        month_end_spec(leap, 7) == if leap { 244nat } else { 243 },
        month_end_spec(leap, 8) == if leap { 274nat } else { 273 },
        month_end_spec(leap, 9) == if leap { 305nat } else { 304 },
        month_end_spec(leap, 10) == if leap { 335nat } else { 334 },
        month_end_spec(leap, 11) == if leap { 366nat } else { 365 },
{
    reveal_with_fuel(month_end_spec, 13);
}

proof fn lemma_month_from_range(day: int, leap: bool, i: int)
    requires
        0 <= i <= 11,
    ensures
        i + 1 <= month_from(day, leap, i) <= 12,
        month_from(day, leap, i) == i + 1 || day > month_end_spec(leap, month_from(day, leap, i) - 2),
        month_from(day, leap, i) == 12 || day <= month_end_spec(leap, month_from(day, leap, i) - 1),
    decreases 12 - i,
{
    if !(i >= 11 || day <= month_end_spec(leap, i)) {
        lemma_month_from_range(day, leap, i + 1);
    }
}

/// At every instant the month lies in 1 to 12, the day in 1 to the length
/// of that month (so 1 to 31), the hour in 0 to 23, and the minute and
/// second in 0 to 59.
pub proof fn lemma_civil_fields_in_range(millis: nat)
    ensures
        1 <= civil_month(millis) <= 12,
        1 <= civil_day(millis) <= month_length(civil_leap(millis), civil_month(millis) as int),
        civil_day(millis) <= 31,
        civil_hour(millis) <= 23,
        civil_minute(millis) <= 59,
        civil_second(millis) <= 59,
{
    let d = epoch_days(millis);
    let leap = civil_leap(millis);
    let e = year_day(d);
    let m = civil_month(millis);
    lemma_year_day_range(d);
    lemma_month_ends(leap);
    lemma_month_from_range(e as int, leap, 0);
    assert(month_end_spec(leap, m - 1) == month_end_spec(leap, m - 2) + month_length(leap, m as int));
}

proof fn lemma_month_end_ordered(leap: bool, i: int, j: int)
    requires
        -1 <= i <= j,
    ensures
        month_end_spec(leap, i) <= month_end_spec(leap, j),
    decreases j - i,
{
    if i < j {
        lemma_month_end_ordered(leap, i, j - 1);
    }
}

proof fn lemma_month_from_exact(day: int, leap: bool, i: int, m: int)
    requires
        0 <= i <= m - 1,
        1 <= m <= 12,
        month_end_spec(leap, m - 2) < day <= month_end_spec(leap, m - 1),
    ensures
        month_from(day, leap, i) == m,
    decreases m - 1 - i,
{
    if i < m - 1 {
        lemma_month_end_ordered(leap, i, m - 2);
        lemma_month_from_exact(day, leap, i + 1, m);
    }
}

/// The calendar date (year, month, day) `days` days after the epoch.
pub open spec fn date_of_days(days: nat) -> (nat, nat, nat) {
    let year = 1970 + elapsed_years(days);
    let leap = is_leap_year(year);
    let month = month_from(year_day(days) as int, leap, 0);
    (year, month, (year_day(days) - days_before_month(leap, month)) as nat)
}

/// Each day is followed by the next date of the calendar: the next day of
/// the month, else the first of the next month, else 1 January of the next
/// year.
pub proof fn lemma_next_day(days: nat)
    ensures
        ({
            let (y, m, d) = date_of_days(days);
            date_of_days(days + 1) == if d < month_length(is_leap_year(y), m as int) {
                (y, m, d + 1)
            } else if m < 12 {
                (y, m + 1, 1nat)
            } else {
                (y + 1, 1nat, 1nat)
            }
        }),
{
    let (y, m, d) = date_of_days(days);
    let leap = is_leap_year(y);
    let e = year_day(days);
    lemma_elapsed_years(days);
    lemma_elapsed_years(days + 1);
    lemma_year_day_range(days);
    lemma_month_ends(leap);
    lemma_month_from_range(e as int, leap, 0);
    let k = elapsed_years(days);
    assert(month_end_spec(leap, m - 1) == month_end_spec(leap, m - 2) + month_length(leap, m as int));
    if d < month_length(leap, m as int) {
        assert(elapsed_years(days + 1) == k);
        assert(year_day(days + 1) == e + 1);
        lemma_month_from_exact(e + 1 as int, leap, 0, m as int);
    } else if m < 12 {
        assert(elapsed_years(days + 1) == k);
        assert(year_day(days + 1) == e + 1);
        assert(month_end_spec(leap, m as int) == month_end_spec(leap, m - 1) + month_length(leap, m + 1 as int));
        lemma_month_from_exact(e + 1 as int, leap, 0, m + 1 as int);
    } else {
        assert(e == year_length(y));
        assert(elapsed_years(days + 1) == k + 1);
        assert(year_day(days + 1) == 1);
        lemma_month_ends(is_leap_year(y + 1));
        lemma_month_from_exact(1, is_leap_year(y + 1), 0, 1);
    }
}

/// Calendar date and time in UTC, each field as decimal text without padding.
pub struct CivilDateTime {
    pub year: String,
    pub month: String,
    pub day: String,
    pub hour: String,
    pub min: String,
    pub sec: String,
}

/// Cumulative days at the end of each month of a year.
fn month_ends(leap: bool) -> (r: Vec<u64>)
    ensures
        r@.len() == 12,
        forall|i: int| 0 <= i < 12 ==> r@[i] == month_end_spec(leap, i),
{
    proof { lemma_month_ends(leap); }
    if leap {
        vec![31, 60, 91, 121, 152, 182, 213, 244, 274, 305, 335, 366]
    } else {
        vec![31, 59, 90, 120, 151, 181, 212, 243, 273, 304, 334, 365]
    }
}

/// The month (1-based) whose cumulative end is first at least `days`.
fn get_month(days: u64, leap: bool) -> (r: u64)
    ensures
        r == month_from(days as int, leap, 0),
        1 <= r <= 12,
{
    let months = month_ends(leap);
    let mut i: usize = 0;
    proof { lemma_month_from_range(days as int, leap, 0); }
    while i < 11 && days > months[i]
        invariant
            i <= 11,
            months@.len() == 12,
            forall|k: int| 0 <= k < 12 ==> months@[k] == month_end_spec(leap, k),
            month_from(days as int, leap, 0) == month_from(days as int, leap, i as int),
        decreases 11 - i,
    {
        i = i + 1;
    }
    (i + 1) as u64
}

/// The day of the month: the day of the year `days` less the days before
/// `month`.
fn get_date(days: u64, month: u64, leap: bool) -> (r: u64)
    requires
        1 <= month <= 12,
        days >= days_before_month(leap, month as nat),
    ensures
        r == days - days_before_month(leap, month as nat),
{
    proof { lemma_month_ends(leap); }
    let months = month_ends(leap);
    let breakpoint = if month >= 2 { months[(month - 2) as usize] } else { 0 };
    days - breakpoint
}

/// Year, month and day `days` days after the epoch.
fn from_num_days_unix(days: u64) -> (r: (u64, u64, u64))
    requires
        days <= u64::MAX / 86400,
    ensures
        r.0 == 1970 + elapsed_years(days as nat),
        r.1 == month_from(year_day(days as nat) as int, is_leap_year(r.0 as nat), 0),
        r.2 == year_day(days as nat) - days_before_month(is_leap_year(r.0 as nat), r.1 as nat),
{
    proof {
        lemma_elapsed_years(days as nat);
        lemma_year_day_range(days as nat);
    }
    let diff_year = (4 * days + 2) / 1461;
    let year = 1970 + diff_year;
    let day_of_year = days - (1461 * diff_year + 1) / 4 + 1;
    let leap = year % 4 == 0;
    let month = get_month(day_of_year, leap);
    proof {
        lemma_month_ends(leap);
        lemma_month_from_range(day_of_year as int, leap, 0);
    }
    let date = get_date(day_of_year, month, leap);
    (year, month, date)
}

/// Hour, minute and second of `tot_secs` seconds since midnight.
fn from_midnight(tot_secs: u64) -> (r: (u64, u64, u64))
    ensures
        r.0 == tot_secs / 3600,
        r.1 == tot_secs % 3600 / 60,
        r.2 == tot_secs % 60,
{
    let hour = tot_secs / 3600;
    let mins = (tot_secs - hour * 3600) / 60;
    let secs = tot_secs - (hour * 3600 + mins * 60);
    (hour, mins, secs)
}

/// Civil date and time `secs` seconds after the epoch.
fn from_timestamp(secs: u64) -> (r: CivilDateTime)
    ensures
        r.fields_of((secs * 1000) as nat),
{
    let days = secs / 86400;
    let day_secs = secs % 86400;
    assert(epoch_days((secs * 1000) as nat) == days && seconds_of_day((secs * 1000) as nat) == day_secs);
    let (year, month, day) = from_num_days_unix(days);
    let (hour, min, sec) = from_midnight(day_secs);
    CivilDateTime {
        year: to_decimal(year as u128),
        month: to_decimal(month as u128),
        day: to_decimal(day as u128),
        hour: to_decimal(hour as u128),
        min: to_decimal(min as u128),
        sec: to_decimal(sec as u128),
    }
}

/// Converts milliseconds since the Unix epoch into calendar year, month, day,
/// hour, minute and second in UTC; the sub-second part is dropped.
pub fn timestamp_millis_to_datetime(millis: u64) -> (r: CivilDateTime)
    ensures
        r.fields_of(millis as nat),
{
    let secs = millis / 1000;
    assert(epoch_days((secs * 1000) as nat) == epoch_days(millis as nat));
    assert(seconds_of_day((secs * 1000) as nat) == seconds_of_day(millis as nat));
    from_timestamp(secs)
}

/// Whether two texts hold the same characters.
fn text_eq(a: &str, b: &str) -> (r: bool)
    ensures
        r == (a@ == b@),
{
    let n = a.unicode_len();
    if n != b.unicode_len() {
        return false;
    }
    let mut i: usize = 0;
    while i < n
        invariant
            n == a@.len() == b@.len(),
            i <= n,
            forall|k: int| 0 <= k < i ==> a@[k] == b@[k],
        decreases n - i,
    {
        if a.get_char(i) != b.get_char(i) {
            return false;
        }
        i = i + 1;
    }
    assert(a@ =~= b@);
    true
}

impl CivilDateTime {
    /// Whether the fields are the decimal texts of the calendar fields at
    /// `millis`.
    pub open spec fn fields_of(&self, millis: nat) -> bool {
        &&& self.year@ == decimal_text(civil_year(millis))
        &&& self.month@ == decimal_text(civil_month(millis))
        &&& self.day@ == decimal_text(civil_day(millis))
        &&& self.hour@ == decimal_text(civil_hour(millis))
        &&& self.min@ == decimal_text(civil_minute(millis))
        &&& self.sec@ == decimal_text(civil_second(millis))
    }

    /// The field named `key`: "year", "month", "day", "hour", "min" or "sec".
    pub fn get(&self, key: &str) -> (r: Option<String>)
        ensures
            key@ == "year"@ ==> r is Some && r->0@ == self.year@,
            key@ == "month"@ ==> r is Some && r->0@ == self.month@,
            key@ == "day"@ ==> r is Some && r->0@ == self.day@,
            key@ == "hour"@ ==> r is Some && r->0@ == self.hour@,
            key@ == "min"@ ==> r is Some && r->0@ == self.min@,
            key@ == "sec"@ ==> r is Some && r->0@ == self.sec@,
            r is None <==> !(key@ == "year"@ || key@ == "month"@ || key@ == "day"@
                || key@ == "hour"@ || key@ == "min"@ || key@ == "sec"@),
    {
        proof {
            reveal_strlit("year");
            reveal_strlit("month");
            reveal_strlit("day");
            reveal_strlit("hour");
            reveal_strlit("min");
            reveal_strlit("sec");
            assert("year"@.len() == 4 && "hour"@.len() == 4 && "month"@.len() == 5);
            assert("day"@.len() == 3 && "min"@.len() == 3 && "sec"@.len() == 3);
            assert("year"@[0] == 'y' && "hour"@[0] == 'h');
            assert("day"@[0] == 'd' && "min"@[0] == 'm' && "sec"@[0] == 's');
        }
        if text_eq(key, "year") {
            Some(self.year.clone())
        } else if text_eq(key, "month") {
            Some(self.month.clone())
        } else if text_eq(key, "day") {
            Some(self.day.clone())
        } else if text_eq(key, "hour") {
            Some(self.hour.clone())
        } else if text_eq(key, "min") {
            Some(self.min.clone())
        } else if text_eq(key, "sec") {
            Some(self.sec.clone())
        } else {
            None
        }
    }
}

} // verus!
