//! Calendar dates in the proleptic Gregorian calendar, with day-number
//! arithmetic and weekday computation.
//!
//! A date is a plain `(year, month, day)` triple; its mathematical model is
//! the day number `day_number`, counting days from the first of January of
//! year 1 (day 0). Weekdays are day numbers modulo 7; the first of January
//! of year 1 is a Monday, so 0 stands for Monday through 6 for Sunday.

use vstd::prelude::*;

use crate::text::{digit_char, four_digit_chars, four_digit_string, two_digit_chars,
    two_digit_string};

verus! {

/// A calendar date. Valid dates (see [`Date::valid`]) range from year 1 to
/// year 9999.
#[derive(Clone, Copy, PartialEq, Eq, Structural, Debug)]
pub struct Date {
    pub year: u32,
    pub month: u32,
    pub day: u32,
}

pub const MONDAY: u32 = 0;
pub const TUESDAY: u32 = 1;
pub const WEDNESDAY: u32 = 2;
pub const THURSDAY: u32 = 3;
pub const FRIDAY: u32 = 4;
pub const SATURDAY: u32 = 5;
pub const SUNDAY: u32 = 6;

pub open spec fn is_leap_year(y: int) -> bool {
    (y % 4 == 0 && y % 100 != 0) || y % 400 == 0
}

pub open spec fn spec_days_in_month(y: int, m: int) -> int {
    if m == 2 {
        if is_leap_year(y) {
            29
        } else {
            28
        }
    } else if m == 4 || m == 6 || m == 9 || m == 11 {
        30
    } else {
        31
    }
}

/// Number of days in all years before year `y`, that is, from the first of
/// January of year 1 up to (excluding) the first of January of year `y`.
pub open spec fn days_before_year(y: int) -> int
    decreases y,
{
    if y <= 1 {
        0
    } else {
        days_before_year(y - 1) + if is_leap_year(y - 1) {
            366int
        } else {
            365int
        }
    }
}

/// Number of days in the months of year `y` before month `m`.
pub open spec fn days_before_month(y: int, m: int) -> int
    decreases m,
{
    if m <= 1 {
        0
    } else {
        days_before_month(y, m - 1) + spec_days_in_month(y, m - 1)
    }
}

/// The mathematical model of a date: days since the first of January of
/// year 1, which is day 0 (and a Monday).
pub open spec fn day_number(d: Date) -> int {
    days_before_year(d.year as int) + days_before_month(d.year as int, d.month as int) + d.day - 1
}

/// Weekday of a date, counted from Monday: 0 is Monday, 6 is Sunday.
pub open spec fn weekday(d: Date) -> int {
    day_number(d) % 7
}

/// The largest date this representation holds.
pub open spec fn last_representable() -> Date {
    Date { year: 9999, month: 12, day: 31 }
}

/// Day number of the largest representable date: the upper bound for all
/// day-number arithmetic.
pub open spec fn max_day_number() -> int {
    day_number(last_representable())
}

/// `a` is on or before `b` in calendar order.
pub open spec fn date_le(a: Date, b: Date) -> bool {
    day_number(a) <= day_number(b)
}

proof fn lemma_days_before_year_bound(y: int)
    requires
        1 <= y,
    ensures
        365 * (y - 1) <= days_before_year(y) <= 366 * (y - 1),
    decreases y,
{
    if y > 1 {
        lemma_days_before_year_bound(y - 1);
    }
}

proof fn lemma_days_before_month_bound(y: int, m: int)
    requires
        1 <= m <= 13,
    ensures
        28 * (m - 1) <= days_before_month(y, m) <= 31 * (m - 1),
    decreases m,
{
    if m > 1 {
        lemma_days_before_month_bound(y, m - 1);
    }
}

/// Every valid date's day number fits comfortably in a `u32`.
pub proof fn lemma_day_number_bounds(d: Date)
    requires
        d.valid(),
    ensures
        0 <= day_number(d) <= max_day_number() < 4000000,
{
    lemma_days_before_year_bound(d.year as int);
    lemma_days_before_month_bound(d.year as int, d.month as int);
    lemma_days_before_year_bound(9999);
    lemma_days_before_month_bound(9999, 12);
    lemma_day_number_monotonic_fields(d);
}

/// No valid date's day number exceeds the last representable date's.
proof fn lemma_day_number_monotonic_fields(d: Date)
    requires
        d.valid(),
    ensures
        day_number(d) <= max_day_number(),
{
    lemma_days_before_month_bound(d.year as int, d.month as int);
    lemma_days_before_month_bound(9999, 12);
    if d.year < 9999 {
        lemma_days_before_year_ge_gap(d.year as int, 9999);
    }
}

/// Between two years, each intervening year contributes at least 365 days.
proof fn lemma_days_before_year_ge_gap(a: int, b: int)
    requires
        1 <= a <= b,
    ensures
        days_before_year(b) - days_before_year(a) >= 365 * (b - a),
    decreases b - a,
{
    if a < b {
        lemma_days_before_year_ge_gap(a, b - 1);
    }
}

proof fn lemma_days_before_year_monotonic(a: int, b: int)
    requires
        1 <= a <= b,
    ensures
        days_before_year(a) <= days_before_year(b),
    decreases b - a,
{
    if a < b {
        lemma_days_before_year_monotonic(a, b - 1);
    }
}

proof fn lemma_days_before_month_monotonic(y: int, m1: int, m2: int)
    requires
        1 <= m1 <= m2 <= 13,
    ensures
        days_before_month(y, m1) <= days_before_month(y, m2),
    decreases m2 - m1,
{
    if m1 < m2 {
        lemma_days_before_month_monotonic(y, m1, m2 - 1);
    }
}

/// A valid date's offset within its year lies below the year's length.
proof fn lemma_offset_within_year(d: Date)
    requires
        d.valid(),
    ensures
        0 <= days_before_month(d.year as int, d.month as int) + d.day - 1 < if is_leap_year(
            d.year as int,
        ) {
            366int
        } else {
            365int
        },
{
    let y = d.year as int;
    let m = d.month as int;
    lemma_days_before_month_bound(y, m);
    lemma_days_before_month_monotonic(y, m + 1, 13);
    lemma_days_in_year(y);
    assert(days_before_month(y, 13) == days_before_month(y, 12) + spec_days_in_month(y, 12));
    assert(days_before_month(y, m + 1) == days_before_month(y, m) + spec_days_in_month(y, m));
}

/// Two valid dates with the same day number are the same date.
pub proof fn lemma_day_number_injective(a: Date, b: Date)
    requires
        a.valid(),
        b.valid(),
        day_number(a) == day_number(b),
    ensures
        a == b,
{
    lemma_offset_within_year(a);
    lemma_offset_within_year(b);
    if a.year != b.year {
        let (lo, hi) = if a.year < b.year {
            (a, b)
        } else {
            (b, a)
        };
        lemma_days_before_year_monotonic(lo.year as int + 1, hi.year as int);
        assert(days_before_year(lo.year as int + 1) == days_before_year(lo.year as int)
            + if is_leap_year(lo.year as int) {
            366int
        } else {
            365int
        });
        assert(day_number(hi) > day_number(lo));
        assert(false);
    }
    if a.month != b.month {
        let (lo, hi) = if a.month < b.month {
            (a, b)
        } else {
            (b, a)
        };
        let y = a.year as int;
        lemma_days_before_month_monotonic(y, lo.month as int + 1, hi.month as int);
        assert(days_before_month(y, lo.month as int + 1) == days_before_month(y, lo.month as int)
            + spec_days_in_month(y, lo.month as int));
        assert(day_number(hi) > day_number(lo));
        assert(false);
    }
    assert(a.day == b.day);
}

/// Days until the next working day strictly after `end`: across a weekend
/// to the following Monday, otherwise one day.
pub open spec fn return_gap(end: Date) -> int {
    if weekday(end) >= FRIDAY as int {
        7 - weekday(end)
    } else {
        1
    }
}

/// The first working day strictly after `end`: the unique valid date whose
/// day number is `day_number(end) + return_gap(end)`.
pub open spec fn spec_return_date(end: Date) -> Date {
    choose|r: Date| r.valid() && day_number(r) == day_number(end) + return_gap(end)
}

/// Law: a return date is never a Saturday or a Sunday. A period ending on a
/// Friday, Saturday or Sunday returns on the following Monday; any other
/// period returns the next calendar day, which is a working day.
pub proof fn lemma_return_date_not_weekend(end: Date, r: Date)
    requires
        end.valid(),
        r.valid(),
        day_number(r) == day_number(end) + return_gap(end),
    ensures
        weekday(r) != SATURDAY as int,
        weekday(r) != SUNDAY as int,
        weekday(end) >= FRIDAY as int ==> weekday(r) == MONDAY as int,
        weekday(end) < FRIDAY as int ==> weekday(r) == weekday(end) + 1,
{
    let n = day_number(end);
    let w = weekday(end);
    lemma_day_number_bounds(end);
    vstd::arithmetic::div_mod::lemma_fundamental_div_mod(n, 7);
    let q = n / 7;
    if w >= FRIDAY as int {
        vstd::arithmetic::div_mod::lemma_fundamental_div_mod_converse(n + 7 - w, 7, q + 1, 0);
    } else {
        vstd::arithmetic::div_mod::lemma_fundamental_div_mod_converse(n + 1, 7, q, w + 1);
    }
}

/// The months of year `y` together hold 366 days in a leap year and 365
/// otherwise.
proof fn lemma_days_in_year(y: int)
    ensures
        days_before_month(y, 12) + spec_days_in_month(y, 12) == if is_leap_year(y) {
            366int
        } else {
            365int
        },
{
    reveal_with_fuel(days_before_month, 13);
}

/// `c` is a decimal digit.
pub open spec fn is_digit_char(c: char) -> bool {
    '0' as int <= c as int && c as int <= '9' as int
}

pub open spec fn digit_value(c: char) -> int {
    c as int - '0' as int
}

/// The text has the shape `YYYY-MM-DD`: ten characters, dashes after the
/// year and the month, eight digits.
pub open spec fn date_text_well_formed(s: Seq<char>) -> bool {
    &&& s.len() == 10
    &&& is_digit_char(s[0]) && is_digit_char(s[1]) && is_digit_char(s[2]) && is_digit_char(s[3])
    &&& s[4] == '-'
    &&& is_digit_char(s[5]) && is_digit_char(s[6])
    &&& s[7] == '-'
    &&& is_digit_char(s[8]) && is_digit_char(s[9])
}

/// The date a well-formed `YYYY-MM-DD` text names.
pub open spec fn parsed_date(s: Seq<char>) -> Date {
    Date {
        year: (digit_value(s[0]) * 1000 + digit_value(s[1]) * 100 + digit_value(s[2]) * 10
            + digit_value(s[3])) as u32,
        month: (digit_value(s[5]) * 10 + digit_value(s[6])) as u32,
        day: (digit_value(s[8]) * 10 + digit_value(s[9])) as u32,
    }
}

fn digit_of(c: char) -> (r: Option<u32>)
    ensures
        match r {
            Some(v) => is_digit_char(c) && v == digit_value(c) && v <= 9,
            None => !is_digit_char(c),
        },
{
    let u = c as u32;
    if 48 <= u && u <= 57 {
        Some(u - 48)
    } else {
        None
    }
}

/// Parses a reference date written `YYYY-MM-DD`. Returns the date exactly
/// when the text has that shape and names a real calendar date.
pub fn parse_date(s: &str) -> (r: Option<Date>)
    ensures
        match r {
            Some(d) => date_text_well_formed(s@) && d == parsed_date(s@) && d.valid(),
            None => !date_text_well_formed(s@) || !parsed_date(s@).valid(),
        },
{
    let n = s.unicode_len();
    if n != 10 {
        return None;
    }
    if !(s.get_char(4) == '-') || !(s.get_char(7) == '-') {
        return None;
    }
    let d0 = match digit_of(s.get_char(0)) {
        Some(v) => v,
        None => {
            return None;
        },
    };
    let d1 = match digit_of(s.get_char(1)) {
        Some(v) => v,
        None => {
            return None;
        },
    };
    let d2 = match digit_of(s.get_char(2)) {
        Some(v) => v,
        None => {
            return None;
        },
    };
    let d3 = match digit_of(s.get_char(3)) {
        Some(v) => v,
        None => {
            return None;
        },
    };
    let d5 = match digit_of(s.get_char(5)) {
        Some(v) => v,
        None => {
            return None;
        },
    };
    let d6 = match digit_of(s.get_char(6)) {
        Some(v) => v,
        None => {
            return None;
        },
    };
    let d8 = match digit_of(s.get_char(8)) {
        Some(v) => v,
        None => {
            return None;
        },
    };
    let d9 = match digit_of(s.get_char(9)) {
        Some(v) => v,
        None => {
            return None;
        },
    };
    let date = Date {
        year: d0 * 1000 + d1 * 100 + d2 * 10 + d3,
        month: d5 * 10 + d6,
        day: d8 * 10 + d9,
    };
    if date.check_valid() {
        Some(date)
    } else {
        None
    }
}

/// A valid date written `YYYY-MM-DD`, zero padded.
pub open spec fn iso_chars(d: Date) -> Seq<char> {
    four_digit_chars(d.year as int) + "-"@ + two_digit_chars(d.month as int) + "-"@
        + two_digit_chars(d.day as int)
}

/// A digit character carries its digit.
proof fn lemma_digit_char_value(v: int)
    requires
        0 <= v <= 9,
    ensures
        is_digit_char(digit_char(v)),
        digit_value(digit_char(v)) == v,
{
}

/// A number below ten thousand is its four digits reassembled.
proof fn lemma_four_digit_breakdown(y: int)
    requires
        0 <= y <= 9999,
    ensures
        y == (y / 1000) * 1000 + ((y / 100) % 10) * 100 + ((y / 10) % 10) * 10 + y % 10,
        0 <= y / 1000 <= 9,
        0 <= (y / 100) % 10 <= 9,
        0 <= (y / 10) % 10 <= 9,
        0 <= y % 10 <= 9,
{
    vstd::arithmetic::div_mod::lemma_fundamental_div_mod(y, 10);
    vstd::arithmetic::div_mod::lemma_fundamental_div_mod(y / 10, 10);
    vstd::arithmetic::div_mod::lemma_fundamental_div_mod(y / 100, 10);
    vstd::arithmetic::div_mod::lemma_div_denominator(y, 10, 10);
    vstd::arithmetic::div_mod::lemma_div_denominator(y, 100, 10);
}

/// Law: a valid date prints to a well-formed `YYYY-MM-DD` text, and parsing
/// that text back yields the same date.
pub proof fn lemma_iso_round_trip(d: Date)
    requires
        d.valid(),
    ensures
        date_text_well_formed(iso_chars(d)),
        parsed_date(iso_chars(d)) == d,
{
    reveal_strlit("-");
    let y = d.year as int;
    let m = d.month as int;
    let dd = d.day as int;
    lemma_four_digit_breakdown(y);
    vstd::arithmetic::div_mod::lemma_fundamental_div_mod(m, 10);
    vstd::arithmetic::div_mod::lemma_fundamental_div_mod(dd, 10);
    lemma_digit_char_value(y / 1000);
    lemma_digit_char_value((y / 100) % 10);
    lemma_digit_char_value((y / 10) % 10);
    lemma_digit_char_value(y % 10);
    lemma_digit_char_value(m / 10);
    lemma_digit_char_value(m % 10);
    lemma_digit_char_value(dd / 10);
    lemma_digit_char_value(dd % 10);
    let s = iso_chars(d);
    assert(s.len() == 10);
    assert(s[0] == digit_char(y / 1000));
    assert(s[1] == digit_char((y / 100) % 10));
    assert(s[2] == digit_char((y / 10) % 10));
    assert(s[3] == digit_char(y % 10));
    assert(s[4] == '-');
    assert(s[5] == digit_char(m / 10));
    assert(s[6] == digit_char(m % 10));
    assert(s[7] == '-');
    assert(s[8] == digit_char(dd / 10));
    assert(s[9] == digit_char(dd % 10));
    assert(parsed_date(s).year == d.year);
    assert(parsed_date(s).month == d.month);
    assert(parsed_date(s).day == d.day);
}

impl Date {
    /// Well-formedness: the month exists and the day exists in that month,
    /// within the representable range of years.
    pub open spec fn valid(self) -> bool {
        &&& 1 <= self.year <= 9999
        &&& 1 <= self.month <= 12
        &&& 1 <= self.day <= spec_days_in_month(self.year as int, self.month as int)
    }

    /// Number of days in the given month of the given year.
    pub fn days_in_month(year: u32, month: u32) -> (r: u32)
        requires
            1 <= month <= 12,
        ensures
            r == spec_days_in_month(year as int, month as int),
            28 <= r <= 31,
    {
        if month == 2 {
            if (year % 4 == 0 && year % 100 != 0) || year % 400 == 0 {
                29
            } else {
                28
            }
        } else if month == 4 || month == 6 || month == 9 || month == 11 {
            30
        } else {
            31
        }
    }

    /// The day number of this date: days since the first of January of
    /// year 1.
    pub fn day_number(&self) -> (r: u32)
        requires
            self.valid(),
        ensures
            r == day_number(*self),
    {
        proof {
            lemma_day_number_bounds(*self);
        }
        let mut acc: u32 = 0;
        let mut y: u32 = 1;
        while y < self.year
            invariant
                1 <= y <= self.year,
                self.valid(),
                acc == days_before_year(y as int),
            decreases self.year - y,
        {
            proof {
                lemma_days_before_year_bound(y as int);
                lemma_days_before_year_bound((y + 1) as int);
            }
            if (y % 4 == 0 && y % 100 != 0) || y % 400 == 0 {
                acc = acc + 366;
            } else {
                acc = acc + 365;
            }
            y = y + 1;
        }
        let mut m: u32 = 1;
        while m < self.month
            invariant
                1 <= m <= self.month,
                self.valid(),
                acc == days_before_year(self.year as int) + days_before_month(
                    self.year as int,
                    m as int,
                ),
            decreases self.month - m,
        {
            proof {
                lemma_days_before_year_bound(self.year as int);
                lemma_days_before_month_bound(self.year as int, m as int);
            }
            acc = acc + Date::days_in_month(self.year, m);
            m = m + 1;
        }
        acc + self.day - 1
    }

    /// Weekday counted from Monday: 0 is Monday, 6 is Sunday.
    pub fn weekday_from_monday(&self) -> (r: u32)
        requires
            self.valid(),
        ensures
            r == weekday(*self),
            r < 7,
    {
        self.day_number() % 7
    }

    /// The calendar day immediately after this one.
    pub fn next_day(&self) -> (r: Date)
        requires
            self.valid(),
            *self != last_representable(),
        ensures
            r.valid(),
            day_number(r) == day_number(*self) + 1,
    {
        if self.day < Date::days_in_month(self.year, self.month) {
            Date { year: self.year, month: self.month, day: self.day + 1 }
        } else if self.month < 12 {
            Date { year: self.year, month: self.month + 1, day: 1 }
        } else {
            proof {
                lemma_days_in_year(self.year as int);
                if self.year == 9999 {
                    assert(*self == last_representable());
                }
            }
            Date { year: self.year + 1, month: 1, day: 1 }
        }
    }

    /// This date moved `n` days forward.
    pub fn add_days(&self, n: u32) -> (r: Date)
        requires
            self.valid(),
            day_number(*self) + n <= max_day_number(),
        ensures
            r.valid(),
            day_number(r) == day_number(*self) + n,
    {
        let mut cur: Date = *self;
        let mut i: u32 = 0;
        while i < n
            invariant
                i <= n,
                cur.valid(),
                day_number(cur) == day_number(*self) + i,
                day_number(*self) + n <= max_day_number(),
            decreases n - i,
        {
            proof {
                if cur == last_representable() {
                    assert(day_number(cur) == max_day_number());
                }
            }
            cur = cur.next_day();
            i = i + 1;
        }
        cur
    }

    /// This date moved `n` days forward, or `None` when that would leave the
    /// representable range.
    pub fn checked_add_days(&self, n: u32) -> (r: Option<Date>)
        requires
            self.valid(),
        ensures
            match r {
                Some(d) => day_number(*self) + n <= max_day_number() && d.valid() && day_number(d)
                    == day_number(*self) + n,
                None => day_number(*self) + n > max_day_number(),
            },
    {
        let last = Date { year: 9999, month: 12, day: 31 };
        proof {
            assert(last == last_representable());
            lemma_day_number_bounds(*self);
        }
        let maxd = last.day_number();
        let here = self.day_number();
        if (here as u64) + (n as u64) <= (maxd as u64) {
            Some(self.add_days(n))
        } else {
            None
        }
    }

    /// The date written `YYYY-MM-DD`, zero padded.
    pub fn iso_string(&self) -> (r: String)
        requires
            self.valid(),
        ensures
            r@ == iso_chars(*self),
    {
        let mut s = four_digit_string(self.year);
        s.append("-");
        let m2 = two_digit_string(self.month);
        s.append(m2.as_str());
        s.append("-");
        let d2 = two_digit_string(self.day);
        s.append(d2.as_str());
        proof {
            assert(s@ =~= iso_chars(*self));
        }
        s
    }

    /// Whether this triple is a well-formed calendar date.
    pub fn check_valid(&self) -> (r: bool)
        ensures
            r == self.valid(),
    {
        1 <= self.year && self.year <= 9999 && 1 <= self.month && self.month <= 12 && 1
            <= self.day && self.day <= Date::days_in_month(self.year, self.month)
    }

    /// `self` is on or before `other` in calendar order.
    pub fn on_or_before(&self, other: &Date) -> (r: bool)
        requires
            self.valid(),
            other.valid(),
        ensures
            r == date_le(*self, *other),
    {
        self.day_number() <= other.day_number()
    }
}

} // verus!
