//! Calendar dates of the proleptic Gregorian calendar, their ISO text, and
//! the few calendar computations that are left to chrono.

use vstd::prelude::*;
use chrono::Datelike;
use crate::text::{
    all_digits, dec_padded, digit_value, digits_value, is_digit, lemma_dec_padded, push_dec_padded,
};

verus! {

/// First year that chrono's `NaiveDate` can hold.
pub const MIN_YEAR: i32 = -262143;

/// Last year that chrono's `NaiveDate` can hold.
pub const MAX_YEAR: i32 = 262142;

/// A calendar date without a time of day.
#[derive(Clone, Copy, Debug, PartialEq, Eq, Structural)]
pub struct Date {
    pub year: i32,
    pub month: u32,
    pub day: u32,
}

/// Day of the week, Monday first.
#[derive(Clone, Copy, Debug, PartialEq, Eq, Structural)]
pub enum Weekday {
    Mon,
    Tue,
    Wed,
    Thu,
    Fri,
    Sat,
    Sun,
}

impl Weekday {
    pub open spec fn index(self) -> int {
        match self {
            Weekday::Mon => 0,
            Weekday::Tue => 1,
            Weekday::Wed => 2,
            Weekday::Thu => 3,
            Weekday::Fri => 4,
            Weekday::Sat => 5,
            Weekday::Sun => 6,
        }
    }

    /// Days from Monday: Monday is 0 and Sunday 6.
    pub fn num_days_from_monday(&self) -> (r: u32)
        ensures
            r == self.index(),
    {
        match self {
            Weekday::Mon => 0,
            Weekday::Tue => 1,
            Weekday::Wed => 2,
            Weekday::Thu => 3,
            Weekday::Fri => 4,
            Weekday::Sat => 5,
            Weekday::Sun => 6,
        }
    }
}

pub open spec fn is_leap(y: int) -> bool {
    (y % 4 == 0 && y % 100 != 0) || y % 400 == 0
}

pub open spec fn days_in_month(y: int, m: int) -> int {
    if m == 2 {
        if is_leap(y) {
            29
        } else {
            28
        }
    } else if m == 4 || m == 6 || m == 9 || m == 11 {
        30
    } else {
        31
    }
}

/// Days of the year `y` before the first of month `m`.
pub open spec fn days_before_month(y: int, m: int) -> int
    decreases m,
{
    if m <= 1 {
        0
    } else {
        days_before_month(y, m - 1) + days_in_month(y, m - 1)
    }
}

/// Days before January 1 of year `y`, counted from January 1 of year 1.
pub open spec fn days_before_year(y: int) -> int {
    let p = y - 1;
    365 * p + p / 4 - p / 100 + p / 400
}

/// Weekday index (Monday 0) of a day number; day 1, January 1 of year 1,
/// was a Monday.
pub open spec fn weekday_of(n: int) -> int {
    (n + 6) % 7
}

/// Day number of the first date chrono can hold.
pub open spec fn first_day() -> int {
    days_before_year(MIN_YEAR as int) + 1
}

/// Day number of the last date chrono can hold.
pub open spec fn last_day() -> int {
    days_before_year(MAX_YEAR as int + 1)
}

impl Date {
    pub open spec fn valid(self) -> bool {
        &&& MIN_YEAR <= self.year <= MAX_YEAR
        &&& 1 <= self.month <= 12
        &&& 1 <= self.day <= days_in_month(self.year as int, self.month as int)
    }

    /// Days since the calendar's start: January 1 of year 1 is day 1.
    pub open spec fn day_number(self) -> int {
        days_before_year(self.year as int) + days_before_month(self.year as int, self.month as int)
            + self.day
    }

    /// Builds a date from its parts, or `None` when they name no day.
    pub fn from_ymd(year: i32, month: u32, day: u32) -> (r: Option<Date>)
        ensures
            r is Some <==> (Date { year, month, day }).valid(),
            r is Some ==> r->0 == (Date { year, month, day }),
    {
        if MIN_YEAR <= year && year <= MAX_YEAR && 1 <= month && month <= 12 && 1 <= day && day
            <= month_length(year, month) {
            Some(Date { year, month, day })
        } else {
            None
        }
    }
}

pub fn is_leap_year(y: i32) -> (r: bool)
    ensures
        r == is_leap(y as int),
{
    // Shifted by a multiple of 400 years to a non-negative year.
    let z: i64 = y as i64 + 2_147_484_000;
    proof {
        let k: int = 5_368_710;
        assert(z == y + 400 * k);
        vstd::arithmetic::div_mod::lemma_mod_multiples_vanish(100 * k, y as int, 4);
        vstd::arithmetic::div_mod::lemma_mod_multiples_vanish(4 * k, y as int, 100);
        vstd::arithmetic::div_mod::lemma_mod_multiples_vanish(k, y as int, 400);
        assert(4 * (100 * k) + y == z);
        assert(100 * (4 * k) + y == z);
        assert(400 * k + y == z);
    }
    (z % 4 == 0 && z % 100 != 0) || z % 400 == 0
}

/// Number of days in a month of a year.
pub fn month_length(y: i32, m: u32) -> (r: u32)
    ensures
        r == days_in_month(y as int, m as int),
        28 <= r <= 31,
{
    if m == 2 {
        if is_leap_year(y) {
            29
        } else {
            28
        }
    } else if m == 4 || m == 6 || m == 9 || m == 11 {
        30
    } else {
        31
    }
}

proof fn lemma_div_step(y: int, k: int)
    requires
        k > 0,
    ensures
        y / k - (y - 1) / k == (if y % k == 0 {
            1int
        } else {
            0int
        }),
{
    let q0 = y / k;
    let r0 = y % k;
    let q1 = (y - 1) / k;
    let r1 = (y - 1) % k;
    vstd::arithmetic::div_mod::lemma_fundamental_div_mod(y, k);
    vstd::arithmetic::div_mod::lemma_fundamental_div_mod(y - 1, k);
    assert(0 <= r0 < k && 0 <= r1 < k);
    assert(k * (q0 - q1) == 1 + r1 - r0) by (nonlinear_arith)
        requires y == k * q0 + r0, y - 1 == k * q1 + r1;
    if q0 - q1 >= 2 {
        assert(k * (q0 - q1) >= 2 * k) by (nonlinear_arith)
            requires q0 - q1 >= 2, k > 0;
    } else if q0 - q1 <= -1 {
        assert(k * (q0 - q1) <= -k) by (nonlinear_arith)
            requires q0 - q1 <= -1, k > 0;
    }
    if q0 - q1 == 1 {
        assert(r0 == 0);
    } else {
        assert(q0 - q1 == 0);
        if r0 == 0 {
            assert(k * 0 == 0);
        }
    }
}

proof fn lemma_divides(y: int)
    ensures
        y % 400 == 0 ==> y % 100 == 0,
        y % 100 == 0 ==> y % 4 == 0,
{
    vstd::arithmetic::div_mod::lemma_fundamental_div_mod(y, 400);
    vstd::arithmetic::div_mod::lemma_fundamental_div_mod(y, 100);
    if y % 400 == 0 {
        let q = y / 400;
        assert(y == 100 * (4 * q)) by (nonlinear_arith)
            requires y == 400 * q;
        vstd::arithmetic::div_mod::lemma_mod_multiples_basic(4 * q, 100);
    }
    if y % 100 == 0 {
        let q = y / 100;
        assert(y == 4 * (25 * q)) by (nonlinear_arith)
            requires y == 100 * q;
        vstd::arithmetic::div_mod::lemma_mod_multiples_basic(25 * q, 4);
    }
}

/// A year has 366 days when it is a leap year, else 365.
pub proof fn lemma_year_length(y: int)
    ensures
        days_before_year(y + 1) - days_before_year(y) == (if is_leap(y) {
            366int
        } else {
            365int
        }),
        days_before_month(y, 13) == (if is_leap(y) {
            366int
        } else {
            365int
        }),
{
    lemma_div_step(y, 4);
    lemma_div_step(y, 100);
    lemma_div_step(y, 400);
    lemma_divides(y);
    reveal_with_fuel(days_before_month, 13);
}

proof fn lemma_months_nonneg(y: int, m: int)
    ensures
        days_before_month(y, m) >= 0,
    decreases m,
{
    if m > 1 {
        lemma_months_nonneg(y, m - 1);
    }
}

proof fn lemma_months_grow(y: int, m1: int, m2: int)
    requires
        1 <= m1 < m2,
    ensures
        days_before_month(y, m1) + days_in_month(y, m1) <= days_before_month(y, m2),
    decreases m2,
{
    if m2 > m1 + 1 {
        lemma_months_grow(y, m1, m2 - 1);
    }
}

proof fn lemma_years_grow(y1: int, y2: int)
    requires
        y1 < y2,
    ensures
        days_before_year(y1) + days_before_month(y1, 13) <= days_before_year(y2),
    decreases y2 - y1,
{
    lemma_year_length(y1);
    if y2 > y1 + 1 {
        lemma_years_grow(y1 + 1, y2);
        lemma_year_length(y1 + 1);
    }
}

/// Days of a date's month before it, with the date itself, fit within
/// the month.
proof fn lemma_within_year(d: Date)
    requires
        d.valid(),
    ensures
        days_before_month(d.year as int, d.month as int) + d.day <= days_before_month(
            d.year as int,
            13,
        ),
{
    if d.month < 12 {
        lemma_months_grow(d.year as int, d.month as int, 13);
    }
}

/// A date whose (year, month) comes first has the smaller day number.
pub proof fn lemma_day_number_order(a: Date, b: Date)
    requires
        a.valid(),
        b.valid(),
        a.year < b.year || (a.year == b.year && a.month < b.month),
    ensures
        a.day_number() < b.day_number(),
{
    lemma_months_nonneg(b.year as int, b.month as int);
    if a.year < b.year {
        lemma_within_year(a);
        lemma_years_grow(a.year as int, b.year as int);
    } else {
        lemma_months_grow(a.year as int, a.month as int, b.month as int);
    }
}

/// Two valid dates with the same day number are the same date.
pub proof fn lemma_day_number_unique(a: Date, b: Date)
    requires
        a.valid(),
        b.valid(),
        a.day_number() == b.day_number(),
    ensures
        a == b,
{
    if a.year < b.year || (a.year == b.year && a.month < b.month) {
        lemma_day_number_order(a, b);
    } else if b.year < a.year || (a.year == b.year && b.month < a.month) {
        lemma_day_number_order(b, a);
    }
}

/// Every valid date lies within the range that chrono can hold.
pub proof fn lemma_valid_in_range(d: Date)
    requires
        d.valid(),
    ensures
        first_day() <= d.day_number() <= last_day(),
{
    lemma_within_year(d);
    lemma_months_nonneg(d.year as int, d.month as int);
    lemma_year_length(d.year as int);
    lemma_years_grow(d.year as int, MAX_YEAR as int + 1);
    if d.year > MIN_YEAR {
        lemma_years_grow(MIN_YEAR as int, d.year as int);
        lemma_year_length(MIN_YEAR as int);
    }
}

/// Relies on chrono's `NaiveDate::checked_add_signed` with
/// `TimeDelta::try_days`: the date `n` days after `d`, or `None` when that
/// date falls outside the range chrono holds.
#[verifier::external_body]
pub(crate) fn add_days(d: Date, n: i64) -> (r: Option<Date>)
    requires
        d.valid(),
    ensures
        r is Some ==> r->0.valid() && r->0.day_number() == d.day_number() + n,
        r is Some <==> first_day() <= d.day_number() + n <= last_day(),
{
    let nd = chrono::NaiveDate::from_ymd_opt(d.year, d.month, d.day)?;
    let r = nd.checked_add_signed(chrono::TimeDelta::try_days(n)?)?;
    Some(Date { year: r.year(), month: r.month(), day: r.day() })
}

/// Relies on chrono's `Datelike::weekday` and
/// `Weekday::num_days_from_monday`: the weekday of a date, Monday 0.
#[verifier::external_body]
pub(crate) fn weekday_index(d: Date) -> (r: u32)
    requires
        d.valid(),
    ensures
        r == weekday_of(d.day_number()),
{
    chrono::NaiveDate::from_ymd_opt(d.year, d.month, d.day).unwrap().weekday().num_days_from_monday()
}

/// Relies on chrono's `Local::now` and `DateTime::date_naive`: today's date
/// in the local time zone.
#[verifier::external_body]
pub(crate) fn today() -> (r: Date)
    ensures
        r.valid(),
{
    let t = chrono::Local::now().date_naive();
    Date { year: t.year(), month: t.month(), day: t.day() }
}

/// Relies on chrono's `Local::now` and `DateTime::timestamp`: the current
/// Unix time in seconds.
#[verifier::external_body]
pub(crate) fn now_timestamp() -> (r: i64) {
    chrono::Local::now().timestamp()
}

// ISO text of dates: `YYYY-MM-DD`.
/// The year as written in a date: four digits for years 0 to 9999, else
/// a sign and at least four digits.
pub open spec fn year_text(y: int) -> Seq<char> {
    if 0 <= y <= 9999 {
        dec_padded(y as nat, 4)
    } else if y > 9999 {
        seq!['+'] + dec_padded(y as nat, 4)
    } else {
        seq!['-'] + dec_padded((-y) as nat, 4)
    }
}

pub open spec fn iso_text(d: Date) -> Seq<char> {
    year_text(d.year as int) + seq!['-'] + dec_padded(d.month as nat, 2) + seq!['-']
        + dec_padded(d.day as nat, 2)
}

/// `s` starts with ten characters of the shape `dddd-dd-dd`.
pub open spec fn is_date_shape(s: Seq<char>) -> bool {
    &&& s.len() >= 10
    &&& is_digit(s[0]) && is_digit(s[1]) && is_digit(s[2]) && is_digit(s[3])
    &&& s[4] == '-'
    &&& is_digit(s[5]) && is_digit(s[6])
    &&& s[7] == '-'
    &&& is_digit(s[8]) && is_digit(s[9])
}

/// The date written by the first ten characters of a date-shaped text,
/// when they name a day.
pub open spec fn date_of_shape(s: Seq<char>) -> Option<Date> {
    let y = digits_value(s.subrange(0, 4));
    let m = digits_value(s.subrange(5, 7));
    let d = digits_value(s.subrange(8, 10));
    let date = Date { year: y as i32, month: m as u32, day: d as u32 };
    if date.valid() {
        Some(date)
    } else {
        None
    }
}

pub proof fn lemma_small_values(s: Seq<char>)
    requires
        is_date_shape(s),
    ensures
        0 <= digits_value(s.subrange(0, 4)) <= 9999,
        0 <= digits_value(s.subrange(5, 7)) <= 99,
        0 <= digits_value(s.subrange(8, 10)) <= 99,
{
    let a = s.subrange(0, 4);
    assert(a.drop_last().drop_last().drop_last().drop_last() =~= Seq::<char>::empty());
    let b = s.subrange(5, 7);
    assert(b.drop_last().drop_last() =~= Seq::<char>::empty());
    let c = s.subrange(8, 10);
    assert(c.drop_last().drop_last() =~= Seq::<char>::empty());
    reveal_with_fuel(digits_value, 5);
}

fn digit_at(s: &Vec<char>, i: usize) -> (r: u32)
    requires
        i < s@.len(),
        is_digit(s@[i as int]),
    ensures
        r == digit_value(s@[i as int]),
        r <= 9,
{
    s[i] as u32 - '0' as u32
}

/// Reads the date-shaped text at `start`, when there is one: `None` when
/// the text there has another shape, `Some(None)` when it has the shape
/// but names no day.
pub fn read_date(s: &Vec<char>, start: usize) -> (r: Option<Option<Date>>)
    requires
        start <= s@.len(),
    ensures
        r is Some <==> is_date_shape(s@.skip(start as int)),
        r is Some ==> r->0 == date_of_shape(s@.skip(start as int)),
{
    let ghost t = s@.skip(start as int);
    if s.len() - start < 10 {
        return None;
    }
    let ok = '0' <= s[start] && s[start] <= '9' && '0' <= s[start + 1] && s[start + 1] <= '9'
        && '0' <= s[start + 2] && s[start + 2] <= '9' && '0' <= s[start + 3] && s[start + 3] <= '9'
        && s[start + 4] == '-' && '0' <= s[start + 5] && s[start + 5] <= '9' && '0' <= s[start
        + 6] && s[start + 6] <= '9' && s[start + 7] == '-' && '0' <= s[start + 8] && s[start + 8]
        <= '9' && '0' <= s[start + 9] && s[start + 9] <= '9';
    proof {
        assert forall|i: int| 0 <= i < 10 implies t[i] == s@[start + i] by {}
    }
    if !ok {
        return None;
    }
    let y = digit_at(s, start) * 1000 + digit_at(s, start + 1) * 100 + digit_at(s, start + 2) * 10
        + digit_at(s, start + 3);
    let m = digit_at(s, start + 5) * 10 + digit_at(s, start + 6);
    let d = digit_at(s, start + 8) * 10 + digit_at(s, start + 9);
    proof {
        let a = t.subrange(0, 4);
        assert(a.drop_last().drop_last().drop_last().drop_last() =~= Seq::<char>::empty());
        assert(a.drop_last().drop_last().drop_last() =~= seq![t[0]]);
        assert(a.drop_last().drop_last() =~= seq![t[0], t[1]]);
        assert(a.drop_last() =~= seq![t[0], t[1], t[2]]);
        reveal_with_fuel(digits_value, 5);
        assert(y == digits_value(a));
        let b = t.subrange(5, 7);
        assert(b.drop_last() =~= seq![t[5]]);
        assert(b.drop_last().drop_last() =~= Seq::<char>::empty());
        assert(m == digits_value(b));
        let c = t.subrange(8, 10);
        assert(c.drop_last() =~= seq![t[8]]);
        assert(c.drop_last().drop_last() =~= Seq::<char>::empty());
        assert(d == digits_value(c));
    }
    Some(Date::from_ymd(y as i32, m, d))
}

/// Appends the ISO text of a date.
pub fn push_iso(out: &mut Vec<char>, d: Date)
    ensures
        final(out)@ == old(out)@ + iso_text(d),
{
    let ghost start = out@;
    if d.year < 0 {
        out.push('-');
        push_dec_padded(out, (-(d.year as i64)) as u64, 4);
    } else {
        if d.year > 9999 {
            out.push('+');
        }
        push_dec_padded(out, d.year as u64, 4);
    }
    assert(out@ =~= start + year_text(d.year as int));
    out.push('-');
    push_dec_padded(out, d.month as u64, 2);
    out.push('-');
    push_dec_padded(out, d.day as u64, 2);
    assert(out@ =~= start + iso_text(d));
}

impl Date {
    /// The date as `YYYY-MM-DD`.
    pub fn to_iso_string(&self) -> (r: String)
        ensures
            r@ == iso_text(*self),
    {
        let mut out: Vec<char> = Vec::new();
        push_iso(&mut out, *self);
        assert(out@ =~= iso_text(*self));
        crate::text::string_of(&out)
    }
}

/// The ISO text of a date whose year has four digits reads back as the
/// same date.
pub proof fn lemma_iso_round_trip(d: Date, rest: Seq<char>)
    requires
        d.valid(),
        0 <= d.year <= 9999,
    ensures
        is_date_shape(iso_text(d) + rest),
        date_of_shape(iso_text(d) + rest) == Some(d),
        iso_text(d).len() == 10,
{
    let s = iso_text(d) + rest;
    let y = dec_padded(d.year as nat, 4);
    let m = dec_padded(d.month as nat, 2);
    let dd = dec_padded(d.day as nat, 2);
    lemma_dec_padded(d.year as nat, 4);
    lemma_dec_padded(d.month as nat, 2);
    lemma_dec_padded(d.day as nat, 2);
    crate::text::lemma_dec_len_bound(d.month as nat);
    crate::text::lemma_dec_len_bound(d.day as nat);
    assert(m.len() == 2);
    assert(dd.len() == 2);
    assert(s =~= y + seq!['-'] + m + seq!['-'] + dd + rest);
    assert(s.subrange(0, 4) =~= y);
    assert(s.subrange(5, 7) =~= m);
    assert(s.subrange(8, 10) =~= dd);
    assert(is_digit(y[0]) && is_digit(y[1]) && is_digit(y[2]) && is_digit(y[3]));
    assert(is_digit(m[0]) && is_digit(m[1]) && is_digit(dd[0]) && is_digit(dd[1]));
    assert(s[0] == y[0] && s[1] == y[1] && s[2] == y[2] && s[3] == y[3] && s[4] == '-');
    assert(s[5] == m[0] && s[6] == m[1] && s[7] == '-' && s[8] == dd[0] && s[9] == dd[1]);
}

} // verus!
