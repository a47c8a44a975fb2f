//! Repeat schedules: the next date of a pattern such as `2w`, and the next
//! date that falls on a weekday.

use vstd::prelude::*;
use crate::date::{
    add_days, days_in_month, first_day, last_day, lemma_day_number_order,
    lemma_day_number_unique, month_length, today, weekday_index, weekday_of, Date, Weekday,
    MAX_YEAR, MIN_YEAR,
};
use crate::text::{all_digits, chars_of, digit_value, digits_value, is_digit};

verus! {

/// The frequency and unit of a repeat pattern `<digits><d|w|m|y>`, when
/// the text has that form and the frequency is positive and fits in a `u32`.
pub open spec fn repeat_of(p: Seq<char>) -> Option<(int, char)> {
    if p.len() >= 2 && all_digits(p.drop_last()) && (p.last() == 'd' || p.last() == 'w'
        || p.last() == 'm' || p.last() == 'y') && 1 <= digits_value(p.drop_last()) <= u32::MAX {
        Some((digits_value(p.drop_last()), p.last()))
    } else {
        None
    }
}

/// The valid date with day number `n`.
pub open spec fn date_at(n: int) -> Date {
    choose|r: Date| r.valid() && r.day_number() == n
}

/// The date `n` days after `d`, when the calendar holds it.
pub open spec fn days_later(d: Date, n: int) -> Option<Date> {
    if first_day() <= d.day_number() + n <= last_day() {
        Some(date_at(d.day_number() + n))
    } else {
        None
    }
}

/// `day`, or the last day of the month when the month is shorter.
pub open spec fn clamp_day(y: int, m: int, day: int) -> int {
    if day <= days_in_month(y, m) {
        day
    } else {
        days_in_month(y, m)
    }
}

/// The date on day `day` of a month, clamped to the month's length, when
/// the calendar holds the year.
pub open spec fn on_month(y: int, m: int, day: int) -> Option<Date> {
    if MIN_YEAR <= y <= MAX_YEAR {
        Some(Date { year: y as i32, month: m as u32, day: clamp_day(y, m, day) as u32 })
    } else {
        None
    }
}

/// The date `n` months after `d`, on the same day of the month or the
/// month's last day.
pub open spec fn months_later(d: Date, n: int) -> Option<Date> {
    let t = d.month - 1 + n;
    on_month(d.year + t / 12, t % 12 + 1, d.day as int)
}

/// The date `n` years after `d`, on the same month and day or the month's
/// last day.
pub open spec fn years_later(d: Date, n: int) -> Option<Date> {
    on_month(d.year + n, d.month as int, d.day as int)
}

/// The next date of the pattern `p` after `d`.
pub open spec fn next_occurrence(p: Seq<char>, d: Date) -> Option<Date> {
    match repeat_of(p) {
        None => None,
        Some((n, u)) => if u == 'd' {
            days_later(d, n)
        } else if u == 'w' {
            days_later(d, 7 * n)
        } else if u == 'm' {
            months_later(d, n)
        } else {
            years_later(d, n)
        },
    }
}

/// Adds days through chrono and names the result.
fn shift_days(d: Date, n: i64) -> (r: Option<Date>)
    requires
        d.valid(),
    ensures
        r == days_later(d, n as int),
        r is Some ==> r->0.valid() && r->0.day_number() == d.day_number() + n,
{
    let r = add_days(d, n);
    proof {
        if r is Some {
            lemma_day_number_unique(r->0, date_at(d.day_number() + n));
        }
    }
    r
}

/// The date `months` months after `ref_d`, stepping the month and wrapping
/// the year, on the same day of the month or the last day of a shorter
/// month; `None` past the calendar's last year.
pub fn compute_month(ref_d: Date, months: u32) -> (r: Option<Date>)
    requires
        ref_d.valid(),
    ensures
        r == months_later(ref_d, months as int),
        r is Some ==> r->0.valid(),
{
    let t: i64 = ref_d.month as i64 - 1 + months as i64;
    let year: i64 = ref_d.year as i64 + t / 12;
    let month: u32 = (t % 12 + 1) as u32;
    if year < MIN_YEAR as i64 || year > MAX_YEAR as i64 {
        return None;
    }
    let len = month_length(year as i32, month);
    let day = if ref_d.day <= len {
        ref_d.day
    } else {
        len
    };
    Some(Date { year: year as i32, month, day })
}

fn years_after(ref_d: Date, years: u32) -> (r: Option<Date>)
    requires
        ref_d.valid(),
    ensures
        r == years_later(ref_d, years as int),
        r is Some ==> r->0.valid(),
{
    let year: i64 = ref_d.year as i64 + years as i64;
    if year > MAX_YEAR as i64 {
        return None;
    }
    let len = month_length(year as i32, ref_d.month);
    let day = if ref_d.day <= len {
        ref_d.day
    } else {
        len
    };
    Some(Date { year: year as i32, month: ref_d.month, day })
}

/// Reads a repeat pattern: its frequency and unit.
fn parse_pattern(pattern: &str) -> (r: Option<(u32, char)>)
    ensures
        r is Some <==> repeat_of(pattern@) is Some,
        r is Some ==> (r->0).0 == (repeat_of(pattern@)->0).0 && (r->0).1 == (repeat_of(pattern@)->0).1,
{
    let s = chars_of(pattern);
    let n = s.len();
    if n < 2 {
        return None;
    }
    let unit = s[n - 1];
    if !(unit == 'd' || unit == 'w' || unit == 'm' || unit == 'y') {
        return None;
    }
    let ghost body = s@.drop_last();
    let mut i: usize = 0;
    let mut val: u64 = 0;
    while i < n - 1
        invariant
            n == s@.len(),
            s@ == pattern@,
            n >= 2,
            body == s@.drop_last(),
            i <= n - 1,
            all_digits(body.take(i as int)),
            val == digits_value(body.take(i as int)),
            val <= u32::MAX,
        decreases n - 1 - i,
    {
        let c = s[i];
        if !('0' <= c && c <= '9') {
            proof {
                assert(body[i as int] == c);
                assert(!is_digit(body[i as int]));
                assert(!all_digits(body));
                assert(pattern@.drop_last() == body);
            }
            return None;
        }
        let d = (c as u32 - '0' as u32) as u64;
        proof {
            assert(body.take(i + 1).drop_last() =~= body.take(i as int));
            assert(body.take(i + 1).last() == c);
            assert(d == digit_value(c));
        }
        let next = val * 10 + d;
        assert(next == digits_value(body.take(i + 1)));
        if next > 4294967295u64 {
            proof {
                lemma_prefix_value_grows(body, i as int + 1);
                assert(body.take(n - 1) =~= body);
                assert(pattern@.drop_last() == body);
                assert(digits_value(body.take(i + 1)) > u32::MAX);
            }
            return None;
        }
        val = next;
        i += 1;
        assert(all_digits(body.take(i as int))) by {
            assert forall|k: int| 0 <= k < i implies is_digit(#[trigger] body.take(i as int)[k]) by {
                if k < i - 1 {
                    assert(body.take(i as int)[k] == body.take(i - 1)[k]);
                }
            }
        }
    }
    assert(body.take(n - 1) =~= body);
    if val == 0 {
        return None;
    }
    Some((val as u32, unit))
}

/// The value of a digit string is at least that of each of its prefixes.
proof fn lemma_prefix_value_grows(s: Seq<char>, i: int)
    requires
        0 <= i <= s.len(),
    ensures
        all_digits(s) ==> digits_value(s) >= digits_value(s.take(i)),
    decreases s.len() - i,
{
    if i < s.len() {
        lemma_prefix_value_grows(s, i + 1);
        assert(s.take(i + 1).drop_last() =~= s.take(i));
        if all_digits(s) {
            assert(is_digit(s.take(i + 1).last()));
            crate::text::lemma_digits_value_nonneg(s.take(i));
        }
    } else {
        assert(s.take(i) =~= s);
    }
}

/// The next date of a repeat pattern (`<N>d`, `<N>w`, `<N>m` or `<N>y`,
/// N positive) after the reference date, or after today when there is
/// none. `None` when the pattern has another form or the date would pass
/// the calendar's last year.
pub fn next_date(pattern: &str, reference_date: Option<Date>) -> (r: Option<Date>)
    requires
        reference_date is Some ==> reference_date->0.valid(),
    ensures
        reference_date is Some ==> r == next_occurrence(pattern@, reference_date->0),
        reference_date is None ==> exists|d: Date| d.valid() && r == #[trigger] next_occurrence(pattern@, d),
        repeat_of(pattern@) is None ==> r is None,
        r is Some ==> r->0.valid(),
        reference_date is Some && r is Some ==> r->0.day_number() > reference_date->0.day_number(),
        reference_date is Some && r is Some && (repeat_of(pattern@)->0).1 == 'd' ==> r->0.day_number()
            == reference_date->0.day_number() + (repeat_of(pattern@)->0).0,
        reference_date is Some && r is Some && (repeat_of(pattern@)->0).1 == 'w' ==> r->0.day_number()
            == reference_date->0.day_number() + 7 * (repeat_of(pattern@)->0).0,
{
    let ref_d = match reference_date {
        None => today(),
        Some(v) => v,
    };
    let (frequency, unit) = match parse_pattern(pattern) {
        None => return None,
        Some(p) => p,
    };
    let r = if unit == 'd' {
        shift_days(ref_d, frequency as i64)
    } else if unit == 'w' {
        shift_days(ref_d, 7 * frequency as i64)
    } else if unit == 'm' {
        compute_month(ref_d, frequency)
    } else {
        years_after(ref_d, frequency)
    };
    assert(r == next_occurrence(pattern@, ref_d));
    proof {
        if r is Some {
            if unit == 'm' || unit == 'y' {
                lemma_day_number_order(ref_d, r->0);
            }
        }
    }
    r
}

/// The first date on or after the reference date (today when there is
/// none) that falls on `weekday`: the reference date itself when it is
/// that weekday. `None` only past the calendar's last date.
pub fn next_weekday(weekday: Weekday, reference_date: Option<Date>) -> (r: Option<Date>)
    requires
        reference_date is Some ==> reference_date->0.valid(),
    ensures
        reference_date is Some ==> r == days_later(
            reference_date->0,
            (weekday.index() - weekday_of(reference_date->0.day_number())) % 7,
        ),
        reference_date is None ==> exists|d: Date| d.valid() && r == #[trigger] days_later(
            d,
            (weekday.index() - weekday_of(d.day_number())) % 7,
        ),
        reference_date is Some && reference_date->0.day_number() + 6 <= last_day() ==> r is Some,
        r is Some ==> r->0.valid() && weekday_of(r->0.day_number()) == weekday.index(),
        reference_date is Some && r is Some ==> {
            let d = reference_date->0.day_number();
            d <= r->0.day_number() < d + 7
        },
{
    let ref_d = match reference_date {
        None => today(),
        Some(v) => v,
    };
    let current = weekday_index(ref_d);
    let mut diff: i64 = weekday.num_days_from_monday() as i64 - current as i64;
    if diff < 0 {
        diff += 7;
    }
    proof {
        crate::date::lemma_valid_in_range(ref_d);
        let dn = ref_d.day_number();
        let c = (dn + 6) % 7;
        let q = (dn + 6) / 7;
        let w = weekday.index();
        vstd::arithmetic::div_mod::lemma_fundamental_div_mod(dn + 6, 7);
        assert(dn + 6 == 7 * q + c);
        if w - c >= 0 {
            assert(dn + diff + 6 == 7 * q + w);
            vstd::arithmetic::div_mod::lemma_mod_multiples_vanish(q, w, 7);
        } else {
            assert(dn + diff + 6 == 7 * (q + 1) + w);
            vstd::arithmetic::div_mod::lemma_mod_multiples_vanish(q + 1, w, 7);
        }
        assert(weekday_of(dn + diff) == w);
        assert(diff == (w - weekday_of(dn)) % 7);
    }
    shift_days(ref_d, diff)
}

} // verus!
