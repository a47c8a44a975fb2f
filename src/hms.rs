//! Compact durations written as `XhYmZs`.

use vstd::prelude::*;
use crate::text::{
    all_digits, dec, digit_run, digit_value, digits_value, is_digit, lemma_dec_digits,
    lemma_digit_run_concat, push_dec, string_of,
};

verus! {

/// An optional `<digits><unit>` part at the start of `s`: its value and how
/// many characters it takes (none when the part is absent).
pub open spec fn component(s: Seq<char>, unit: char) -> (int, int) {
    let k = digit_run(s) as int;
    if 0 < k < s.len() && s[k] == unit {
        (digits_value(s.take(k)), k + 1)
    } else {
        (0, 0)
    }
}

/// Seconds written by a text of the form `[<N>h][<N>m][<N>s]`, or `None`
/// when the text has another form.
pub open spec fn decode(s: Seq<char>) -> Option<int> {
    let (h, a) = component(s, 'h');
    let s1 = s.skip(a);
    let (m, b) = component(s1, 'm');
    let s2 = s1.skip(b);
    let (x, c) = component(s2, 's');
    if c == s2.len() {
        Some(h * 3600 + m * 60 + x)
    } else {
        None
    }
}

pub open spec fn part(v: int, unit: char) -> Seq<char> {
    if v > 0 {
        dec(v as nat).push(unit)
    } else {
        Seq::empty()
    }
}

/// The text of a second count: hours, minutes and seconds that are not
/// zero, each followed by its unit; nothing for zero or a negative count.
pub open spec fn encode(n: int) -> Seq<char> {
    if n <= 0 {
        Seq::empty()
    } else {
        part(n / 3600, 'h') + part((n % 3600) / 60, 'm') + part(n % 60, 's')
    }
}

/// The seconds that `to_seconds` gives for a text: its decoded value when
/// it has the duration form and the value fits in an `i64`, else zero.
pub open spec fn seconds_of(s: Seq<char>) -> int {
    match decode(s) {
        Some(v) => if v <= i64::MAX {
            v
        } else {
            0
        },
        None => 0,
    }
}

proof fn lemma_component_of_part(v: int, unit: char, rest: Seq<char>)
    requires
        v > 0,
        unit == 'h' || unit == 'm' || unit == 's',
    ensures
        component(part(v, unit) + rest, unit) == (v, part(v, unit).len() as int),
        (part(v, unit) + rest).skip(part(v, unit).len() as int) == rest,
{
    let d = dec(v as nat);
    lemma_dec_digits(v as nat);
    let s = part(v, unit) + rest;
    assert(s =~= d + (seq![unit] + rest));
    lemma_digit_run_concat_unit(d, unit, rest);
    assert(s.take(d.len() as int) =~= d);
    assert(s.skip(part(v, unit).len() as int) =~= rest);
}

proof fn lemma_digit_run_concat_unit(d: Seq<char>, unit: char, rest: Seq<char>)
    requires
        all_digits(d),
        !is_digit(unit),
    ensures
        digit_run(d + (seq![unit] + rest)) == d.len(),
{
    lemma_digit_run_concat(d, seq![unit] + rest);
}

proof fn lemma_component_absent(s: Seq<char>, unit: char, other: char, v: int, r: Seq<char>)
    requires
        s.len() == 0 || (v > 0 && s == part(v, other) + r),
        unit != other,
        !is_digit(other),
    ensures
        component(s, unit) == (0int, 0int),
{
    if s.len() > 0 {
        lemma_dec_digits(v as nat);
        let d = dec(v as nat);
        assert(s =~= d + (seq![other] + r));
        lemma_digit_run_concat_unit(d, other, r);
        assert(s[d.len() as int] == other);
    }
}

/// Decoding the encoding of a count gives the count back.
pub proof fn lemma_decode_encode(n: int)
    requires
        n >= 0,
    ensures
        decode(encode(n)) == Some(n),
{
    let h = n / 3600;
    let m = (n % 3600) / 60;
    let x = n % 60;
    assert(n == h * 3600 + m * 60 + x) by (nonlinear_arith)
        requires h == n / 3600, m == (n % 3600) / 60, x == n % 60, n >= 0;
    let ps = part(x, 's');
    let pm = part(m, 'm') + ps;
    let s = encode(n);
    if n == 0 {
        assert(s.len() == 0);
        assert(s.skip(0) =~= s);
        return;
    }
    assert(s =~= part(h, 'h') + pm);
    // seconds part
    if x > 0 {
        lemma_component_of_part(x, 's', Seq::empty());
        assert(ps + Seq::<char>::empty() =~= ps);
    } else {
        assert(ps.len() == 0);
    }
    // minutes part
    if m > 0 {
        lemma_component_of_part(m, 'm', ps);
    } else {
        assert(pm =~= ps);
        if x > 0 {
            assert(ps == part(x, 's') + Seq::<char>::empty());
        }
        lemma_component_absent(pm, 'm', 's', x, Seq::empty());
        assert(pm.skip(0) =~= pm);
    }
    // hours part
    if h > 0 {
        lemma_component_of_part(h, 'h', pm);
        if m == 0 && x == 0 {
            assert(pm.len() == 0);
        }
    } else {
        assert(s =~= pm);
        if m > 0 {
            lemma_component_absent(s, 'h', 'm', m, ps);
        } else if x > 0 {
            assert(s == part(x, 's') + Seq::<char>::empty());
            lemma_component_absent(s, 'h', 's', x, Seq::empty());
        }
        assert(s.skip(0) =~= s);
    }
    let s1 = s.skip(component(s, 'h').1);
    assert(s1 == pm);
    let s2 = s1.skip(component(s1, 'm').1);
    assert(s2 == ps);
    if x == 0 {
        assert(component(s2, 's') == (0int, 0int));
    }
}

/// Reads the optional `<digits><unit>` part that starts at `start`:
/// its value (`None` when it exceeds `i64::MAX`) and its length.
fn read_component(s: &Vec<char>, start: usize, unit: char) -> (r: (Option<i64>, usize))
    requires
        start <= s@.len(),
    ensures
        r.1 == component(s@.skip(start as int), unit).1,
        start + r.1 <= s@.len(),
        r.0 is Some ==> r.0->0 == component(s@.skip(start as int), unit).0,
        r.0 is None ==> component(s@.skip(start as int), unit).0 > i64::MAX,
{
    let n = s.len();
    let mut j: usize = start;
    let mut val: u64 = 0;
    let mut big = false;
    while j < n && '0' <= s[j] && s[j] <= '9'
        invariant
            n == s@.len(),
            start <= j <= n,
            all_digits(s@.subrange(start as int, j as int)),
            !big ==> val == digits_value(s@.subrange(start as int, j as int)) && val <= i64::MAX,
            big ==> digits_value(s@.subrange(start as int, j as int)) > i64::MAX,
        decreases n - j,
    {
        let d = (s[j] as u32 - '0' as u32) as u64;
        let ghost prev = s@.subrange(start as int, j as int);
        proof {
            assert(s@.subrange(start as int, j + 1).drop_last() =~= prev);
            assert(d == digit_value(s@[j as int]));
        }
        if !big {
            if val <= (9223372036854775807u64 - d) / 10 {
                val = val * 10 + d;
            } else {
                big = true;
            }
        } else {
            proof {
                assert(digits_value(prev) * 10 + d >= digits_value(prev));
            }
        }
        j += 1;
        assert(all_digits(s@.subrange(start as int, j as int))) by {
            assert forall|i: int| 0 <= i < j - start implies is_digit(
                #[trigger] s@.subrange(start as int, j as int)[i],
            ) by {
                if i < j - 1 - start {
                    assert(s@.subrange(start as int, j as int)[i] == prev[i]);
                }
            }
        }
    }
    let ghost t = s@.skip(start as int);
    proof {
        assert(t =~= s@.subrange(start as int, j as int) + s@.skip(j as int));
        lemma_digit_run_concat(s@.subrange(start as int, j as int), s@.skip(j as int));
        assert(t.take(j - start) =~= s@.subrange(start as int, j as int));
    }
    if j > start && j < n && s[j] == unit {
        proof {
            assert(t[j - start] == s@[j as int]);
        }
        if big {
            (None, j - start + 1)
        } else {
            (Some(val as i64), j - start + 1)
        }
    } else {
        proof {
            if j > start && j < n {
                assert(t[j - start] == s@[j as int]);
            }
        }
        (Some(0), 0)
    }
}

/// Converts a duration text such as `1h1m1s` to seconds. A text of another
/// form, or one whose value does not fit in an `i64`, gives zero.
pub fn to_seconds(hms: &String) -> (r: i64)
    ensures
        r == seconds_of(hms@),
{
    let s = crate::text::chars_of(hms.as_str());
    let n = s.len();
    let (h, a) = read_component(&s, 0, 'h');
    proof {
        assert(s@.skip(0) =~= s@);
    }
    let (m, b) = read_component(&s, a, 'm');
    let ghost s1 = s@.skip(a as int);
    proof {
        assert(s1.skip(b as int) =~= s@.skip(a + b));
    }
    let (x, c) = read_component(&s, a + b, 's');
    let ghost s2 = s@.skip(a + b);
    if a + b + c != n {
        return 0;
    }
    proof {
        lemma_components_nonneg(s@, s1, s2);
        assert(s@ == hms@);
    }
    match (h, m, x) {
        (Some(hv), Some(mv), Some(xv)) => {
            assert(0 <= hv && 0 <= mv && 0 <= xv);
            let total: i128 = hv as i128 * 3600 + mv as i128 * 60 + xv as i128;
            assert(decode(hms@) == Some(hv as int * 3600 + mv as int * 60 + xv as int));
            if total <= 9223372036854775807i128 {
                total as i64
            } else {
                0
            }
        },
        _ => {
            proof {
                let hh = component(s@, 'h').0;
                let mm = component(s1, 'm').0;
                let xx = component(s2, 's').0;
                assert(hh * 3600 + mm * 60 + xx > i64::MAX) by (nonlinear_arith)
                    requires hh >= 0, mm >= 0, xx >= 0, hh > i64::MAX || mm > i64::MAX || xx > i64::MAX;
            }
            0
        },
    }
}

proof fn lemma_components_nonneg(s: Seq<char>, s1: Seq<char>, s2: Seq<char>)
    ensures
        component(s, 'h').0 >= 0,
        component(s1, 'm').0 >= 0,
        component(s2, 's').0 >= 0,
{
    crate::text::lemma_digit_run_bounds(s);
    crate::text::lemma_digit_run_bounds(s1);
    crate::text::lemma_digit_run_bounds(s2);
    crate::text::lemma_digits_value_nonneg(s.take(digit_run(s) as int));
    crate::text::lemma_digits_value_nonneg(s1.take(digit_run(s1) as int));
    crate::text::lemma_digits_value_nonneg(s2.take(digit_run(s2) as int));
}

fn push_part(out: &mut Vec<char>, v: i64, unit: char)
    requires
        v >= 0,
    ensures
        final(out)@ == old(out)@ + part(v as int, unit),
{
    if v > 0 {
        push_dec(out, v as u64);
        out.push(unit);
    }
    assert(final(out)@ =~= old(out)@ + part(v as int, unit));
}

/// Writes a second count as `XhYmZs`, leaving out parts that are zero.
pub fn from_seconds(seconds: i64) -> (r: String)
    ensures
        r@ == encode(seconds as int),
{
    let mut out: Vec<char> = Vec::new();
    if seconds > 0 {
        push_part(&mut out, seconds / 3600, 'h');
        push_part(&mut out, (seconds % 3600) / 60, 'm');
        push_part(&mut out, seconds % 60, 's');
    }
    assert(out@ =~= encode(seconds as int));
    string_of(&out)
}

} // verus!
