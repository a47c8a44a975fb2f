//! Character-level helpers shared by the parsers and printers.

use vstd::prelude::*;
use vstd::string::*;

verus! {

/// The characters of Unicode's White_Space property, which is what
/// `char::is_whitespace` and `str::trim` go by.
pub open spec fn is_ws(c: char) -> bool {
    ('\u{9}' <= c && c <= '\u{d}') || c == ' ' || c == '\u{85}' || c == '\u{a0}'
        || c == '\u{1680}' || ('\u{2000}' <= c && c <= '\u{200a}') || c == '\u{2028}'
        || c == '\u{2029}' || c == '\u{202f}' || c == '\u{205f}' || c == '\u{3000}'
}

pub fn is_ws_char(c: char) -> (r: bool)
    ensures
        r == is_ws(c),
{
    ('\u{9}' <= c && c <= '\u{d}') || c == ' ' || c == '\u{85}' || c == '\u{a0}'
        || c == '\u{1680}' || ('\u{2000}' <= c && c <= '\u{200a}') || c == '\u{2028}'
        || c == '\u{2029}' || c == '\u{202f}' || c == '\u{205f}' || c == '\u{3000}'
}

pub open spec fn is_digit(c: char) -> bool {
    '0' <= c && c <= '9'
}

pub open spec fn digit_value(c: char) -> int {
    (c as int) - ('0' as int)
}

pub open spec fn digit_char(v: int) -> char {
    if v == 0 {
        '0'
    } else if v == 1 {
        '1'
    } else if v == 2 {
        '2'
    } else if v == 3 {
        '3'
    } else if v == 4 {
        '4'
    } else if v == 5 {
        '5'
    } else if v == 6 {
        '6'
    } else if v == 7 {
        '7'
    } else if v == 8 {
        '8'
    } else {
        '9'
    }
}

pub fn digit_to_char(v: u64) -> (c: char)
    requires
        v < 10,
    ensures
        c == digit_char(v as int),
        is_digit(c),
        digit_value(c) == v,
{
    if v == 0 {
        '0'
    } else if v == 1 {
        '1'
    } else if v == 2 {
        '2'
    } else if v == 3 {
        '3'
    } else if v == 4 {
        '4'
    } else if v == 5 {
        '5'
    } else if v == 6 {
        '6'
    } else if v == 7 {
        '7'
    } else if v == 8 {
        '8'
    } else {
        '9'
    }
}

/// Number of leading ASCII digits.
pub open spec fn digit_run(s: Seq<char>) -> nat
    decreases s.len(),
{
    if s.len() > 0 && is_digit(s[0]) {
        1 + digit_run(s.drop_first())
    } else {
        0
    }
}

/// Value of a string of decimal digits.
pub open spec fn digits_value(s: Seq<char>) -> int
    decreases s.len(),
{
    if s.len() == 0 {
        0
    } else {
        digits_value(s.drop_last()) * 10 + digit_value(s.last())
    }
}

/// Decimal text of a natural number, without leading zeros.
pub open spec fn dec(v: nat) -> Seq<char>
    decreases v,
{
    if v < 10 {
        seq![digit_char(v as int)]
    } else {
        dec(v / 10).push(digit_char((v % 10) as int))
    }
}

/// Decimal text padded with zeros on the left to at least `w` digits.
pub open spec fn dec_padded(v: nat, w: nat) -> Seq<char> {
    let d = dec(v);
    if d.len() >= w {
        d
    } else {
        Seq::new((w - d.len()) as nat, |i: int| '0') + d
    }
}

pub open spec fn all_digits(s: Seq<char>) -> bool {
    forall|i: int| 0 <= i < s.len() ==> is_digit(#[trigger] s[i])
}

pub proof fn lemma_digit_char(k: int)
    requires
        0 <= k < 10,
    ensures
        digit_value(digit_char(k)) == k,
        is_digit(digit_char(k)),
{
}

pub proof fn lemma_dec_digits(v: nat)
    ensures
        dec(v).len() >= 1,
        all_digits(dec(v)),
        digits_value(dec(v)) == v,
        v < 10 <==> dec(v).len() == 1,
    decreases v,
{
    lemma_digit_char((v % 10) as int);
    if v >= 10 {
        lemma_dec_digits(v / 10);
        let d = dec(v / 10);
        assert(dec(v).drop_last() =~= d);
        assert(dec(v).last() == digit_char((v % 10) as int));
        assert((v / 10) * 10 + v % 10 == v) by (nonlinear_arith);
        assert(digits_value(dec(v)) == digits_value(d) * 10 + digit_value(digit_char((v % 10) as int)));
        assert(digits_value(d) == v / 10);
        assert(digit_value(digit_char((v % 10) as int)) == v % 10);
        assert forall|i: int| 0 <= i < dec(v).len() implies is_digit(#[trigger] dec(v)[i]) by {
            if i < d.len() {
                assert(dec(v)[i] == d[i]);
            }
        }
    } else {
        assert(dec(v).drop_last() =~= Seq::<char>::empty());
        assert(v % 10 == v);
        assert(digits_value(dec(v)) == digits_value(Seq::<char>::empty()) * 10 + digit_value(digit_char((v % 10) as int)));
    }
}

pub proof fn lemma_dec_padded(v: nat, w: nat)
    ensures
        all_digits(dec_padded(v, w)),
        digits_value(dec_padded(v, w)) == v,
        dec_padded(v, w).len() >= w,
        v < 10000 && w == 4 ==> dec_padded(v, w).len() == 4,
{
    lemma_dec_digits(v);
    let d = dec(v);
    if d.len() < w {
        let z = Seq::new((w - d.len()) as nat, |i: int| '0');
        lemma_value_zeros_prefix(z, d);
    }
    if v < 10000 && w == 4 {
        lemma_dec_len_bound(v);
    }
}

pub proof fn lemma_dec_len_bound(v: nat)
    ensures
        v < 10 ==> dec(v).len() == 1,
        v < 100 ==> dec(v).len() <= 2,
        v < 1000 ==> dec(v).len() <= 3,
        v < 10000 ==> dec(v).len() <= 4,
    decreases v,
{
    if v >= 10 {
        lemma_dec_len_bound(v / 10);
    }
}

pub proof fn lemma_digits_value_nonneg(s: Seq<char>)
    ensures
        all_digits(s) ==> digits_value(s) >= 0,
    decreases s.len(),
{
    if s.len() > 0 {
        if all_digits(s) {
            assert(all_digits(s.drop_last())) by {
                assert forall|i: int| 0 <= i < s.len() - 1 implies is_digit(
                    #[trigger] s.drop_last()[i],
                ) by {
                    assert(s.drop_last()[i] == s[i]);
                }
            }
        }
        lemma_digits_value_nonneg(s.drop_last());
    }
}

/// Leading zeros do not change the value of a digit string.
pub proof fn lemma_value_zeros_prefix(z: Seq<char>, d: Seq<char>)
    requires
        forall|i: int| 0 <= i < z.len() ==> z[i] == '0',
    ensures
        digits_value(z + d) == digits_value(d),
    decreases d.len(),
{
    if d.len() == 0 {
        assert(z + d =~= z);
        lemma_value_zeros(z);
    } else {
        assert((z + d).drop_last() =~= z + d.drop_last());
        lemma_value_zeros_prefix(z, d.drop_last());
    }
}

pub proof fn lemma_value_zeros(z: Seq<char>)
    requires
        forall|i: int| 0 <= i < z.len() ==> z[i] == '0',
    ensures
        digits_value(z) == 0,
    decreases z.len(),
{
    if z.len() > 0 {
        lemma_value_zeros(z.drop_last());
    }
}

/// A digit run stops at the first character that is not a digit.
pub proof fn lemma_digit_run_concat(d: Seq<char>, rest: Seq<char>)
    requires
        all_digits(d),
        rest.len() == 0 || !is_digit(rest[0]),
    ensures
        digit_run(d + rest) == d.len(),
    decreases d.len(),
{
    if d.len() == 0 {
        assert(d + rest =~= rest);
    } else {
        assert((d + rest).drop_first() =~= d.drop_first() + rest);
        lemma_digit_run_concat(d.drop_first(), rest);
    }
}

pub proof fn lemma_digit_run_bounds(s: Seq<char>)
    ensures
        digit_run(s) <= s.len(),
        all_digits(s.take(digit_run(s) as int)),
        digit_run(s) < s.len() ==> !is_digit(s[digit_run(s) as int]),
    decreases s.len(),
{
    if s.len() > 0 && is_digit(s[0]) {
        lemma_digit_run_bounds(s.drop_first());
        let k = digit_run(s) as int;
        assert forall|i: int| 0 <= i < k implies is_digit(#[trigger] s.take(k)[i]) by {
            if i > 0 {
                assert(s.take(k)[i] == s.drop_first().take(k - 1)[i - 1]);
            }
        }
        if k < s.len() {
            assert(s[k] == s.drop_first()[k - 1]);
        }
    }
}

/// The characters of a string slice.
pub fn chars_of(s: &str) -> (r: Vec<char>)
    ensures
        r@ == s@,
{
    let n = s.unicode_len();
    let mut r: Vec<char> = Vec::new();
    let mut i: usize = 0;
    while i < n
        invariant
            n == s@.len(),
            i <= n,
            r@ == s@.take(i as int),
        decreases n - i,
    {
        r.push(s.get_char(i));
        i += 1;
        assert(r@ =~= s@.take(i as int));
    }
    assert(r@ =~= s@);
    r
}

/// Relies on `String`'s `FromIterator<char>`: the string holds the
/// characters in order.
#[verifier::external_body]
pub(crate) fn string_of(v: &Vec<char>) -> (r: String)
    ensures
        r@ == v@,
{
    v.iter().collect()
}

/// Appends the decimal digits of `v`.
pub fn push_dec(out: &mut Vec<char>, v: u64)
    ensures
        final(out)@ == old(out)@ + dec(v as nat),
    decreases v,
{
    if v >= 10 {
        push_dec(out, v / 10);
    }
    let c = digit_to_char(v % 10);
    out.push(c);
    assert(final(out)@ =~= old(out)@ + dec(v as nat));
}

/// Appends the decimal digits of `v`, padded with zeros to `w` digits.
pub fn push_dec_padded(out: &mut Vec<char>, v: u64, w: usize)
    ensures
        final(out)@ == old(out)@ + dec_padded(v as nat, w as nat),
{
    let mut digits: Vec<char> = Vec::new();
    push_dec(&mut digits, v);
    assert(digits@ =~= dec(v as nat));
    let len = digits.len();
    let mut k: usize = len;
    while k < w
        invariant
            len <= k,
            k > len ==> k <= w,
            out@ == old(out)@ + Seq::new((k - len) as nat, |i: int| '0'),
        decreases w - k,
    {
        out.push('0');
        k += 1;
        assert(out@ =~= old(out)@ + Seq::new((k - len) as nat, |i: int| '0'));
    }
    let ghost mid = out@;
    let mut i: usize = 0;
    while i < len
        invariant
            len == digits@.len(),
            i <= len,
            out@ == mid + digits@.take(i as int),
        decreases len - i,
    {
        out.push(digits[i]);
        i += 1;
        assert(out@ =~= mid + digits@.take(i as int));
    }
    proof {
        assert(digits@.take(len as int) =~= digits@);
        if len >= w {
            assert(mid =~= old(out)@);
        }
        assert(out@ =~= old(out)@ + dec_padded(v as nat, w as nat));
    }
}

/// Number of leading characters that are not white space.
pub open spec fn nonws_run(s: Seq<char>) -> nat
    decreases s.len(),
{
    if s.len() > 0 && !is_ws(s[0]) {
        1 + nonws_run(s.drop_first())
    } else {
        0
    }
}

/// Number of leading white-space characters.
pub open spec fn ws_run(s: Seq<char>) -> nat
    decreases s.len(),
{
    if s.len() > 0 && is_ws(s[0]) {
        1 + ws_run(s.drop_first())
    } else {
        0
    }
}

/// Number of trailing white-space characters.
pub open spec fn ws_tail(s: Seq<char>) -> nat
    decreases s.len(),
{
    if s.len() > 0 && is_ws(s.last()) {
        1 + ws_tail(s.drop_last())
    } else {
        0
    }
}

/// `s` without leading and trailing white space, as `str::trim` gives it.
pub open spec fn trim(s: Seq<char>) -> Seq<char> {
    if ws_run(s) == s.len() {
        Seq::empty()
    } else {
        s.subrange(ws_run(s) as int, s.len() - ws_tail(s))
    }
}

pub proof fn lemma_nonws_run(s: Seq<char>)
    ensures
        nonws_run(s) <= s.len(),
        forall|i: int| 0 <= i < nonws_run(s) ==> !is_ws(#[trigger] s[i]),
        nonws_run(s) < s.len() ==> is_ws(s[nonws_run(s) as int]),
    decreases s.len(),
{
    if s.len() > 0 && !is_ws(s[0]) {
        lemma_nonws_run(s.drop_first());
        assert forall|i: int| 0 <= i < nonws_run(s) implies !is_ws(#[trigger] s[i]) by {
            if i > 0 {
                assert(s[i] == s.drop_first()[i - 1]);
            }
        }
    }
}

pub proof fn lemma_ws_run(s: Seq<char>)
    ensures
        ws_run(s) <= s.len(),
        forall|i: int| 0 <= i < ws_run(s) ==> is_ws(#[trigger] s[i]),
        ws_run(s) < s.len() ==> !is_ws(s[ws_run(s) as int]),
    decreases s.len(),
{
    if s.len() > 0 && is_ws(s[0]) {
        lemma_ws_run(s.drop_first());
        assert forall|i: int| 0 <= i < ws_run(s) implies is_ws(#[trigger] s[i]) by {
            if i > 0 {
                assert(s[i] == s.drop_first()[i - 1]);
            }
        }
    }
}

pub proof fn lemma_ws_tail(s: Seq<char>)
    ensures
        ws_tail(s) <= s.len(),
        forall|i: int| s.len() - ws_tail(s) <= i < s.len() ==> is_ws(#[trigger] s[i]),
        ws_tail(s) < s.len() ==> !is_ws(s[s.len() - ws_tail(s) - 1]),
    decreases s.len(),
{
    if s.len() > 0 && is_ws(s.last()) {
        lemma_ws_tail(s.drop_last());
        assert forall|i: int| s.len() - ws_tail(s) <= i < s.len() implies is_ws(#[trigger] s[i]) by {
            if i < s.len() - 1 {
                assert(s[i] == s.drop_last()[i]);
            }
        }
        if ws_tail(s) < s.len() {
            assert(s[s.len() - ws_tail(s) - 1] == s.drop_last()[s.len() - ws_tail(s) - 1]);
        }
    }
}

/// A run counted by a scan: it ends at the first character that breaks it.
pub proof fn lemma_nonws_run_exact(s: Seq<char>, k: int)
    requires
        0 <= k <= s.len(),
        forall|i: int| 0 <= i < k ==> !is_ws(#[trigger] s[i]),
        k == s.len() || is_ws(s[k]),
    ensures
        nonws_run(s) == k,
    decreases k,
{
    if k > 0 {
        assert forall|i: int| 0 <= i < k - 1 implies !is_ws(#[trigger] s.drop_first()[i]) by {
            assert(s.drop_first()[i] == s[i + 1]);
        }
        if k < s.len() {
            assert(s.drop_first()[k - 1] == s[k]);
        }
        lemma_nonws_run_exact(s.drop_first(), k - 1);
    }
}

pub proof fn lemma_ws_run_exact(s: Seq<char>, k: int)
    requires
        0 <= k <= s.len(),
        forall|i: int| 0 <= i < k ==> is_ws(#[trigger] s[i]),
        k == s.len() || !is_ws(s[k]),
    ensures
        ws_run(s) == k,
    decreases k,
{
    if k > 0 {
        assert forall|i: int| 0 <= i < k - 1 implies is_ws(#[trigger] s.drop_first()[i]) by {
            assert(s.drop_first()[i] == s[i + 1]);
        }
        if k < s.len() {
            assert(s.drop_first()[k - 1] == s[k]);
        }
        lemma_ws_run_exact(s.drop_first(), k - 1);
    }
}

pub proof fn lemma_ws_tail_exact(s: Seq<char>, k: int)
    requires
        0 <= k <= s.len(),
        forall|i: int| s.len() - k <= i < s.len() ==> is_ws(#[trigger] s[i]),
        k == s.len() || !is_ws(s[s.len() - k - 1]),
    ensures
        ws_tail(s) == k,
    decreases k,
{
    if k > 0 {
        let t = s.drop_last();
        assert forall|i: int| t.len() - (k - 1) <= i < t.len() implies is_ws(#[trigger] t[i]) by {
            assert(t[i] == s[i]);
        }
        if k < s.len() {
            assert(t[t.len() - (k - 1) - 1] == s[s.len() - k - 1]);
        }
        lemma_ws_tail_exact(t, k - 1);
    }
}

/// End of the run of non-white-space characters that starts at `start`.
pub fn nonws_end(s: &Vec<char>, start: usize) -> (e: usize)
    requires
        start <= s@.len(),
    ensures
        e == start + nonws_run(s@.skip(start as int)),
        e <= s@.len(),
{
    let mut e = start;
    while e < s.len() && !is_ws_char(s[e])
        invariant
            start <= e <= s@.len(),
            forall|i: int| start <= i < e ==> !is_ws(#[trigger] s@[i]),
        decreases s@.len() - e,
    {
        e += 1;
    }
    proof {
        let t = s@.skip(start as int);
        assert forall|i: int| 0 <= i < e - start implies !is_ws(#[trigger] t[i]) by {
            assert(t[i] == s@[start + i]);
        }
        if e < s@.len() {
            assert(t[e - start] == s@[e as int]);
        }
        lemma_nonws_run_exact(t, e - start);
    }
    e
}

/// End of the run of white-space characters that starts at `start`.
pub fn ws_end(s: &Vec<char>, start: usize) -> (e: usize)
    requires
        start <= s@.len(),
    ensures
        e == start + ws_run(s@.skip(start as int)),
        e <= s@.len(),
{
    let mut e = start;
    while e < s.len() && is_ws_char(s[e])
        invariant
            start <= e <= s@.len(),
            forall|i: int| start <= i < e ==> is_ws(#[trigger] s@[i]),
        decreases s@.len() - e,
    {
        e += 1;
    }
    proof {
        let t = s@.skip(start as int);
        assert forall|i: int| 0 <= i < e - start implies is_ws(#[trigger] t[i]) by {
            assert(t[i] == s@[start + i]);
        }
        if e < s@.len() {
            assert(t[e - start] == s@[e as int]);
        }
        lemma_ws_run_exact(t, e - start);
    }
    e
}

/// The characters from `from` up to `to`.
pub fn slice_chars(s: &Vec<char>, from: usize, to: usize) -> (r: Vec<char>)
    requires
        from <= to <= s@.len(),
    ensures
        r@ == s@.subrange(from as int, to as int),
{
    let mut r: Vec<char> = Vec::new();
    let mut i = from;
    while i < to
        invariant
            from <= i <= to,
            to <= s@.len(),
            r@ == s@.subrange(from as int, i as int),
        decreases to - i,
    {
        r.push(s[i]);
        i += 1;
        assert(r@ =~= s@.subrange(from as int, i as int));
    }
    r
}

/// The text from `from` up to `to`, as a `String`.
pub fn slice_string(s: &Vec<char>, from: usize, to: usize) -> (r: String)
    requires
        from <= to <= s@.len(),
    ensures
        r@ == s@.subrange(from as int, to as int),
{
    let v = slice_chars(s, from, to);
    string_of(&v)
}

/// Removes leading and trailing white space.
pub fn trim_chars(s: &Vec<char>) -> (r: Vec<char>)
    ensures
        r@ == trim(s@),
{
    let a = ws_end(s, 0);
    proof {
        assert(s@.skip(0) =~= s@);
    }
    if a == s.len() {
        return Vec::new();
    }
    let mut b = s.len();
    while b > a && is_ws_char(s[b - 1])
        invariant
            a < s@.len(),
            a <= b <= s@.len(),
            forall|i: int| b <= i < s@.len() ==> is_ws(#[trigger] s@[i]),
        decreases b,
    {
        b -= 1;
    }
    proof {
        lemma_ws_run(s@);
        if b == a {
            assert(is_ws(s@[a as int]));
        }
        lemma_ws_tail_exact(s@, s@.len() - b);
    }
    slice_chars(s, a, b)
}

/// Character-wise equality of two strings.
pub fn chars_eq(a: &Vec<char>, b: &Vec<char>) -> (r: bool)
    ensures
        r == (a@ == b@),
{
    if a.len() != b.len() {
        return false;
    }
    let mut i: usize = 0;
    while i < a.len()
        invariant
            a@.len() == b@.len(),
            i <= a@.len(),
            forall|j: int| 0 <= j < i ==> a@[j] == b@[j],
        decreases a@.len() - i,
    {
        if a[i] != b[i] {
            return false;
        }
        i += 1;
    }
    assert(a@ =~= b@);
    true
}

/// Lexicographic comparison by characters, as `str`'s `Ord` orders:
/// -1, 0 or 1.
pub open spec fn lex(a: Seq<char>, b: Seq<char>) -> int
    decreases a.len(),
{
    if a.len() == 0 {
        if b.len() == 0 {
            0
        } else {
            -1
        }
    } else if b.len() == 0 {
        1
    } else if a[0] < b[0] {
        -1
    } else if a[0] > b[0] {
        1
    } else {
        lex(a.drop_first(), b.drop_first())
    }
}

pub proof fn lemma_lex_props(a: Seq<char>, b: Seq<char>)
    ensures
        -1 <= lex(a, b) <= 1,
        lex(a, b) == -lex(b, a),
        lex(a, b) == 0 <==> a == b,
    decreases a.len(),
{
    if a.len() > 0 && b.len() > 0 && a[0] == b[0] {
        lemma_lex_props(a.drop_first(), b.drop_first());
        if a.drop_first() == b.drop_first() {
            assert(a =~= seq![a[0]] + a.drop_first());
            assert(b =~= seq![b[0]] + b.drop_first());
        }
    }
    if a.len() == 0 && b.len() == 0 {
        assert(a =~= b);
    }
}

pub proof fn lemma_lex_trans(a: Seq<char>, b: Seq<char>, c: Seq<char>)
    requires
        lex(a, b) <= 0,
        lex(b, c) <= 0,
    ensures
        lex(a, c) <= 0,
        lex(a, b) < 0 || lex(b, c) < 0 ==> lex(a, c) < 0,
    decreases a.len(),
{
    lemma_lex_props(a, b);
    lemma_lex_props(b, c);
    lemma_lex_props(a, c);
    if a.len() > 0 && b.len() > 0 && c.len() > 0 && a[0] == b[0] && b[0] == c[0] {
        lemma_lex_trans(a.drop_first(), b.drop_first(), c.drop_first());
    }
}

/// Compares two character sequences lexicographically.
pub fn lex_cmp(a: &Vec<char>, b: &Vec<char>) -> (r: i8)
    ensures
        r == lex(a@, b@),
{
    let mut i: usize = 0;
    assert(a@.skip(0) =~= a@);
    assert(b@.skip(0) =~= b@);
    while i < a.len() && i < b.len()
        invariant
            i <= a@.len(),
            i <= b@.len(),
            lex(a@, b@) == lex(a@.skip(i as int), b@.skip(i as int)),
        decreases a@.len() - i,
    {
        if a[i] < b[i] {
            return -1;
        }
        if a[i] > b[i] {
            return 1;
        }
        proof {
            assert(a@.skip(i as int).drop_first() =~= a@.skip(i + 1));
            assert(b@.skip(i as int).drop_first() =~= b@.skip(i + 1));
        }
        i += 1;
    }
    if i < a.len() {
        1
    } else if i < b.len() {
        -1
    } else {
        0
    }
}

/// `t` occurs in `s` as a run of consecutive characters.
pub open spec fn contains(s: Seq<char>, t: Seq<char>) -> bool {
    exists|i: int| 0 <= i && i + t.len() <= s.len() && #[trigger] s.subrange(i, i + t.len()) == t
}

/// Whether `t` occurs in `s`.
pub fn contains_chars(s: &Vec<char>, t: &Vec<char>) -> (r: bool)
    ensures
        r == contains(s@, t@),
{
    if t.len() > s.len() {
        return false;
    }
    if t.len() == 0 {
        assert(s@.subrange(0, 0 + t@.len() as int) =~= t@);
        return true;
    }
    let mut i: usize = 0;
    let n = s.len();
    let last = s.len() - t.len();
    while i <= last
        invariant
            t@.len() <= s@.len(),
            n == s@.len(),
            last == s@.len() - t@.len(),
            i <= last + 1,
            forall|k: int| 0 <= k < i ==> #[trigger] s@.subrange(k, k + t@.len()) != t@,
        decreases s@.len() - i,
    {
        let mut j: usize = 0;
        let mut same = true;
        while same && j < t.len()
            invariant
                i <= last,
                n == s@.len(),
                last == s@.len() - t@.len(),
                i + t@.len() <= s@.len(),
                j <= t@.len(),
                forall|m: int| 0 <= m < j ==> s@[i + m] == t@[m],
                !same ==> j < t@.len() && s@[i + j] != t@[j as int],
            decreases t@.len() - j + (if same { 1int } else { 0int }),
        {
            assert(i + j < s@.len());
            if s[i + j] != t[j] {
                same = false;
            } else {
                j += 1;
            }
        }
        if same {
            assert(s@.subrange(i as int, i + t@.len()) =~= t@);
            return true;
        }
        assert(s@.subrange(i as int, i + t@.len())[j as int] != t@[j as int]);
        if i == last {
            return false;
        }
        i += 1;
    }
    false
}

/// Decimal text of an integer, with a `-` when it is negative.
pub open spec fn int_text(v: int) -> Seq<char> {
    if v < 0 {
        seq!['-'] + dec((-v) as nat)
    } else {
        dec(v as nat)
    }
}

/// The `i64` that `str::parse` reads: an optional sign and one or more
/// digits, within the range of `i64`.
pub open spec fn int_of(s: Seq<char>) -> Option<int> {
    let signed = s.len() > 0 && (s[0] == '-' || s[0] == '+');
    let body = if signed {
        s.drop_first()
    } else {
        s
    };
    let v = if s.len() > 0 && s[0] == '-' {
        -digits_value(body)
    } else {
        digits_value(body)
    };
    if body.len() > 0 && all_digits(body) && i64::MIN <= v <= i64::MAX {
        Some(v)
    } else {
        None
    }
}

/// The text of an `i64` reads back as it.
pub proof fn lemma_int_round_trip(v: int)
    requires
        i64::MIN <= v <= i64::MAX,
    ensures
        int_of(int_text(v)) == Some(v),
{
    let t = int_text(v);
    if v < 0 {
        let d = dec((-v) as nat);
        lemma_dec_digits((-v) as nat);
        assert(t.drop_first() =~= d);
        assert(t[0] == '-');
    } else {
        let d = dec(v as nat);
        lemma_dec_digits(v as nat);
        assert(is_digit(d[0]));
    }
}

/// Appends the decimal text of an integer.
pub fn push_int(out: &mut Vec<char>, v: i64)
    ensures
        final(out)@ == old(out)@ + int_text(v as int),
{
    if v < 0 {
        out.push('-');
        let m: u64 = if v == i64::MIN {
            9223372036854775808u64
        } else {
            (-v) as u64
        };
        push_dec(out, m);
        assert(final(out)@ =~= old(out)@ + int_text(v as int));
    } else {
        push_dec(out, v as u64);
    }
}

/// Reads an `i64` as `str::parse` does.
pub fn parse_int(s: &str) -> (r: Option<i64>)
    ensures
        r is Some <==> int_of(s@) is Some,
        r is Some ==> r->0 == int_of(s@)->0,
{
    let c = chars_of(s);
    let n = c.len();
    let neg = n > 0 && c[0] == '-';
    let signed = n > 0 && (c[0] == '-' || c[0] == '+');
    let start: usize = if signed {
        1
    } else {
        0
    };
    let ghost body = if signed {
        s@.drop_first()
    } else {
        s@
    };
    assert(body =~= c@.skip(start as int));
    if start == n {
        assert(body.len() == 0);
        return None;
    }
    let mut i: usize = start;
    let mut mag: u64 = 0;
    let mut big = false;
    while i < n
        invariant
            n == c@.len(),
            c@ == s@,
            start <= i <= n,
            body == c@.skip(start as int),
            body == (if signed {
                s@.drop_first()
            } else {
                s@
            }),
            neg == (s@.len() > 0 && s@[0] == '-'),
            signed == (s@.len() > 0 && (s@[0] == '-' || s@[0] == '+')),
            all_digits(c@.subrange(start as int, i as int)),
            !big ==> mag == digits_value(c@.subrange(start as int, i as int)),
            !big ==> mag <= 9223372036854775808u64,
            big ==> digits_value(c@.subrange(start as int, i as int)) > 9223372036854775808,
        decreases n - i,
    {
        let ch = c[i];
        let ghost prev = c@.subrange(start as int, i as int);
        if !('0' <= ch && ch <= '9') {
            proof {
                assert(body[i - start] == ch);
            }
            return None;
        }
        let d = (ch as u32 - '0' as u32) as u64;
        proof {
            assert(c@.subrange(start as int, i + 1).drop_last() =~= prev);
            lemma_digits_value_nonneg(prev);
        }
        if !big {
            if mag <= (9223372036854775808u64 - d) / 10 {
                mag = mag * 10 + d;
            } else {
                big = true;
            }
        }
        i += 1;
        assert(all_digits(c@.subrange(start as int, i as int))) by {
            assert forall|k: int| 0 <= k < i - start implies is_digit(
                #[trigger] c@.subrange(start as int, i as int)[k],
            ) by {
                if k < i - 1 - start {
                    assert(c@.subrange(start as int, i as int)[k] == prev[k]);
                }
            }
        }
    }
    assert(c@.subrange(start as int, n as int) =~= body);
    if big {
        return None;
    }
    if neg {
        if mag == 9223372036854775808u64 {
            Some(i64::MIN)
        } else {
            Some(-(mag as i64))
        }
    } else if mag <= 9223372036854775807u64 {
        Some(mag as i64)
    } else {
        None
    }
}

/// Decimal text of an integer as a `String`.
pub fn int_string(v: i64) -> (r: String)
    ensures
        r@ == int_text(v as int),
{
    let mut out: Vec<char> = Vec::new();
    push_int(&mut out, v);
    assert(out@ =~= int_text(v as int));
    string_of(&out)
}

/// The first character of what `char::to_uppercase` gives for `c`.
pub uninterp spec fn upper_of(c: char) -> char;

/// Relies on `char::to_uppercase`: the first character of the upper-case
/// mapping of `c`, which for an ASCII letter is its capital and leaves
/// other ASCII characters as they are.
#[verifier::external_body]
pub(crate) fn to_upper(c: char) -> (r: char)
    ensures
        r == upper_of(c),
        'a' <= c <= 'z' ==> r as u32 == c as u32 - 32,
        (c as u32) < 128 && !('a' <= c <= 'z') ==> r == c,
{
    c.to_uppercase().next().unwrap_or(c)
}

} // verus!
