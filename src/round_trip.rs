//! Reading back a written task gives the same task.

use vstd::prelude::*;
use crate::todo::{
    after_ws, attr_token, attr_tokens, date1, date1_at, date2, date2_at, has_date1, has_date2,
    has_done_mark, head_parts, id_key, id_value, is_upper, join, mark_end, parse_model, pri_key,
    pri_value, priority_mark, serialize_model, task_at, TodoModel,
};
use crate::date::{date_of_shape, is_date_shape, iso_text, lemma_iso_round_trip};
use crate::ids::{is_uuid_char, uuid_parse_of, uuid_text_of};
use crate::line::{kv_scan, kv_split, strip, tags, colon_at_or_before, lemma_colon_range};
use crate::kv::{find_key, first_key_at, kv_insert, kv_remove, kv_get, unique_keys, lemma_find_key_is, lemma_find_key_none};
use crate::text::{is_ws, nonws_run, lemma_nonws_run, lemma_nonws_run_exact, trim, ws_run, ws_tail, lemma_ws_run, lemma_ws_tail};

verus! {

/// No token runs across the seam between `a` and `b`.
pub open spec fn seam(a: Seq<char>, b: Seq<char>) -> bool {
    a.len() == 0 || b.len() == 0 || is_ws(a.last()) || is_ws(b[0])
}

proof fn lemma_nonws_run_concat(x: Seq<char>, y: Seq<char>)
    requires
        nonws_run(x) < x.len() || y.len() == 0 || is_ws(y[0]),
    ensures
        nonws_run(x + y) == nonws_run(x),
    decreases x.len(),
{
    if x.len() == 0 {
        assert(x + y =~= y);
    } else {
        assert((x + y).drop_first() =~= x.drop_first() + y);
        if !is_ws(x[0]) {
            lemma_nonws_run_concat(x.drop_first(), y);
        }
    }
}

/// Within a token that ends before `b`, `a + b` reads like `a`.
proof fn lemma_token_prefix(a: Seq<char>, b: Seq<char>)
    requires
        a.len() > 0,
        !is_ws(a[0]),
        seam(a, b),
    ensures
        nonws_run(a + b) == nonws_run(a),
        (a + b).take(nonws_run(a) as int) == a.take(nonws_run(a) as int),
        (a + b).skip(nonws_run(a) as int) == a.skip(nonws_run(a) as int) + b,
        seam(a.skip(nonws_run(a) as int), b),
{
    lemma_nonws_run(a);
    let k = nonws_run(a) as int;
    if k == a.len() && b.len() > 0 {
        assert(!is_ws(a[a.len() - 1]));
    }
    lemma_nonws_run_concat(a, b);
    assert((a + b).take(k) =~= a.take(k));
    assert((a + b).skip(k) =~= a.skip(k) + b);
    if a.skip(k).len() > 0 {
        assert(a.skip(k).last() == a.last());
    }
}

pub proof fn lemma_tags_concat(a: Seq<char>, b: Seq<char>, c: char)
    requires
        seam(a, b),
        !is_ws(c),
    ensures
        tags(a + b, c) == tags(a, c) + tags(b, c),
    decreases a.len(),
{
    if a.len() == 0 {
        assert(a + b =~= b);
        assert(tags(a, c) =~= Seq::<Seq<char>>::empty());
        assert(tags(a, c) + tags(b, c) =~= tags(b, c));
    } else {
        let s = a + b;
        if a[0] == c && a.len() >= 2 && !is_ws(a[1]) {
            let d = a.drop_first();
            assert(s.drop_first() =~= d + b);
            if d.len() > 0 {
                assert(d.last() == a.last());
            }
            lemma_token_prefix(d, b);
            lemma_nonws_run(d);
            let k = 1 + nonws_run(d);
            assert(k <= a.len());
            assert(s.take(k as int) =~= a.take(k as int)) by {
                assert(s.take(k as int) =~= seq![c] + (d + b).take(k - 1));
                assert(a.take(k as int) =~= seq![c] + d.take(k - 1));
            }
            assert(s.skip(k as int) =~= a.skip(k as int) + b) by {
                assert(s.skip(k as int) =~= (d + b).skip(k - 1));
                assert(a.skip(k as int) =~= d.skip(k - 1));
            }
            assert(a.skip(k as int) =~= d.skip(k - 1));
            lemma_tags_concat(a.skip(k as int), b, c);
            assert(tags(a, c) == seq![a.take(k as int)] + tags(a.skip(k as int), c));
            assert(tags(s, c) == seq![s.take(k as int)] + tags(s.skip(k as int), c));
            assert(tags(s, c) =~= tags(a, c) + tags(b, c));
        } else if a[0] == c && a.len() == 1 {
            assert(s.drop_first() =~= b);
            assert(a.drop_first() =~= Seq::<char>::empty());
            assert(tags(a, c) == tags(Seq::<char>::empty(), c));
            assert(tags(a, c) + tags(b, c) =~= tags(b, c));
        } else {
            assert(s.drop_first() =~= a.drop_first() + b);
            if a.drop_first().len() > 0 {
                assert(a.drop_first().last() == a.last());
            }
            lemma_tags_concat(a.drop_first(), b, c);
        }
    }
}

pub proof fn lemma_kv_scan_concat(m: Seq<(Seq<char>, Seq<char>)>, a: Seq<char>, b: Seq<char>)
    requires
        seam(a, b),
    ensures
        kv_scan(m, a + b) == kv_scan(kv_scan(m, a), b),
    decreases a.len(),
{
    if a.len() == 0 {
        assert(a + b =~= b);
    } else {
        let s = a + b;
        if is_ws(a[0]) {
            assert(s.drop_first() =~= a.drop_first() + b);
            if a.drop_first().len() > 0 {
                assert(a.drop_first().last() == a.last());
            }
            lemma_kv_scan_concat(m, a.drop_first(), b);
        } else {
            lemma_token_prefix(a, b);
            lemma_nonws_run(a);
            let k = nonws_run(a) as int;
            assert(k >= 1);
            let tok = a.take(k);
            let m2 = if kv_split(tok) >= 0 {
                crate::kv::kv_insert(m, tok.take(kv_split(tok)), tok.skip(kv_split(tok) + 1))
            } else {
                m
            };
            lemma_kv_scan_concat(m2, a.skip(k), b);
        }
    }
}

pub proof fn lemma_strip_concat(a: Seq<char>, b: Seq<char>)
    requires
        seam(a, b),
    ensures
        strip(a + b) == strip(a) + strip(b),
    decreases a.len(),
{
    if a.len() == 0 {
        assert(a + b =~= b);
        assert(strip(a) + strip(b) =~= strip(b));
    } else {
        let s = a + b;
        if is_ws(a[0]) {
            assert(s.drop_first() =~= a.drop_first() + b);
            if a.drop_first().len() > 0 {
                assert(a.drop_first().last() == a.last());
            }
            lemma_strip_concat(a.drop_first(), b);
            assert(strip(s) =~= strip(a) + strip(b));
        } else {
            lemma_token_prefix(a, b);
            lemma_nonws_run(a);
            let k = nonws_run(a) as int;
            assert(k >= 1);
            lemma_strip_concat(a.skip(k), b);
            assert(strip(s) =~= strip(a) + strip(b));
        }
    }
}

pub open spec fn all_ws(s: Seq<char>) -> bool {
    forall|i: int| 0 <= i < s.len() ==> is_ws(#[trigger] s[i])
}

proof fn lemma_ws_only(m: Seq<(Seq<char>, Seq<char>)>, w: Seq<char>, c: char)
    requires
        all_ws(w),
        !is_ws(c),
    ensures
        kv_scan(m, w) == m,
        strip(w) == w,
        tags(w, c) == Seq::<Seq<char>>::empty(),
    decreases w.len(),
{
    if w.len() > 0 {
        assert(is_ws(w[0]));
        assert(all_ws(w.drop_first())) by {
            assert forall|i: int| 0 <= i < w.drop_first().len() implies is_ws(#[trigger] w.drop_first()[i]) by {
                assert(w.drop_first()[i] == w[i + 1]);
            }
        }
        lemma_ws_only(m, w.drop_first(), c);
        assert(strip(w) =~= w);
    }
}

/// Text without `key:value` tokens: scanning it adds no attribute and
/// stripping it changes nothing.
pub open spec fn plain(s: Seq<char>) -> bool {
    &&& strip(s) == s
    &&& forall|m: Seq<(Seq<char>, Seq<char>)>| #[trigger] kv_scan(m, s) == m
}

proof fn lemma_strip_plain(s: Seq<char>)
    ensures
        plain(strip(s)),
    decreases s.len(),
{
    if s.len() == 0 {
        assert(strip(s) =~= s);
    } else if is_ws(s[0]) {
        let r = s.drop_first();
        lemma_strip_plain(r);
        let w = seq![s[0]];
        assert(strip(s) == w + strip(r));
        lemma_strip_concat(w, strip(r));
        assert(strip(w) =~= w) by {
            assert(w.drop_first() =~= Seq::<char>::empty());
            assert(is_ws(w[0]));
            assert(strip(Seq::<char>::empty()) =~= Seq::<char>::empty());
            assert(strip(w) == seq![w[0]] + strip(w.drop_first()));
        }
        assert forall|m: Seq<(Seq<char>, Seq<char>)>| #[trigger] kv_scan(m, strip(s)) == m by {
            lemma_kv_scan_concat(m, w, strip(r));
            assert(w.drop_first() =~= Seq::<char>::empty());
            assert(is_ws(w[0]));
            assert(kv_scan(m, w) == kv_scan(m, Seq::<char>::empty()));
            assert(kv_scan(m, w) == m);
        }
    } else {
        lemma_nonws_run(s);
        let k = nonws_run(s) as int;
        let tok = s.take(k);
        let r = s.skip(k);
        lemma_strip_plain(r);
        let piece: Seq<char> = if kv_split(tok) >= 0 {
            Seq::empty()
        } else {
            tok
        };
        assert(strip(s) == piece + strip(r));
        // strip(r) starts with white space or is empty.
        if r.len() > 0 {
            assert(is_ws(r[0]));
        }
        lemma_strip_first_ws(r);
        if piece.len() > 0 {
            lemma_strip_concat(piece, strip(r));
            lemma_token_whole(tok);
            assert forall|m: Seq<(Seq<char>, Seq<char>)>| #[trigger] kv_scan(m, strip(s)) == m by {
                lemma_kv_scan_concat(m, piece, strip(r));
            }
        } else {
            assert(piece + strip(r) =~= strip(r));
        }
    }
}

/// Stripping keeps a leading white-space character in front.
proof fn lemma_strip_first_ws(r: Seq<char>)
    requires
        r.len() == 0 || is_ws(r[0]),
    ensures
        strip(r).len() == 0 || is_ws(strip(r)[0]),
{
    if r.len() > 0 {
        assert(strip(r) == seq![r[0]] + strip(r.drop_first()));
    }
}

/// A whole token without a split colon is plain.
proof fn lemma_token_whole(tok: Seq<char>)
    requires
        tok.len() > 0,
        forall|i: int| 0 <= i < tok.len() ==> !is_ws(#[trigger] tok[i]),
        kv_split(tok) < 0,
    ensures
        plain(tok),
{
    lemma_nonws_run_exact(tok, tok.len() as int);
    assert(!is_ws(tok[0]));
    assert(tok.take(tok.len() as int) =~= tok);
    assert(tok.skip(tok.len() as int) =~= Seq::<char>::empty());
    assert(strip(Seq::<char>::empty()) =~= Seq::<char>::empty());
    assert(strip(tok) == tok + strip(Seq::<char>::empty()));
    assert(strip(tok) =~= tok);
    assert forall|m: Seq<(Seq<char>, Seq<char>)>| #[trigger] kv_scan(m, tok) == m by {
        assert(kv_scan(m, tok) == kv_scan(m, Seq::<char>::empty()));
    }
}

/// Leading and trailing white space of a text.
proof fn lemma_trim_parts(x: Seq<char>)
    ensures
        x == x.take(ws_run(x) as int) + trim(x) + x.skip(x.len() - ws_tail(x)) || ws_run(x) == x.len(),
        all_ws(x.take(ws_run(x) as int)),
        ws_run(x) < x.len() ==> all_ws(x.skip(x.len() - ws_tail(x))),
        ws_run(x) == x.len() ==> all_ws(x),
        ws_run(x) < x.len() ==> trim(x).len() > 0 && !is_ws(trim(x)[0]) && !is_ws(trim(x).last()),
        ws_run(x) < x.len() ==> ws_run(x) + ws_tail(x) < x.len(),
        ws_run(x) <= x.len(),
{
    lemma_ws_run(x);
    lemma_ws_tail(x);
    let a = ws_run(x) as int;
    let b = ws_tail(x) as int;
    assert forall|i: int| 0 <= i < x.take(a).len() implies is_ws(#[trigger] x.take(a)[i]) by {
        assert(x.take(a)[i] == x[i]);
    }
    if a < x.len() {
        assert(!is_ws(x[a]));
        if a + b >= x.len() {
            assert(is_ws(x[a]));
        }
        assert(x =~= x.take(a) + trim(x) + x.skip(x.len() - b));
        assert forall|i: int| 0 <= i < x.skip(x.len() - b).len() implies is_ws(#[trigger] x.skip(x.len() - b)[i]) by {
            assert(x.skip(x.len() - b)[i] == x[x.len() - b + i]);
        }
        assert(trim(x)[0] == x[a]);
        assert(trim(x).last() == x[x.len() - b - 1]);
    } else {
        assert forall|i: int| 0 <= i < x.len() implies is_ws(#[trigger] x[i]) by {}
    }
}

/// Trimming plain text leaves it plain.
proof fn lemma_trim_plain(x: Seq<char>)
    requires
        plain(x),
    ensures
        plain(trim(x)),
{
    lemma_trim_parts(x);
    let a = ws_run(x) as int;
    if a == x.len() {
        assert(trim(x) =~= Seq::<char>::empty());
        assert(strip(trim(x)) =~= trim(x));
        assert forall|m: Seq<(Seq<char>, Seq<char>)>| #[trigger] kv_scan(m, trim(x)) == m by {}
    } else {
        let lead = x.take(a);
        let t = trim(x);
        let tail = x.skip(x.len() - ws_tail(x));
        assert(a < x.len());
        assert(ws_run(x) < x.len());
        assert(all_ws(tail));
        assert(seam(lead, t + tail));
        assert(seam(t, tail));
        lemma_ws_only(Seq::empty(), lead, '+');
        lemma_ws_only(Seq::empty(), tail, '+');
        lemma_strip_concat(lead, t + tail);
        lemma_strip_concat(t, tail);
        assert(lead + (t + tail) =~= x);
        assert(strip(x) == lead + (strip(t) + tail));
        assert(strip(t).len() == t.len());
        assert(strip(t) =~= t) by {
            assert(lead + (strip(t) + tail) =~= lead + (t + tail));
            assert forall|i: int| 0 <= i < t.len() implies strip(t)[i] == t[i] by {
                assert((lead + (strip(t) + tail))[lead.len() + i] == strip(t)[i]);
                assert((lead + (t + tail))[lead.len() + i] == t[i]);
            }
        }
        assert forall|m: Seq<(Seq<char>, Seq<char>)>| #[trigger] kv_scan(m, t) == m by {
            lemma_ws_only(m, lead, '+');
            lemma_kv_scan_concat(m, lead, t + tail);
            lemma_kv_scan_concat(m, t, tail);
            lemma_ws_only(kv_scan(m, t), tail, '+');
            assert(kv_scan(m, x) == m);
        }
    }
}

pub open spec fn no_ws(s: Seq<char>) -> bool {
    forall|i: int| 0 <= i < s.len() ==> !is_ws(#[trigger] s[i])
}

/// An attribute as reading a `key:value` token gives it: both parts
/// without white space, and no colon in the value before its last
/// character.
pub open spec fn entry_ok(e: (Seq<char>, Seq<char>)) -> bool {
    &&& e.0.len() > 0
    &&& e.1.len() > 0
    &&& no_ws(e.0)
    &&& no_ws(e.1)
    &&& forall|i: int| 0 <= i < e.1.len() - 1 ==> #[trigger] e.1[i] != ':'
}

proof fn lemma_colon_search(tok: Seq<char>, k: int, j: int)
    requires
        1 <= k <= j,
        j < tok.len(),
        tok[k] == ':',
        forall|i: int| k < i <= j ==> #[trigger] tok[i] != ':',
    ensures
        colon_at_or_before(tok, j) == k,
    decreases j,
{
    if j > k {
        lemma_colon_search(tok, k, j - 1);
    }
}

proof fn lemma_split_token(e: (Seq<char>, Seq<char>))
    requires
        entry_ok(e),
    ensures
        kv_split(attr_token(e)) == e.0.len(),
        attr_token(e).take(e.0.len() as int) == e.0,
        attr_token(e).skip(e.0.len() as int + 1) == e.1,
        no_ws(attr_token(e)),
        attr_token(e).len() > 0,
{
    let tok = attr_token(e);
    let k = e.0.len() as int;
    assert(tok[k] == ':');
    assert forall|i: int| k < i <= tok.len() - 2 implies #[trigger] tok[i] != ':' by {
        assert(tok[i] == e.1[i - k - 1]);
    }
    lemma_colon_search(tok, k, tok.len() - 2);
    assert(tok.take(k) =~= e.0);
    assert(tok.skip(k + 1) =~= e.1);
    assert forall|i: int| 0 <= i < tok.len() implies !is_ws(#[trigger] tok[i]) by {
        if i < k {
            assert(tok[i] == e.0[i]);
        } else if i > k {
            assert(tok[i] == e.1[i - k - 1]);
        }
    }
}

/// Inserting pairs one after the other.
pub open spec fn fold_insert(m: Seq<(Seq<char>, Seq<char>)>, ps: Seq<(Seq<char>, Seq<char>)>) -> Seq<(Seq<char>, Seq<char>)>
    decreases ps.len(),
{
    if ps.len() == 0 {
        m
    } else {
        kv_insert(fold_insert(m, ps.drop_last()), ps.last().0, ps.last().1)
    }
}

pub open spec fn tokens_of(ps: Seq<(Seq<char>, Seq<char>)>) -> Seq<Seq<char>> {
    ps.map_values(|e: (Seq<char>, Seq<char>)| attr_token(e))
}

proof fn lemma_scan_token(m: Seq<(Seq<char>, Seq<char>)>, e: (Seq<char>, Seq<char>))
    requires
        entry_ok(e),
    ensures
        kv_scan(m, attr_token(e)) == kv_insert(m, e.0, e.1),
{
    let tok = attr_token(e);
    lemma_split_token(e);
    lemma_nonws_run_exact(tok, tok.len() as int);
    assert(!is_ws(tok[0]));
    assert(tok.take(tok.len() as int) =~= tok);
    assert(tok.skip(tok.len() as int) =~= Seq::<char>::empty());
    assert(kv_scan(m, tok) == kv_scan(kv_insert(m, e.0, e.1), Seq::<char>::empty()));
}

proof fn lemma_join_last(ts: Seq<Seq<char>>)
    requires
        ts.len() >= 1,
    ensures
        ts.len() == 1 ==> join(ts) == ts[0],
        ts.len() > 1 ==> join(ts) == join(ts.drop_last()) + (seq![' '] + ts.last()),
{
    if ts.len() > 1 {
        assert(join(ts) == join(ts.drop_last()) + seq![' '] + ts.last());
        assert(join(ts.drop_last()) + seq![' '] + ts.last() =~= join(ts.drop_last()) + (seq![' '] + ts.last()));
    }
}

proof fn lemma_scan_tokens(m: Seq<(Seq<char>, Seq<char>)>, ps: Seq<(Seq<char>, Seq<char>)>)
    requires
        forall|i: int| 0 <= i < ps.len() ==> entry_ok(#[trigger] ps[i]),
    ensures
        kv_scan(m, join(tokens_of(ps))) == fold_insert(m, ps),
    decreases ps.len(),
{
    let ts = tokens_of(ps);
    if ps.len() == 0 {
        assert(ts.len() == 0);
        assert(join(ts) =~= Seq::<char>::empty());
        assert(kv_scan(m, Seq::<char>::empty()) == m);
    } else {
        let dl = ps.drop_last();
        assert(tokens_of(dl) =~= ts.drop_last());
        assert(forall|i: int| 0 <= i < dl.len() ==> entry_ok(#[trigger] dl[i])) by {
            assert forall|i: int| 0 <= i < dl.len() implies entry_ok(#[trigger] dl[i]) by {
                assert(dl[i] == ps[i]);
            }
        }
        assert(entry_ok(ps[ps.len() - 1]));
        lemma_join_last(ts);
        lemma_split_token(ps.last());
        assert(ts.last() == attr_token(ps.last()));
        if ps.len() == 1 {
            assert(dl =~= Seq::<(Seq<char>, Seq<char>)>::empty());
            assert(fold_insert(m, dl) == m);
            assert(join(ts) == ts[0]);
            lemma_scan_token(m, ps.last());
        } else {
            lemma_scan_tokens(m, dl);
            let w = seq![' '] + ts.last();
            lemma_kv_scan_concat(m, join(ts.drop_last()), w);
            let x = kv_scan(m, join(ts.drop_last()));
            assert(w.drop_first() =~= ts.last());
            assert(kv_scan(x, w) == kv_scan(x, ts.last()));
            lemma_scan_token(x, ps.last());
        }
    }
}

/// Inserting pairs with distinct keys into an empty map gives them back.
proof fn lemma_fold_unique(ps: Seq<(Seq<char>, Seq<char>)>)
    requires
        unique_keys(ps),
    ensures
        fold_insert(Seq::empty(), ps) == ps,
    decreases ps.len(),
{
    if ps.len() > 0 {
        let dl = ps.drop_last();
        assert(unique_keys(dl)) by {
            assert forall|i: int, j: int| 0 <= i < dl.len() && 0 <= j < dl.len() && (#[trigger] dl[i]).0 == (#[trigger] dl[j]).0 implies i == j by {
                assert(dl[i] == ps[i] && dl[j] == ps[j]);
            }
        }
        lemma_fold_unique(dl);
        let last = ps.last();
        assert forall|j: int| 0 <= j < dl.len() implies (#[trigger] dl[j]).0 != last.0 by {
            assert(dl[j] == ps[j]);
            assert(ps[ps.len() - 1] == last);
        }
        lemma_find_key_none(dl, last.0);
        assert(dl.push(last) =~= ps);
    }
}

proof fn lemma_trim_id(s: Seq<char>)
    requires
        s.len() > 0,
        !is_ws(s[0]),
        !is_ws(s.last()),
    ensures
        trim(s) == s,
{
    assert(ws_run(s) == 0);
    assert(ws_tail(s) == 0);
    assert(s.subrange(0, s.len() as int) =~= s);
}

proof fn lemma_trim_ws_tail(t: Seq<char>, w: Seq<char>)
    requires
        t.len() > 0,
        !is_ws(t[0]),
        !is_ws(t.last()),
        all_ws(w),
    ensures
        trim(t + w) == t,
{
    let s = t + w;
    assert(ws_run(s) == 0) by {
        assert(s[0] == t[0]);
    }
    assert forall|i: int| s.len() - w.len() <= i < s.len() implies is_ws(#[trigger] s[i]) by {
        assert(s[i] == w[i - t.len()]);
    }
    assert(s[s.len() - w.len() - 1] == t.last());
    crate::text::lemma_ws_tail_exact(s, w.len() as int);
    assert(s.subrange(0, s.len() - w.len()) =~= t);
}

pub open spec fn free_of(s: Seq<char>, c: char) -> bool {
    forall|i: int| 0 <= i < s.len() ==> #[trigger] s[i] != c
}

proof fn lemma_tags_free(s: Seq<char>, c: char)
    requires
        free_of(s, c),
    ensures
        tags(s, c) == Seq::<Seq<char>>::empty(),
    decreases s.len(),
{
    if s.len() > 0 {
        assert(s[0] != c);
        assert(free_of(s.drop_first(), c)) by {
            assert forall|i: int| 0 <= i < s.drop_first().len() implies #[trigger] s.drop_first()[i] != c by {
                assert(s.drop_first()[i] == s[i + 1]);
            }
        }
        lemma_tags_free(s.drop_first(), c);
    }
}

proof fn lemma_join_free(ts: Seq<Seq<char>>, c: char)
    requires
        c != ' ',
        forall|i: int| 0 <= i < ts.len() ==> free_of(#[trigger] ts[i], c),
    ensures
        free_of(join(ts), c),
    decreases ts.len(),
{
    if ts.len() > 1 {
        let dl = ts.drop_last();
        assert forall|i: int| 0 <= i < dl.len() implies free_of(#[trigger] dl[i], c) by {
            assert(dl[i] == ts[i]);
        }
        lemma_join_free(dl, c);
        let j = join(ts);
        assert(j == join(dl) + seq![' '] + ts.last());
        assert(free_of(ts[ts.len() - 1], c));
        assert forall|i: int| 0 <= i < j.len() implies #[trigger] j[i] != c by {
            if i < join(dl).len() {
                assert(j[i] == join(dl)[i]);
            } else if i > join(dl).len() {
                assert(j[i] == ts.last()[i - join(dl).len() - 1]);
            }
        }
    } else if ts.len() == 1 {
        assert(free_of(ts[0], c));
    }
}

proof fn lemma_strip_tokens(ps: Seq<(Seq<char>, Seq<char>)>)
    requires
        forall|i: int| 0 <= i < ps.len() ==> entry_ok(#[trigger] ps[i]),
    ensures
        all_ws(strip(join(tokens_of(ps)))),
    decreases ps.len(),
{
    let ts = tokens_of(ps);
    if ps.len() == 0 {
        assert(join(ts) =~= Seq::<char>::empty());
    } else {
        let dl = ps.drop_last();
        assert(tokens_of(dl) =~= ts.drop_last());
        assert forall|i: int| 0 <= i < dl.len() implies entry_ok(#[trigger] dl[i]) by {
            assert(dl[i] == ps[i]);
        }
        assert(entry_ok(ps[ps.len() - 1]));
        lemma_join_last(ts);
        lemma_split_token(ps.last());
        assert(ts.last() == attr_token(ps.last()));
        let tok = ts.last();
        // a single token is taken out whole
        lemma_nonws_run_exact(tok, tok.len() as int);
        assert(!is_ws(tok[0]));
        assert(tok.take(tok.len() as int) =~= tok);
        assert(tok.skip(tok.len() as int) =~= Seq::<char>::empty());
        assert(strip(tok) == Seq::<char>::empty() + strip(Seq::<char>::empty()));
        assert(strip(tok) =~= Seq::<char>::empty());
        if ps.len() == 1 {
            assert(join(ts) == ts[0]);
        } else {
            lemma_strip_tokens(dl);
            let w = seq![' '] + tok;
            lemma_strip_concat(join(ts.drop_last()), w);
            assert(w.drop_first() =~= tok);
            assert(strip(w) == seq![' '] + strip(tok));
            let r = strip(join(ts));
            assert(r == strip(join(ts.drop_last())) + seq![' ']);
            assert forall|i: int| 0 <= i < r.len() implies is_ws(#[trigger] r[i]) by {
                if i < strip(join(ts.drop_last())).len() {
                    assert(r[i] == strip(join(ts.drop_last()))[i]);
                }
            }
        }
    }
}

/// Parts each followed by a space.
pub open spec fn spaced(ps: Seq<Seq<char>>) -> Seq<char>
    decreases ps.len(),
{
    if ps.len() == 0 {
        Seq::empty()
    } else {
        spaced(ps.drop_last()) + ps.last() + seq![' ']
    }
}

proof fn lemma_join_spaced(ps: Seq<Seq<char>>, t: Seq<char>)
    ensures
        join(ps.push(t)) == spaced(ps) + t,
    decreases ps.len(),
{
    let q = ps.push(t);
    assert(q.drop_last() =~= ps);
    if ps.len() == 0 {
        assert(spaced(ps) + t =~= t);
    } else {
        lemma_join_spaced(ps.drop_last(), ps.last());
        assert(ps.drop_last().push(ps.last()) =~= ps);
        assert(join(q) == join(ps) + seq![' '] + t);
        assert(spaced(ps) + t =~= spaced(ps.drop_last()) + ps.last() + seq![' '] + t);
    }
}

proof fn lemma_mark_prefix(t: Seq<char>, rest: Seq<char>)
    requires
        t.len() > 0,
        rest.len() > 0,
        rest[0] == ' ',
    ensures
        priority_mark(t + rest, 0) == priority_mark(t, 0),
        has_done_mark(t + rest) == has_done_mark(t + seq![' ']),
        is_date_shape(t + rest) ==> is_date_shape(t),
{
    let s = t + rest;
    assert(s[0] == t[0]);
    if t.len() >= 2 {
        assert(s[1] == t[1]);
    } else {
        assert(s[1] == ' ');
    }
    assert((t + seq![' '])[0] == t[0]);
    if t.len() >= 2 {
        assert((t + seq![' '])[1] == t[1]);
    } else {
        assert((t + seq![' '])[1] == ' ');
    }
    if t.len() >= 3 {
        assert(s[2] == t[2]);
        assert(s[1] == t[1]);
    } else if t.len() == 2 {
        assert(s[2] == ' ');
    }
    if t.len() < 10 && s.len() > t.len() {
        // the space after the description breaks the date's shape
        assert(s[t.len() as int] == ' ');
    }
    if t.len() >= 10 {
        assert(forall|i: int| 0 <= i < 10 ==> s[i] == t[i]);
    }
}

proof fn lemma_spaced_concat(a: Seq<Seq<char>>, b: Seq<Seq<char>>)
    ensures
        spaced(a + b) == spaced(a) + spaced(b),
    decreases b.len(),
{
    if b.len() == 0 {
        assert(a + b =~= a);
        assert(spaced(a) + spaced(b) =~= spaced(a));
    } else {
        assert((a + b).drop_last() =~= a + b.drop_last());
        lemma_spaced_concat(a, b.drop_last());
        assert(spaced(a + b) =~= spaced(a) + spaced(b));
    }
}

proof fn lemma_spaced_one(x: Seq<char>)
    ensures
        spaced(seq![x]) == x + seq![' '],
{
    assert(seq![x].drop_last() =~= Seq::<Seq<char>>::empty());
    assert(seq![x].last() == x);
    assert(spaced(Seq::<Seq<char>>::empty()) == Seq::<char>::empty());
    assert(spaced(seq![x]) == spaced(Seq::<Seq<char>>::empty()) + x + seq![' ']);
    assert(spaced(seq![x]) =~= x + seq![' ']);
}

proof fn lemma_mark_at(x: Seq<char>, y: Seq<char>)
    ensures
        priority_mark(x + y, x.len() as int) == priority_mark(y, 0),
{
    let s = x + y;
    let p = x.len() as int;
    if p + 3 <= s.len() {
        assert(s[p] == y[0] && s[p + 1] == y[1] && s[p + 2] == y[2]);
    }
}

proof fn lemma_ws_run_one(x: Seq<char>)
    requires
        x.len() > 0,
        !is_ws(x[0]),
    ensures
        ws_run(x) == 0,
        ws_run(seq![' '] + x) == 1,
{
    let s = seq![' '] + x;
    assert(s.drop_first() =~= x);
}

/// The identifier's text reads back as the identifier and holds only
/// hex digits and hyphens.
pub open spec fn id_text_ok(v: u128) -> bool {
    let t = uuid_text_of(v);
    &&& t.len() > 0
    &&& forall|i: int| 0 <= i < t.len() ==> is_uuid_char(#[trigger] t[i])
    &&& uuid_parse_of(t) == Some(v)
}

/// What every record read from a line satisfies: its description holds
/// no attribute and, when not empty, starts and ends with a character
/// that is not white space; its attributes are as reading gives them,
/// with distinct keys and none of the reserved `id` and `pri`; its
/// priority is a capital; its dates have four-digit years, and a
/// completion date comes with a creation date.
pub open spec fn parsed_shape(m: TodoModel) -> bool {
    &&& plain(m.task)
    &&& m.task.len() > 0 ==> !is_ws(m.task[0]) && !is_ws(m.task.last())
    &&& unique_keys(m.key_values)
    &&& forall|i: int|
        0 <= i < m.key_values.len() ==> {
            let e = #[trigger] m.key_values[i];
            &&& entry_ok(e)
            &&& e.0 != id_key() && e.0 != pri_key()
        }
    &&& m.priority is Some ==> is_upper(m.priority->0)
    &&& m.created_at is Some ==> m.created_at->0.valid() && 0 <= m.created_at->0.year <= 9999
    &&& m.completed_at is Some ==> m.completed_at->0.valid() && 0 <= m.completed_at->0.year
        <= 9999
    &&& m.completed_at is Some ==> m.created_at is Some
}

/// What a record read from a line needs so that its line, written and
/// read again, gives it back: a description that carries all its tags and
/// does not begin like a mark or a date where one could stand, attributes
/// without tag signs, and an identifier whose text reads back.
pub open spec fn round_trip_safe(m: TodoModel) -> bool {
    &&& m.task.len() > 0
    &&& m.projects == tags(m.task, '+')
    &&& m.contexts == tags(m.task, '@')
    &&& forall|i: int|
        0 <= i < m.key_values.len() ==> {
            let e = #[trigger] m.key_values[i];
            free_of(e.0, '+') && free_of(e.1, '+') && free_of(e.0, '@') && free_of(e.1, '@')
        }
    &&& (m.is_complete || m.priority is None) && m.created_at is None ==> priority_mark(m.task, 0) is None
    &&& !m.is_complete && m.priority is None && m.created_at is None ==> !has_done_mark(m.task + seq![' '])
    &&& m.completed_at is None ==> !is_date_shape(m.task)
    &&& id_text_ok(m.id)
}

pub open spec fn round_trips(m: TodoModel) -> bool {
    parsed_shape(m) && round_trip_safe(m)
}

/// The attributes a written record carries: its own, then its priority
/// when complete, then its identifier.
pub open spec fn attr_pairs(m: TodoModel) -> Seq<(Seq<char>, Seq<char>)> {
    m.key_values + (if m.is_complete && m.priority is Some {
        seq![(pri_key(), seq![m.priority->0])]
    } else {
        Seq::empty()
    }) + seq![(id_key(), uuid_text_of(m.id))]
}

proof fn lemma_uuid_text(v: u128)
    requires
        id_text_ok(v),
    ensures
        no_ws(uuid_text_of(v)),
        free_of(uuid_text_of(v), ':'),
        free_of(uuid_text_of(v), '+'),
        free_of(uuid_text_of(v), '@'),
{
    let t = uuid_text_of(v);
    assert forall|i: int| 0 <= i < t.len() implies !is_ws(#[trigger] t[i]) && t[i] != ':' && t[i] != '+' && t[i] != '@' by {
        assert(is_uuid_char(t[i]));
    }
}

proof fn lemma_attr_part(m: TodoModel)
    requires
        round_trips(m),
    ensures
        ({
            let a = join(attr_tokens(m));
            &&& a.len() > 0 && !is_ws(a[0]) && !is_ws(a.last())
            &&& kv_scan(Seq::empty(), a) == attr_pairs(m)
            &&& all_ws(strip(a))
            &&& free_of(a, '+') && free_of(a, '@')
        }),
        kv_get(attr_pairs(m), id_key()) == Some(uuid_text_of(m.id)),
        kv_get(attr_pairs(m), pri_key()) == (if m.is_complete && m.priority is Some {
            Some(seq![m.priority->0])
        } else {
            None::<Seq<char>>
        }),
        kv_remove(kv_remove(attr_pairs(m), id_key()), pri_key()) == m.key_values,
{
    let ps = attr_pairs(m);
    let kvs = m.key_values;
    let n = kvs.len() as int;
    let has_pri = m.is_complete && m.priority is Some;
    let ut = uuid_text_of(m.id);
    lemma_uuid_text(m.id);
    assert(tokens_of(ps) =~= attr_tokens(m)) by {
        assert forall|i: int| 0 <= i < ps.len() implies tokens_of(ps)[i] == attr_tokens(m)[i] by {
            if i < n {
                assert(ps[i] == kvs[i]);
            } else if has_pri && i == n {
                assert(attr_token(ps[i]) =~= pri_key() + seq![':', m.priority->0]);
            } else {
                assert(attr_token(ps[i]) =~= id_key() + seq![':'] + ut);
            }
        }
    }
    // every pair is as reading gives it
    assert forall|i: int| 0 <= i < ps.len() implies entry_ok(#[trigger] ps[i]) && free_of(attr_token(ps[i]), '+') && free_of(attr_token(ps[i]), '@') by {
        if i < n {
            assert(ps[i] == kvs[i]);
            let e = kvs[i];
            assert forall|q: int| 0 <= q < attr_token(e).len() implies #[trigger] attr_token(e)[q] != '+' && attr_token(e)[q] != '@' by {
                if q < e.0.len() {
                    assert(attr_token(e)[q] == e.0[q]);
                } else if q > e.0.len() {
                    assert(attr_token(e)[q] == e.1[q - e.0.len() - 1]);
                }
            }
        } else if has_pri && i == n {
            let p = m.priority->0;
            assert(ps[i] == (pri_key(), seq![p]));
            assert(no_ws(pri_key()));
            assert(no_ws(seq![p])) by {
                assert(seq![p][0] == p);
            }
            assert(attr_token(ps[i]) =~= seq!['p', 'r', 'i', ':', p]);
        } else {
            assert(ps[i] == (id_key(), ut));
            assert(no_ws(id_key()));
            assert(attr_token(ps[i]) =~= seq!['i', 'd', ':'] + ut);
            assert forall|q: int| 0 <= q < attr_token(ps[i]).len() implies #[trigger] attr_token(ps[i])[q] != '+' && attr_token(ps[i])[q] != '@' by {
                if q >= 3 {
                    assert(attr_token(ps[i])[q] == ut[q - 3]);
                }
            }
        }
    }
    // keys are distinct
    assert(unique_keys(ps)) by {
        assert forall|a: int, b: int| 0 <= a < ps.len() && 0 <= b < ps.len() && (#[trigger] ps[a]).0 == (#[trigger] ps[b]).0 implies a == b by {
            if a < n && b < n {
                assert(ps[a] == kvs[a] && ps[b] == kvs[b]);
            } else if a < n {
                assert(ps[a] == kvs[a]);
                assert(ps[b].0 == id_key() || ps[b].0 == pri_key());
            } else if b < n {
                assert(ps[b] == kvs[b]);
                assert(ps[a].0 == id_key() || ps[a].0 == pri_key());
            } else {
                assert(id_key() != pri_key()) by {
                    assert(id_key().len() != pri_key().len());
                }
            }
        }
    }
    lemma_scan_tokens(Seq::empty(), ps);
    lemma_fold_unique(ps);
    lemma_strip_tokens(ps);
    let ts = tokens_of(ps);
    assert forall|i: int| 0 <= i < ts.len() implies free_of(#[trigger] ts[i], '+') && free_of(ts[i], '@') by {
        assert(ts[i] == attr_token(ps[i]));
    }
    lemma_join_free(ts, '+');
    lemma_join_free(ts, '@');
    // first and last characters
    lemma_join_last(ts);
    assert(entry_ok(ps[ps.len() - 1]));
    lemma_split_token(ps.last());
    assert(ts.last() == attr_token(ps.last()));
    assert(ps.last() == (id_key(), ut));
    assert(attr_token(ps.last()).last() == ut.last());
    assert(!is_ws(ut.last()));
    lemma_join_first(ts);
    assert(entry_ok(ps[0]));
    lemma_split_token(ps[0]);
    assert(ts[0] == attr_token(ps[0]));
    assert(!is_ws(attr_token(ps[0])[0]));
    // looking up and removing the identifier and the priority
    let idx = ps.len() - 1;
    assert(first_key_at(ps, id_key(), idx)) by {
        assert forall|j: int| 0 <= j < idx implies (#[trigger] ps[j]).0 != id_key() by {
            if j < n {
                assert(ps[j] == kvs[j]);
            } else {
                assert(ps[j].0 == pri_key());
                assert(id_key().len() != pri_key().len());
            }
        }
    }
    lemma_find_key_is(ps, id_key(), idx);
    let r1 = kv_remove(ps, id_key());
    assert(r1 =~= ps.drop_last());
    if has_pri {
        assert(first_key_at(ps, pri_key(), n)) by {
            assert forall|j: int| 0 <= j < n implies (#[trigger] ps[j]).0 != pri_key() by {
                assert(ps[j] == kvs[j]);
            }
        }
        lemma_find_key_is(ps, pri_key(), n);
        assert(first_key_at(r1, pri_key(), n)) by {
            assert forall|j: int| 0 <= j < n implies (#[trigger] r1[j]).0 != pri_key() by {
                assert(r1[j] == kvs[j]);
            }
        }
        lemma_find_key_is(r1, pri_key(), n);
        assert(kv_remove(r1, pri_key()) =~= kvs);
    } else {
        assert forall|j: int| 0 <= j < ps.len() implies (#[trigger] ps[j]).0 != pri_key() by {
            if j < n {
                assert(ps[j] == kvs[j]);
            } else {
                assert(ps[j].0 == id_key());
                assert(id_key().len() != pri_key().len());
            }
        }
        lemma_find_key_none(ps, pri_key());
        assert forall|j: int| 0 <= j < r1.len() implies (#[trigger] r1[j]).0 != pri_key() by {
            assert(r1[j] == ps[j]);
        }
        lemma_find_key_none(r1, pri_key());
        assert(r1 =~= kvs);
    }
}

proof fn lemma_join_first(ts: Seq<Seq<char>>)
    requires
        ts.len() >= 1,
        ts[0].len() > 0,
    ensures
        join(ts).len() > 0,
        join(ts)[0] == ts[0][0],
    decreases ts.len(),
{
    if ts.len() > 1 {
        assert(ts.drop_last()[0] == ts[0]);
        lemma_join_first(ts.drop_last());
        assert(join(ts) == join(ts.drop_last()) + seq![' '] + ts.last());
    }
}

proof fn lemma_body(m: TodoModel)
    requires
        round_trips(m),
    ensures
        ({
            let t = m.task + seq![' '] + join(attr_tokens(m));
            &&& t.len() > 0
            &&& kv_scan(Seq::empty(), t) == attr_pairs(m)
            &&& trim(strip(t)) == m.task
            &&& tags(t, '+') == m.projects
            &&& tags(t, '@') == m.contexts
        }),
{
    let a = join(attr_tokens(m));
    lemma_attr_part(m);
    let w = seq![' '] + a;
    let task = m.task;
    let t = task + seq![' '] + a;
    assert(t =~= task + w);
    assert(seam(task, w));
    assert(w.drop_first() =~= a);
    // attributes
    lemma_kv_scan_concat(Seq::empty(), task, w);
    assert(kv_scan(Seq::empty(), task) == Seq::<(Seq<char>, Seq<char>)>::empty());
    assert(kv_scan(Seq::empty(), w) == kv_scan(Seq::empty(), a));
    // description
    lemma_strip_concat(task, w);
    assert(strip(w) == seq![' '] + strip(a));
    assert(strip(task) == task);
    let sw = seq![' '] + strip(a);
    assert(all_ws(sw)) by {
        assert forall|i: int| 0 <= i < sw.len() implies is_ws(#[trigger] sw[i]) by {
            if i > 0 {
                assert(sw[i] == strip(a)[i - 1]);
            }
        }
    }
    assert(strip(t) == task + sw);
    lemma_trim_ws_tail(task, sw);
    // tags
    lemma_tags_concat(task, w, '+');
    lemma_tags_concat(task, w, '@');
    lemma_tags_free(a, '+');
    lemma_tags_free(a, '@');
    assert(tags(w, '+') == tags(a, '+'));
    assert(tags(w, '@') == tags(a, '@'));
    assert(tags(task, '+') + Seq::<Seq<char>>::empty() =~= tags(task, '+'));
    assert(tags(task, '@') + Seq::<Seq<char>>::empty() =~= tags(task, '@'));
}

pub open spec fn mark_parts(m: TodoModel) -> Seq<Seq<char>> {
    if m.is_complete {
        seq![seq!['x']]
    } else if m.priority is Some {
        seq![seq!['(', m.priority->0, ')']]
    } else {
        Seq::empty()
    }
}

pub open spec fn date_parts(m: TodoModel) -> Seq<Seq<char>> {
    (if m.completed_at is Some {
        seq![iso_text(m.completed_at->0)]
    } else {
        Seq::empty()
    }) + (if m.created_at is Some {
        seq![iso_text(m.created_at->0)]
    } else {
        Seq::empty()
    })
}

pub open spec fn body(m: TodoModel) -> Seq<char> {
    m.task + seq![' '] + join(attr_tokens(m))
}

/// The written line: marks, dates, then the description and attributes.
proof fn lemma_line_shape(m: TodoModel)
    requires
        round_trips(m),
    ensures
        serialize_model(m) == spaced(mark_parts(m)) + (spaced(date_parts(m)) + body(m)),
{
    let hp = head_parts(m.is_complete, m.created_at, m.completed_at, m.task, m.priority);
    assert(hp =~= (mark_parts(m) + date_parts(m)).push(m.task));
    lemma_join_spaced(mark_parts(m) + date_parts(m), m.task);
    lemma_spaced_concat(mark_parts(m), date_parts(m));
    let a = join(attr_tokens(m));
    lemma_attr_part(m);
    let s0 = join(hp) + seq![' '] + a;
    let mt = spaced(mark_parts(m));
    let dt = spaced(date_parts(m));
    assert(s0 =~= mt + (dt + body(m)));
    // the line starts and ends with a character that is not white space
    if m.is_complete {
        lemma_spaced_one(seq!['x']);
    } else if m.priority is Some {
        lemma_spaced_one(seq!['(', m.priority->0, ')']);
    } else {
        assert(mt =~= Seq::<char>::empty());
    }
    if m.completed_at is Some {
        lemma_iso_round_trip(m.completed_at->0, Seq::empty());
        lemma_spaced_concat(seq![iso_text(m.completed_at->0)], seq![iso_text(m.created_at->0)]);
        lemma_spaced_one(iso_text(m.completed_at->0));
        lemma_spaced_one(iso_text(m.created_at->0));
        assert(date_parts(m) =~= seq![iso_text(m.completed_at->0)] + seq![iso_text(m.created_at->0)]);
        assert(dt[0] == iso_text(m.completed_at->0)[0]);
        assert(crate::text::is_digit((iso_text(m.completed_at->0) + Seq::<char>::empty())[0]));
    } else if m.created_at is Some {
        lemma_iso_round_trip(m.created_at->0, Seq::empty());
        assert(date_parts(m) =~= seq![iso_text(m.created_at->0)]);
        lemma_spaced_one(iso_text(m.created_at->0));
        assert(dt[0] == iso_text(m.created_at->0)[0]);
        assert(crate::text::is_digit((iso_text(m.created_at->0) + Seq::<char>::empty())[0]));
    } else {
        assert(date_parts(m) =~= Seq::<Seq<char>>::empty());
        assert(dt =~= Seq::<char>::empty());
    }
    assert(!is_ws(s0[0])) by {
        if mt.len() == 0 && dt.len() == 0 {
            assert(s0[0] == m.task[0]);
        } else if mt.len() == 0 {
            assert(s0[0] == dt[0]);
        } else {
            assert(s0[0] == mt[0]);
        }
    }
    assert(s0.last() == a.last());
    lemma_trim_id(s0);
}

/// The dates and what follows them: it starts with a digit when there is
/// a date, else with the description.
proof fn lemma_rest_start(m: TodoModel)
    requires
        round_trips(m),
    ensures
        ({
            let b = spaced(date_parts(m)) + body(m);
            &&& b.len() > 0
            &&& !is_ws(b[0])
            &&& m.created_at is Some ==> crate::text::is_digit(b[0])
            &&& m.created_at is None ==> b == body(m)
        }),
{
    let b = spaced(date_parts(m)) + body(m);
    if m.completed_at is Some {
        lemma_iso_round_trip(m.completed_at->0, Seq::empty());
        lemma_spaced_concat(seq![iso_text(m.completed_at->0)], seq![iso_text(m.created_at->0)]);
        lemma_spaced_one(iso_text(m.completed_at->0));
        assert(date_parts(m) =~= seq![iso_text(m.completed_at->0)] + seq![iso_text(m.created_at->0)]);
        assert(b[0] == iso_text(m.completed_at->0)[0]);
        assert(crate::text::is_digit((iso_text(m.completed_at->0) + Seq::<char>::empty())[0]));
    } else if m.created_at is Some {
        lemma_iso_round_trip(m.created_at->0, Seq::empty());
        assert(date_parts(m) =~= seq![iso_text(m.created_at->0)]);
        lemma_spaced_one(iso_text(m.created_at->0));
        assert(b[0] == iso_text(m.created_at->0)[0]);
        assert(crate::text::is_digit((iso_text(m.created_at->0) + Seq::<char>::empty())[0]));
    } else {
        assert(date_parts(m) =~= Seq::<Seq<char>>::empty());
        assert(spaced(date_parts(m)) =~= Seq::<char>::empty());
        assert(b =~= body(m));
        assert(b[0] == m.task[0]);
    }
}

proof fn lemma_marks(m: TodoModel)
    requires
        round_trips(m),
    ensures
        ({
            let s = serialize_model(m);
            let mt = spaced(mark_parts(m));
            &&& has_done_mark(s) == m.is_complete
            &&& priority_mark(s, mark_end(s)) == (if m.is_complete {
                None
            } else {
                m.priority
            })
            &&& date1_at(s) == mt.len()
            &&& s.skip(mt.len() as int) == spaced(date_parts(m)) + body(m)
        }),
{
    lemma_line_shape(m);
    lemma_rest_start(m);
    let s = serialize_model(m);
    let mt = spaced(mark_parts(m));
    let b = spaced(date_parts(m)) + body(m);
    assert(s.skip(mt.len() as int) =~= b);
    let a = join(attr_tokens(m));
    let w = seq![' '] + a;
    assert(body(m) =~= m.task + w);
    lemma_mark_prefix(m.task, w);
    lemma_ws_run_one(b);
    if m.is_complete {
        lemma_spaced_one(seq!['x']);
        assert(s =~= seq!['x', ' '] + b);
        assert(s[0] == 'x' && s[1] == ' ');
        lemma_mark_at(seq!['x', ' '], b);
        assert(mark_end(s) == 2);
        if m.created_at is None {
            assert(priority_mark(b, 0) == priority_mark(m.task, 0));
        } else {
            assert(b[0] != '(');
        }
        assert(after_ws(s, 2) == 2 + ws_run(s.skip(2)));
        assert(s.skip(2) =~= b);
    } else if m.priority is Some {
        let p = m.priority->0;
        lemma_spaced_one(seq!['(', p, ')']);
        assert(s =~= seq!['(', p, ')', ' '] + b);
        assert(s[0] == '(' && s[1] == p && s[2] == ')');
        assert(!has_done_mark(s));
        assert(priority_mark(s, 0) == Some(p));
        assert(s.skip(3) =~= seq![' '] + b);
        assert(after_ws(s, 3) == 3 + ws_run(s.skip(3)));
    } else {
        assert(mt =~= Seq::<char>::empty());
        assert(s =~= b);
        if m.created_at is None {
            assert(b == body(m));
            assert(priority_mark(b, 0) == priority_mark(m.task, 0));
        } else {
            assert(b[0] != '(' && b[0] != 'x');
        }
        assert(s.skip(0) =~= s);
        assert(after_ws(s, 0) == 0 + ws_run(s.skip(0)));
    }
}

#[verifier::rlimit(100)]
proof fn lemma_dates(m: TodoModel)
    requires
        round_trips(m),
    ensures
        ({
            let s = serialize_model(m);
            &&& (if date2(s) is Some {
                date2(s)
            } else {
                date1(s)
            }) == m.created_at
            &&& (if date2(s) is Some {
                date1(s)
            } else {
                None
            }) == m.completed_at
            &&& s.skip(task_at(s)) == body(m)
        }),
{
    lemma_marks(m);
    lemma_line_shape(m);
    let s = serialize_model(m);
    let p = spaced(mark_parts(m)).len() as int;
    let bd = body(m);
    let a = join(attr_tokens(m));
    let w = seq![' '] + a;
    assert(bd =~= m.task + w);
    lemma_mark_prefix(m.task, w);
    assert(bd[0] == m.task[0]);
    lemma_ws_run_one(bd);
    assert(date1_at(s) == p);
    if m.completed_at is Some {
        let co = m.completed_at->0;
        let cr = m.created_at->0;
        lemma_spaced_concat(seq![iso_text(co)], seq![iso_text(cr)]);
        lemma_spaced_one(iso_text(co));
        lemma_spaced_one(iso_text(cr));
        assert(date_parts(m) =~= seq![iso_text(co)] + seq![iso_text(cr)]);
        let r2 = iso_text(cr) + (seq![' '] + bd);
        let r1 = iso_text(co) + (seq![' '] + r2);
        lemma_iso_round_trip(co, seq![' '] + r2);
        lemma_iso_round_trip(cr, seq![' '] + bd);
        assert(s.skip(p) =~= r1);
        assert(has_date1(s));
        assert(date1(s) == Some(co));
        assert(s.skip(p + 10) =~= seq![' '] + r2);
        assert(r2[0] == iso_text(cr)[0]);
        lemma_ws_run_one(r2);
        assert(date2_at(s) == p + 11);
        assert(s.skip(p + 11) =~= r2);
        assert(has_date2(s));
        assert(date2(s) == Some(cr));
        assert(s.skip(p + 21) =~= seq![' '] + bd);
        assert(task_at(s) == p + 22);
        assert(s.skip(p + 22) =~= bd);
    } else if m.created_at is Some {
        let cr = m.created_at->0;
        lemma_spaced_one(iso_text(cr));
        assert(date_parts(m) =~= seq![iso_text(cr)]);
        lemma_iso_round_trip(cr, seq![' '] + bd);
        let r1 = iso_text(cr) + (seq![' '] + bd);
        assert(s.skip(p) =~= r1);
        assert(has_date1(s));
        assert(date1(s) == Some(cr));
        assert(s.skip(p + 10) =~= seq![' '] + bd);
        assert(date2_at(s) == p + 11);
        assert(s.skip(p + 11) =~= bd);
        assert(!has_date2(s));
        assert(task_at(s) == p + 11);
    } else {
        assert(date_parts(m) =~= Seq::<Seq<char>>::empty());
        assert(spaced(date_parts(m)) =~= Seq::<char>::empty());
        assert(s.skip(p) =~= bd);
        assert(!has_date1(s));
        assert(task_at(s) == p);
    }
}

/// Writing a record and reading the line back gives the same record, for
/// every record of the kind that reading a line gives (see
/// `round_trips`), whatever identifier the reader holds in reserve.
pub proof fn lemma_serialize_parse(m: TodoModel, fresh: u128)
    requires
        round_trips(m),
    ensures
        parse_model(serialize_model(m), fresh) == Some(m),
{
    lemma_marks(m);
    lemma_dates(m);
    lemma_body(m);
    lemma_attr_part(m);
    let s = serialize_model(m);
    let t = s.skip(task_at(s));
    assert(t == body(m));
    let kv = kv_scan(Seq::empty(), t);
    assert(kv == attr_pairs(m));
    assert(id_value(kv_get(kv, id_key()), fresh) == m.id);
    if m.is_complete {
        if m.priority is Some {
            assert(seq![m.priority->0][0] == m.priority->0);
        }
    }
    let r = parse_model(s, fresh)->0;
    assert(r =~= m);
}

proof fn lemma_colon_last(t: Seq<char>, j: int)
    requires
        j < t.len(),
    ensures
        forall|i: int| colon_at_or_before(t, j) < i <= j && 1 <= i ==> #[trigger] t[i] != ':',
    decreases j,
{
    if j >= 1 && t[j] != ':' {
        lemma_colon_last(t, j - 1);
    }
}

/// Every attribute a scan adds is as reading gives it, and keys stay distinct.
proof fn lemma_scan_entries(m: Seq<(Seq<char>, Seq<char>)>, s: Seq<char>)
    requires
        unique_keys(m),
        forall|i: int| 0 <= i < m.len() ==> entry_ok(#[trigger] m[i]),
    ensures
        unique_keys(kv_scan(m, s)),
        forall|i: int| 0 <= i < kv_scan(m, s).len() ==> entry_ok(#[trigger] kv_scan(m, s)[i]),
    decreases s.len(),
{
    if s.len() == 0 {
    } else if is_ws(s[0]) {
        lemma_scan_entries(m, s.drop_first());
    } else {
        lemma_nonws_run(s);
        let k = nonws_run(s) as int;
        assert(k >= 1);
        let tok = s.take(k);
        let j = kv_split(tok);
        if j >= 0 {
            lemma_colon_range(tok, tok.len() - 2);
            lemma_colon_last(tok, tok.len() - 2);
            let e = (tok.take(j), tok.skip(j + 1));
            assert(entry_ok(e)) by {
                assert forall|i: int| 0 <= i < e.0.len() implies !is_ws(#[trigger] e.0[i]) by {
                    assert(e.0[i] == s[i]);
                }
                assert forall|i: int| 0 <= i < e.1.len() implies !is_ws(#[trigger] e.1[i]) by {
                    assert(e.1[i] == s[j + 1 + i]);
                }
                assert forall|i: int| 0 <= i < e.1.len() - 1 implies #[trigger] e.1[i] != ':' by {
                    assert(e.1[i] == tok[j + 1 + i]);
                }
            }
            let m2 = kv_insert(m, e.0, e.1);
            crate::kv::lemma_insert_unique(m, e.0, e.1);
            assert forall|i: int| 0 <= i < m2.len() implies entry_ok(#[trigger] m2[i]) by {
                let f = find_key(m, e.0);
                if f >= 0 {
                    if i != f {
                        assert(m2[i] == m[i]);
                    }
                } else if i < m.len() {
                    assert(m2[i] == m[i]);
                }
            }
            lemma_scan_entries(m2, s.skip(k));
        } else {
            lemma_scan_entries(m, s.skip(k));
        }
    }
}

proof fn lemma_remove_entries(m: Seq<(Seq<char>, Seq<char>)>, key: Seq<char>, other: Seq<char>)
    requires
        unique_keys(m),
        forall|i: int| 0 <= i < m.len() ==> entry_ok(#[trigger] m[i]),
    ensures
        (forall|i: int| 0 <= i < m.len() ==> (#[trigger] m[i]).0 != other) ==> (forall|i: int|
            0 <= i < kv_remove(m, key).len() ==> (#[trigger] kv_remove(m, key)[i]).0 != other),
        unique_keys(kv_remove(m, key)),
        forall|i: int| 0 <= i < kv_remove(m, key).len() ==> entry_ok(#[trigger] kv_remove(m, key)[i]),
        forall|i: int| 0 <= i < kv_remove(m, key).len() ==> (#[trigger] kv_remove(m, key)[i]).0 != key,
{
    crate::kv::lemma_remove_unique(m, key);
    let r = kv_remove(m, key);
    let f = find_key(m, key);
    assert forall|i: int| 0 <= i < r.len() implies entry_ok(#[trigger] r[i]) && ((forall|q: int| 0 <= q < m.len() ==> (#[trigger] m[q]).0 != other) ==> r[i].0 != other) by {
        if f >= 0 {
            if i < f {
                assert(r[i] == m[i]);
            } else {
                assert(r[i] == m[i + 1]);
            }
        } else {
            assert(r[i] == m[i]);
        }
    }
    assert forall|i: int| 0 <= i < r.len() implies (#[trigger] r[i]).0 != key by {
        if r[i].0 == key {
            assert(first_key_at(r, key, i)) by {
                assert forall|q: int| 0 <= q < i implies (#[trigger] r[q]).0 != key by {
                    if r[q].0 == key {
                        assert(r[q].0 == r[i].0);
                    }
                }
            }
            lemma_find_key_is(r, key, i);
        }
    }
}

/// Every record read from a line has the shape that reading gives.
pub proof fn lemma_parse_shape(line: Seq<char>, fresh: u128)
    requires
        parse_model(line, fresh) is Some,
    ensures
        parsed_shape(parse_model(line, fresh)->0),
{
    let m = parse_model(line, fresh)->0;
    let t = line.skip(task_at(line));
    // description
    lemma_strip_plain(t);
    lemma_trim_plain(strip(t));
    lemma_trim_parts(strip(t));
    if ws_run(strip(t)) == strip(t).len() {
        assert(trim(strip(t)).len() == 0);
    }
    // attributes
    let m0 = kv_scan(Seq::empty(), t);
    lemma_scan_entries(Seq::empty(), t);
    lemma_remove_entries(m0, id_key(), pri_key());
    let m1 = kv_remove(m0, id_key());
    lemma_remove_entries(m1, pri_key(), id_key());
    // dates
    if has_date1(line) {
        crate::date::lemma_small_values(line.skip(date1_at(line)));
    }
    if has_date2(line) {
        crate::date::lemma_small_values(line.skip(date2_at(line)));
    }
}

/// Reading a line, writing the task and reading that line again gives the
/// same task, when the task read meets `round_trip_safe`; the second
/// reading keeps the identifier that the first one found or made.
pub proof fn lemma_parse_serialize_parse(line: Seq<char>, fresh1: u128, fresh2: u128)
    requires
        parse_model(line, fresh1) is Some,
        round_trip_safe(parse_model(line, fresh1)->0),
    ensures
        parse_model(serialize_model(parse_model(line, fresh1)->0), fresh2) == parse_model(line, fresh1),
{
    lemma_parse_shape(line, fresh1);
    lemma_serialize_parse(parse_model(line, fresh1)->0, fresh2);
}

} // verus!
