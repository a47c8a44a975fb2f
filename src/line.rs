//! The token grammar inside a task's text: `+project` and `@context`
//! tags, `key:value` attributes, and the text left once attributes are
//! taken out.

use vstd::prelude::*;
use crate::kv::{kv_insert, unique_keys, lemma_insert_unique, KeyValues};
use crate::text::{
    is_ws, is_ws_char, lemma_nonws_run, nonws_end, nonws_run, slice_chars, slice_string,
};

verus! {

#[via_fn]
proof fn tags_decreases(s: Seq<char>, c: char) {
    lemma_nonws_run(s.drop_first());
}

/// Every `<c><non-space run>` in `s`, left to right, as a regular-expression
/// scan for `c[^\s]+` finds them.
pub open spec fn tags(s: Seq<char>, c: char) -> Seq<Seq<char>>
    decreases s.len(),
    via tags_decreases
{
    if s.len() == 0 {
        Seq::empty()
    } else if s[0] == c && s.len() >= 2 && !is_ws(s[1]) {
        let k = 1 + nonws_run(s.drop_first());
        seq![s.take(k as int)] + tags(s.skip(k as int), c)
    } else {
        tags(s.drop_first(), c)
    }
}

/// Index of the last `:` of a token that has text on both sides of it, or -1.
pub open spec fn colon_at_or_before(t: Seq<char>, j: int) -> int
    decreases j,
{
    if j < 1 {
        -1
    } else if t[j] == ':' {
        j
    } else {
        colon_at_or_before(t, j - 1)
    }
}

pub proof fn lemma_colon_range(t: Seq<char>, j: int)
    ensures
        colon_at_or_before(t, j) == -1 || (1 <= colon_at_or_before(t, j) <= j && t[colon_at_or_before(t, j)] == ':'),
    decreases j,
{
    if j >= 1 && t[j] != ':' {
        lemma_colon_range(t, j - 1);
    }
}

pub open spec fn kv_split(t: Seq<char>) -> int {
    colon_at_or_before(t, t.len() - 2)
}

#[via_fn]
proof fn scan_decreases(m: Seq<(Seq<char>, Seq<char>)>, s: Seq<char>) {
    lemma_nonws_run(s);
}

/// The attribute map built from the `key:value` tokens of `s`, starting
/// from `m`: the key runs to the token's last colon that has text after it.
pub open spec fn kv_scan(m: Seq<(Seq<char>, Seq<char>)>, s: Seq<char>) -> Seq<
    (Seq<char>, Seq<char>),
>
    decreases s.len(),
    via scan_decreases
{
    if s.len() == 0 {
        m
    } else if is_ws(s[0]) {
        kv_scan(m, s.drop_first())
    } else {
        let k = nonws_run(s);
        let tok = s.take(k as int);
        let j = kv_split(tok);
        kv_scan(
            if j >= 0 {
                kv_insert(m, tok.take(j), tok.skip(j + 1))
            } else {
                m
            },
            s.skip(k as int),
        )
    }
}

#[via_fn]
proof fn strip_decreases(s: Seq<char>) {
    lemma_nonws_run(s);
}

/// `s` with its `key:value` tokens taken out; white space stays.
pub open spec fn strip(s: Seq<char>) -> Seq<char>
    decreases s.len(),
    via strip_decreases
{
    if s.len() == 0 {
        Seq::empty()
    } else if is_ws(s[0]) {
        seq![s[0]] + strip(s.drop_first())
    } else {
        let k = nonws_run(s);
        let tok = s.take(k as int);
        (if kv_split(tok) >= 0 {
            Seq::empty()
        } else {
            tok
        }) + strip(s.skip(k as int))
    }
}

pub open spec fn views(v: Seq<String>) -> Seq<Seq<char>> {
    v.map_values(|x: String| x@)
}

/// All tags `c...` of the text, in order.
pub fn find_tags(t: &Vec<char>, c: char) -> (r: Vec<String>)
    ensures
        views(r@) == tags(t@, c),
{
    let mut acc: Vec<String> = Vec::new();
    let mut i: usize = 0;
    let n = t.len();
    assert(t@.skip(0) =~= t@);
    assert(views(acc@) =~= Seq::<Seq<char>>::empty());
    while i < n
        invariant
            n == t@.len(),
            i <= n,
            views(acc@) + tags(t@.skip(i as int), c) == tags(t@, c),
        decreases n - i,
    {
        let ghost s = t@.skip(i as int);
        if t[i] == c && i + 1 < n && !is_ws_char(t[i + 1]) {
            let e = nonws_end(t, i + 1);
            let tag = slice_string(t, i, e);
            proof {
                assert(s.drop_first() =~= t@.skip(i + 1));
                let k = 1 + nonws_run(s.drop_first());
                assert(k == e - i);
                assert(s.take(k as int) =~= t@.subrange(i as int, e as int));
                assert(s.skip(k as int) =~= t@.skip(e as int));
                assert(views(acc@.push(tag)) =~= views(acc@).push(tag@));
                assert(views(acc@).push(tag@) + tags(t@.skip(e as int), c) =~= views(acc@) + (seq![
                    tag@,
                ] + tags(t@.skip(e as int), c)));
            }
            acc.push(tag);
            i = e;
        } else {
            proof {
                assert(s.drop_first() =~= t@.skip(i + 1));
            }
            i += 1;
        }
    }
    proof {
        assert(t@.skip(n as int) =~= Seq::<char>::empty());
        assert(views(acc@) + Seq::<Seq<char>>::empty() =~= views(acc@));
    }
    acc
}

/// Index of the token's split colon, as `kv_split` says.
fn split_of(t: &Vec<char>, from: usize, to: usize) -> (r: Option<usize>)
    requires
        from < to <= t@.len(),
    ensures
        kv_split(t@.subrange(from as int, to as int)) >= 0 <==> r is Some,
        r is Some ==> r->0 == from + kv_split(t@.subrange(from as int, to as int)),
        r is Some ==> from + 1 <= r->0 <= to - 2,
{
    proof {
        lemma_colon_range(t@.subrange(from as int, to as int), to - from - 2);
    }
    let ghost tok = t@.subrange(from as int, to as int);
    if to - from < 3 {
        proof {
            assert(colon_at_or_before(tok, tok.len() - 2) == -1);
        }
        return None;
    }
    let mut j: usize = to - 2;
    while j > from
        invariant
            from < to <= t@.len(),
            to - from >= 3,
            tok == t@.subrange(from as int, to as int),
            from <= j <= to - 2,
            colon_at_or_before(tok, tok.len() - 2) == colon_at_or_before(tok, j - from),
        decreases j,
    {
        if t[j] == ':' {
            assert(tok[j - from] == t@[j as int]);
            return Some(j);
        }
        assert(tok[j - from] == t@[j as int]);
        j -= 1;
    }
    None
}

/// The attributes of the text, and the text without them.
pub fn scan_attributes(t: &Vec<char>) -> (r: (KeyValues, Vec<char>))
    ensures
        r.0@ == kv_scan(Seq::empty(), t@),
        r.0.wf(),
        r.1@ == strip(t@),
{
    let mut m = KeyValues::new();
    let mut out: Vec<char> = Vec::new();
    let mut i: usize = 0;
    let n = t.len();
    assert(t@.skip(0) =~= t@);
    assert(out@ + strip(t@) =~= strip(t@));
    while i < n
        invariant
            n == t@.len(),
            i <= n,
            m.wf(),
            kv_scan(m@, t@.skip(i as int)) == kv_scan(Seq::empty(), t@),
            out@ + strip(t@.skip(i as int)) == strip(t@),
        decreases n - i,
    {
        let ghost s = t@.skip(i as int);
        if is_ws_char(t[i]) {
            proof {
                assert(s.drop_first() =~= t@.skip(i + 1));
                assert(out@.push(t@[i as int]) + strip(t@.skip(i + 1)) =~= out@ + (seq![s[0]]
                    + strip(s.drop_first())));
            }
            out.push(t[i]);
            i += 1;
        } else {
            let e = nonws_end(t, i);
            proof {
                lemma_nonws_run(s);
                assert(s.take(nonws_run(s) as int) =~= t@.subrange(i as int, e as int));
                assert(s.skip(nonws_run(s) as int) =~= t@.skip(e as int));
            }
            let ghost tok = t@.subrange(i as int, e as int);
            match split_of(t, i, e) {
                Some(j) => {
                    let key = slice_string(t, i, j);
                    let value = slice_string(t, j + 1, e);
                    proof {
                        assert(tok.take(j - i) =~= key@);
                        assert(tok.skip(j - i + 1) =~= value@);
                        assert(out@ + strip(t@.skip(e as int)) =~= out@ + (Seq::<char>::empty()
                            + strip(t@.skip(e as int))));
                    }
                    m.insert(key, value);
                },
                None => {
                    let piece = slice_chars(t, i, e);
                    let mut q: usize = 0;
                    let ghost before = out@;
                    while q < piece.len()
                        invariant
                            q <= piece@.len(),
                            out@ == before + piece@.take(q as int),
                        decreases piece@.len() - q,
                    {
                        out.push(piece[q]);
                        q += 1;
                        assert(out@ =~= before + piece@.take(q as int));
                    }
                    proof {
                        assert(piece@.take(q as int) =~= tok);
                        assert(before + tok + strip(t@.skip(e as int)) =~= before + (tok + strip(
                            t@.skip(e as int),
                        )));
                    }
                },
            }
            i = e;
        }
    }
    proof {
        assert(t@.skip(n as int) =~= Seq::<char>::empty());
        assert(out@ + Seq::<char>::empty() =~= out@);
    }
    (m, out)
}

} // verus!
