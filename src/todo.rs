//! A task: one line of a todo.txt file, read into its parts and written
//! back.

use vstd::prelude::*;
use crate::date::{
    is_date_shape, date_of_shape, iso_text, push_iso, read_date, today, now_timestamp, Date,
};
use crate::hms::{encode, from_seconds, seconds_of, to_seconds};
use crate::ids::{new_uuid, parse_uuid, uuid_parse_of, uuid_text, uuid_text_of};
use crate::kv::{kv_get, kv_insert, kv_remove, KeyValues};
use crate::line::{find_tags, kv_scan, scan_attributes, strip, tags, views};
use crate::text::{
    chars_of, int_of, int_string, int_text, is_ws, lex, lex_cmp, parse_int, string_of, trim,
    trim_chars, ws_end, ws_run,
};

verus! {

pub open spec fn is_upper(c: char) -> bool {
    'A' <= c && c <= 'Z'
}

/// The line starts with the completion mark `x `.
pub open spec fn has_done_mark(l: Seq<char>) -> bool {
    l.len() >= 2 && l[0] == 'x' && l[1] == ' '
}

pub open spec fn mark_end(l: Seq<char>) -> int {
    if has_done_mark(l) {
        2
    } else {
        0
    }
}

/// The priority mark `(X)` at position `p`, X an upper-case letter.
pub open spec fn priority_mark(l: Seq<char>, p: int) -> Option<char> {
    if 0 <= p && p + 3 <= l.len() && l[p] == '(' && is_upper(l[p + 1]) && l[p + 2] == ')' {
        Some(l[p + 1])
    } else {
        None
    }
}

/// First position at or after `p` that is not white space.
pub open spec fn after_ws(l: Seq<char>, p: int) -> int {
    p + ws_run(l.skip(p))
}

pub open spec fn date1_at(l: Seq<char>) -> int {
    after_ws(
        l,
        mark_end(l) + if priority_mark(l, mark_end(l)) is Some {
            3int
        } else {
            0int
        },
    )
}

pub open spec fn has_date1(l: Seq<char>) -> bool {
    is_date_shape(l.skip(date1_at(l)))
}

pub open spec fn date2_at(l: Seq<char>) -> int {
    if has_date1(l) {
        after_ws(l, date1_at(l) + 10)
    } else {
        date1_at(l)
    }
}

pub open spec fn has_date2(l: Seq<char>) -> bool {
    has_date1(l) && is_date_shape(l.skip(date2_at(l)))
}

/// Where the description starts, after the marks and dates.
pub open spec fn task_at(l: Seq<char>) -> int {
    if has_date2(l) {
        after_ws(l, date2_at(l) + 10)
    } else {
        date2_at(l)
    }
}

pub open spec fn date1(l: Seq<char>) -> Option<Date> {
    if has_date1(l) {
        date_of_shape(l.skip(date1_at(l)))
    } else {
        None
    }
}

pub open spec fn date2(l: Seq<char>) -> Option<Date> {
    if has_date2(l) {
        date_of_shape(l.skip(date2_at(l)))
    } else {
        None
    }
}

pub open spec fn id_key() -> Seq<char> {
    seq!['i', 'd']
}

pub open spec fn pri_key() -> Seq<char> {
    seq!['p', 'r', 'i']
}

pub open spec fn clock_key() -> Seq<char> {
    seq!['c', 'l', 'o', 'c', 'k']
}

pub open spec fn clocked_key() -> Seq<char> {
    seq!['c', 'l', 'o', 'c', 'k', 'e', 'd']
}

pub open spec fn due_key() -> Seq<char> {
    seq!['d', 'u', 'e']
}

pub open spec fn rep_key() -> Seq<char> {
    seq!['r', 'e', 'p']
}

/// What a task holds, but for its position in a file.
pub struct TodoModel {
    pub id: u128,
    pub is_complete: bool,
    pub created_at: Option<Date>,
    pub completed_at: Option<Date>,
    pub task: Seq<char>,
    pub priority: Option<char>,
    pub projects: Seq<Seq<char>>,
    pub contexts: Seq<Seq<char>>,
    pub key_values: Seq<(Seq<char>, Seq<char>)>,
}

/// The priority a `pri` attribute value gives: its first character when
/// that is an upper-case letter.
pub open spec fn pri_value(v: Option<Seq<char>>) -> Option<char> {
    match v {
        Some(s) => if s.len() > 0 && is_upper(s[0]) {
            Some(s[0])
        } else {
            None
        },
        None => None,
    }
}

/// The identifier an `id` attribute value gives, or `fresh`.
pub open spec fn id_value(v: Option<Seq<char>>, fresh: u128) -> u128 {
    match v {
        Some(s) => match uuid_parse_of(s) {
            Some(u) => u,
            None => fresh,
        },
        None => fresh,
    }
}

/// The task a line holds, with `fresh` as its identifier when the line
/// names none; `None` when nothing follows the marks and dates.
pub open spec fn parse_model(l: Seq<char>, fresh: u128) -> Option<TodoModel> {
    let t = l.skip(task_at(l));
    let m = kv_scan(Seq::empty(), t);
    let d1 = date1(l);
    let d2 = date2(l);
    if t.len() == 0 {
        None
    } else {
        Some(
            TodoModel {
                id: id_value(kv_get(m, id_key()), fresh),
                is_complete: has_done_mark(l),
                created_at: if d2 is Some {
                    d2
                } else {
                    d1
                },
                completed_at: if d2 is Some {
                    d1
                } else {
                    None
                },
                task: trim(strip(t)),
                priority: if priority_mark(l, mark_end(l)) is Some {
                    priority_mark(l, mark_end(l))
                } else {
                    pri_value(kv_get(m, pri_key()))
                },
                projects: tags(t, '+'),
                contexts: tags(t, '@'),
                key_values: kv_remove(kv_remove(m, id_key()), pri_key()),
            },
        )
    }
}

/// Parts joined by single spaces.
pub open spec fn join(parts: Seq<Seq<char>>) -> Seq<char>
    decreases parts.len(),
{
    if parts.len() == 0 {
        Seq::empty()
    } else if parts.len() == 1 {
        parts[0]
    } else {
        join(parts.drop_last()) + seq![' '] + parts.last()
    }
}

/// The leading parts of a line: the mark, the dates and the description.
pub open spec fn head_parts(
    is_complete: bool,
    created_at: Option<Date>,
    completed_at: Option<Date>,
    task: Seq<char>,
    priority: Option<char>,
) -> Seq<Seq<char>> {
    (if is_complete {
        seq![seq!['x']]
    } else if priority is Some {
        seq![seq!['(', priority->0, ')']]
    } else {
        Seq::empty()
    }) + (if completed_at is Some {
        seq![iso_text(completed_at->0)]
    } else {
        Seq::empty()
    }) + (if created_at is Some {
        seq![iso_text(created_at->0)]
    } else {
        Seq::empty()
    }) + seq![task]
}

pub open spec fn attr_token(e: (Seq<char>, Seq<char>)) -> Seq<char> {
    e.0 + seq![':'] + e.1
}

/// The `key:value` tokens of a line: the attributes, the priority of a
/// completed task, and the identifier.
pub open spec fn attr_tokens(m: TodoModel) -> Seq<Seq<char>> {
    m.key_values.map_values(|e: (Seq<char>, Seq<char>)| attr_token(e)) + (if m.is_complete
        && m.priority is Some {
        seq![pri_key() + seq![':', m.priority->0]]
    } else {
        Seq::empty()
    }) + seq![id_key() + seq![':'] + uuid_text_of(m.id)]
}

/// The line written for a task.
pub open spec fn serialize_model(m: TodoModel) -> Seq<char> {
    trim(
        join(head_parts(m.is_complete, m.created_at, m.completed_at, m.task, m.priority)) + seq![
            ' ',
        ] + join(attr_tokens(m)),
    )
}

/// `v` brought into the range of `i64`.
pub open spec fn clamp64(v: int) -> int {
    if v > i64::MAX {
        i64::MAX as int
    } else if v < i64::MIN {
        i64::MIN as int
    } else {
        v
    }
}

pub(crate) fn clamp_sum(a: i64, b: i64) -> (r: i64)
    ensures
        r == clamp64(a + b),
{
    let s: i128 = a as i128 + b as i128;
    if s > 9223372036854775807i128 {
        9223372036854775807i64
    } else if s < -9223372036854775808i128 {
        -9223372036854775808i64
    } else {
        s as i64
    }
}

pub(crate) fn clamp_diff(a: i64, b: i64) -> (r: i64)
    ensures
        r == clamp64(a - b),
{
    let s: i128 = a as i128 - b as i128;
    if s > 9223372036854775807i128 {
        9223372036854775807i64
    } else if s < -9223372036854775808i128 {
        -9223372036854775808i64
    } else {
        s as i64
    }
}

/// Whether a task is due on `today`.
pub open spec fn past_due(m: TodoModel, today: Date) -> bool {
    match kv_get(m.key_values, due_key()) {
        None => false,
        Some(v) => lex(v, iso_text(today)) <= 0,
    }
}

/// Seconds clocked so far, from the `clocked` attribute.
pub open spec fn clocked_of(m: TodoModel) -> int {
    match kv_get(m.key_values, clocked_key()) {
        None => 0,
        Some(v) => seconds_of(v),
    }
}

/// Start of the open clock interval, from the `clock` attribute.
pub open spec fn stamp_of(m: TodoModel) -> int {
    match kv_get(m.key_values, clock_key()) {
        None => 0,
        Some(v) => match int_of(v) {
            None => 0,
            Some(x) => x,
        },
    }
}

pub open spec fn clock_in_model(m: TodoModel, now: int) -> TodoModel {
    if kv_get(m.key_values, clock_key()) is Some {
        m
    } else {
        TodoModel { key_values: kv_insert(m.key_values, clock_key(), int_text(now)), ..m }
    }
}

pub open spec fn clock_out_model(m: TodoModel, now: int) -> TodoModel {
    if kv_get(m.key_values, clock_key()) is None {
        m
    } else {
        TodoModel {
            key_values: kv_remove(
                kv_insert(
                    m.key_values,
                    clocked_key(),
                    encode(clamp64(clocked_of(m) + clamp64(now - stamp_of(m)))),
                ),
                clock_key(),
            ),
            ..m
        }
    }
}

pub open spec fn elapsed_model(m: TodoModel, now: int) -> Seq<char> {
    if kv_get(m.key_values, clock_key()) is None {
        Seq::empty()
    } else {
        encode(clamp64(clocked_of(m) + clamp64(now - stamp_of(m))))
    }
}

pub open spec fn reset_model(m: TodoModel, dates: bool, today: Date) -> TodoModel {
    TodoModel {
        is_complete: false,
        completed_at: None,
        created_at: if dates {
            Some(today)
        } else {
            m.created_at
        },
        key_values: kv_remove(kv_remove(m.key_values, clock_key()), clocked_key()),
        ..m
    }
}

/// Rank of a priority: its letter, and after every letter when there is none.
pub open spec fn pri_rank(p: Option<char>) -> int {
    match p {
        Some(c) => (c as u32) as int,
        None => 0x110000,
    }
}

/// The order of `cmp`, as -1, 0 or 1.
pub open spec fn order(a: TodoModel, b: TodoModel) -> int {
    if a.is_complete != b.is_complete {
        if a.is_complete {
            1
        } else {
            -1
        }
    } else if pri_rank(a.priority) != pri_rank(b.priority) {
        if pri_rank(a.priority) < pri_rank(b.priority) {
            -1
        } else {
            1
        }
    } else {
        lex(a.task, b.task)
    }
}

/// The order of `cmp_by_due_date`, as -1, 0 or 1.
pub open spec fn due_order(a: TodoModel, b: TodoModel) -> int {
    if a.is_complete && !b.is_complete {
        1
    } else if !a.is_complete && b.is_complete {
        -1
    } else {
        match (kv_get(a.key_values, due_key()), kv_get(b.key_values, due_key())) {
            (Some(_), None) => -1,
            (None, Some(_)) => 1,
            (None, None) => order(a, b),
            (Some(x), Some(y)) => if x == y {
                order(a, b)
            } else {
                lex(x, y)
            },
        }
    }
}

pub open spec fn ordering_of(c: int) -> std::cmp::Ordering {
    if c < 0 {
        std::cmp::Ordering::Less
    } else if c > 0 {
        std::cmp::Ordering::Greater
    } else {
        std::cmp::Ordering::Equal
    }
}

/// A task of a todo.txt file.
pub struct Todo {
    /// Identifier of the task, a UUID as its 128-bit value.
    pub id: u128,
    /// Position in the file.
    pub index: u32,
    /// Whether the task is done.
    pub is_complete: bool,
    pub created_at: Option<Date>,
    pub completed_at: Option<Date>,
    /// The description.
    pub task: String,
    /// Priority, `A` (highest) to `Z`.
    pub priority: Option<char>,
    /// Project tags (`+project`).
    pub projects: Vec<String>,
    /// Context tags (`@context`).
    pub contexts: Vec<String>,
    /// `key:value` attributes.
    pub key_values: KeyValues,
}

impl View for Todo {
    type V = TodoModel;

    open spec fn view(&self) -> TodoModel {
        TodoModel {
            id: self.id,
            is_complete: self.is_complete,
            created_at: self.created_at,
            completed_at: self.completed_at,
            task: self.task@,
            priority: self.priority,
            projects: views(self.projects@),
            contexts: views(self.contexts@),
            key_values: self.key_values@,
        }
    }
}

/// Appends `part` to a space-joined line.
fn join_push(out: &mut Vec<char>, parts: Ghost<Seq<Seq<char>>>, nonempty: bool, part: &Vec<char>)
    requires
        old(out)@ == join(parts@),
        nonempty == (parts@.len() > 0),
    ensures
        final(out)@ == join(parts@.push(part@)),
{
    if nonempty {
        out.push(' ');
    }
    let ghost before = out@;
    let mut i: usize = 0;
    while i < part.len()
        invariant
            i <= part@.len(),
            out@ == before + part@.take(i as int),
        decreases part@.len() - i,
    {
        out.push(part[i]);
        i += 1;
        assert(out@ =~= before + part@.take(i as int));
    }
    proof {
        assert(part@.take(i as int) =~= part@);
        assert(parts@.push(part@).drop_last() =~= parts@);
        if !nonempty {
            assert(before =~= Seq::<char>::empty());
            assert(out@ =~= part@);
        }
    }
}

/// Appends the characters of `s`.
fn push_str(out: &mut Vec<char>, s: &str)
    ensures
        final(out)@ == old(out)@ + s@,
{
    let c = chars_of(s);
    let ghost before = out@;
    let mut i: usize = 0;
    while i < c.len()
        invariant
            i <= c@.len(),
            out@ == before + c@.take(i as int),
        decreases c@.len() - i,
    {
        out.push(c[i]);
        i += 1;
        assert(out@ =~= before + c@.take(i as int));
    }
    assert(c@.take(i as int) =~= c@);
}

/// Joins the leading parts of a line: completion or priority mark, the
/// completion date, the creation date and the description.
fn serialize(
    is_complete: bool,
    created_at: Option<Date>,
    completed_at: Option<Date>,
    task: &str,
    priority: Option<char>,
) -> (r: Vec<char>)
    ensures
        r@ == join(head_parts(is_complete, created_at, completed_at, task@, priority)),
{
    let mut out: Vec<char> = Vec::new();
    let ghost mut parts: Seq<Seq<char>> = Seq::empty();
    let mut count: usize = 0;
    assert(out@ =~= join(parts));
    if is_complete {
        let p = vec!['x'];
        assert(p@ =~= seq!['x']);
        join_push(&mut out, Ghost(parts), count > 0, &p);
        proof {
            parts = parts.push(p@);
        }
        count += 1;
    } else if let Some(c) = priority {
        let p = vec!['(', c, ')'];
        assert(p@ =~= seq!['(', c, ')']);
        join_push(&mut out, Ghost(parts), count > 0, &p);
        proof {
            parts = parts.push(p@);
        }
        count += 1;
    }
    let ghost mark_parts: Seq<Seq<char>> = if is_complete {
        seq![seq!['x']]
    } else if priority is Some {
        seq![seq!['(', priority->0, ')']]
    } else {
        Seq::empty()
    };
    assert(parts =~= mark_parts);
    assert(count == parts.len());
    let ghost mark_done = parts;
    if let Some(d) = completed_at {
        let mut p: Vec<char> = Vec::new();
        push_iso(&mut p, d);
        join_push(&mut out, Ghost(parts), count > 0, &p);
        proof {
            parts = parts.push(p@);
        }
        count += 1;
    }
    assert(parts =~= mark_done + (if completed_at is Some {
        seq![iso_text(completed_at->0)]
    } else {
        Seq::<Seq<char>>::empty()
    }));
    assert(count == parts.len());
    let ghost dated = parts;
    if let Some(d) = created_at {
        let mut p: Vec<char> = Vec::new();
        push_iso(&mut p, d);
        join_push(&mut out, Ghost(parts), count > 0, &p);
        proof {
            parts = parts.push(p@);
        }
        count += 1;
    }
    assert(parts =~= dated + (if created_at is Some {
        seq![iso_text(created_at->0)]
    } else {
        Seq::<Seq<char>>::empty()
    }));
    assert(count == parts.len());
    let p = chars_of(task);
    join_push(&mut out, Ghost(parts), count > 0, &p);
    proof {
        parts = parts.push(p@);
    }
    assert(parts =~= head_parts(is_complete, created_at, completed_at, task@, priority));
    out
}

impl Todo {
    pub open spec fn wf(&self) -> bool {
        self.key_values.wf()
    }

    /// Reads a task from a line, taking `fresh_id` as its identifier when
    /// the line names none. `None` when nothing follows the marks and
    /// dates.
    pub fn parse_with_id(line: &str, fresh_id: u128) -> (r: Option<Todo>)
        ensures
            r is Some <==> parse_model(line@, fresh_id) is Some,
            r is Some ==> r->0@ == parse_model(line@, fresh_id)->0 && r->0.index == 0
                && r->0.wf(),
    {
        let l = chars_of(line);
        let n = l.len();
        // completion mark
        let done = n >= 2 && l[0] == 'x' && l[1] == ' ';
        let start: usize = if done {
            2
        } else {
            0
        };
        // priority mark
        let mut mark: Option<char> = None;
        if start + 3 <= n && l[start] == '(' && 'A' <= l[start + 1] && l[start + 1] <= 'Z' && l[start + 2] == ')' {
            mark = Some(l[start + 1]);
        }
        let after_mark: usize = if mark.is_some() {
            start + 3
        } else {
            start
        };
        let date_start = ws_end(&l, after_mark);
        // dates
        let mut d1: Option<Date> = None;
        let mut d2: Option<Date> = None;
        let mut task_start: usize = date_start;
        match read_date(&l, date_start) {
            None => {},
            Some(first) => {
                d1 = first;
                let second_date = ws_end(&l, date_start + 10);
                task_start = second_date;
                match read_date(&l, second_date) {
                    None => {},
                    Some(second) => {
                        d2 = second;
                        task_start = ws_end(&l, second_date + 10);
                    },
                }
            },
        }
        proof {
            assert(l@ == line@);
            assert(done == has_done_mark(line@));
            assert(mark == priority_mark(line@, mark_end(line@)));
            assert(task_start == task_at(line@));
            assert(d1 == date1(line@));
            assert(d2 == date2(line@));
        }
        if task_start == n {
            return None;
        }
        let t = crate::text::slice_chars(&l, task_start, n);
        assert(t@ =~= line@.skip(task_at(line@)));
        let projects = find_tags(&t, '+');
        let contexts = find_tags(&t, '@');
        let (mut key_values, stripped) = scan_attributes(&t);
        let ghost m = key_values@;
        let id = match key_values.get("id") {
            None => fresh_id,
            Some(v) => match parse_uuid(v.as_str()) {
                None => fresh_id,
                Some(u) => u,
            },
        };
        let mut priority = mark;
        if priority.is_none() {
            match key_values.get("pri") {
                None => {},
                Some(v) => {
                    let c = chars_of(v.as_str());
                    if c.len() > 0 && 'A' <= c[0] && c[0] <= 'Z' {
                        priority = Some(c[0]);
                    }
                },
            }
        }
        key_values.remove("id");
        key_values.remove("pri");
        let task_chars = trim_chars(&stripped);
        let task = string_of(&task_chars);
        let created_at = match d2 {
            None => d1,
            Some(_) => d2,
        };
        let completed_at = match d2 {
            None => None,
            Some(_) => d1,
        };
        proof {
            reveal_strlit("id");
            reveal_strlit("pri");
            assert("id"@ =~= id_key());
            assert("pri"@ =~= pri_key());
        }
        Some(
            Todo {
                id,
                index: 0,
                is_complete: done,
                created_at,
                completed_at,
                task,
                priority,
                projects,
                contexts,
                key_values,
            },
        )
    }

    /// Reads a task from a line, with a new random identifier when the line
    /// names none (or none that reads as a UUID). `None` when nothing
    /// follows the marks and dates.
    pub fn parse(line: &str) -> (r: Option<Todo>)
        ensures
            r is Some <==> parse_model(line@, 0) is Some,
            r is Some ==> exists|fresh: u128| r->0@ == #[trigger] parse_model(line@, fresh)->0,
            r is Some ==> r->0.index == 0 && r->0.wf(),
    {
        let fresh = new_uuid();
        let r = Self::parse_with_id(line, fresh);
        proof {
            if r is Some {
                assert(r->0@ == parse_model(line@, fresh)->0);
            }
        }
        r
    }

    /// Writes the task as a todo.txt line.
    pub fn serialize(&self) -> (r: String)
        ensures
            r@ == serialize_model(self@),
    {
        let head = serialize(
            self.is_complete,
            self.created_at,
            self.completed_at,
            self.task.as_str(),
            self.priority,
        );
        let mut out: Vec<char> = Vec::new();
        let ghost mut parts: Seq<Seq<char>> = Seq::empty();
        let mut count: usize = 0;
        assert(out@ =~= join(parts));
        let n = self.key_values.len();
        let mut i: usize = 0;
        while i < n
            invariant
                n == self.key_values@.len(),
                i <= n,
                count == i,
                parts.len() == i,
                parts == self.key_values@.take(i as int).map_values(
                    |e: (Seq<char>, Seq<char>)| attr_token(e),
                ),
                out@ == join(parts),
            decreases n - i,
        {
            let mut p: Vec<char> = Vec::new();
            push_str(&mut p, self.key_values.key_at(i).as_str());
            p.push(':');
            push_str(&mut p, self.key_values.value_at(i).as_str());
            assert(p@ =~= attr_token(self.key_values@[i as int]));
            join_push(&mut out, Ghost(parts), count > 0, &p);
            proof {
                parts = parts.push(p@);
                assert(parts =~= self.key_values@.take(i + 1).map_values(
                    |e: (Seq<char>, Seq<char>)| attr_token(e),
                ));
            }
            count += 1;
            i += 1;
        }
        proof {
            assert(self.key_values@.take(n as int) =~= self.key_values@);
        }
        let mut nonempty = n > 0;
        let ghost q1 = parts;
        if self.is_complete {
            if let Some(c) = self.priority {
                let p = vec!['p', 'r', 'i', ':', c];
                assert(p@ =~= pri_key() + seq![':', c]);
                join_push(&mut out, Ghost(parts), nonempty, &p);
                proof {
                    parts = parts.push(p@);
                }
                nonempty = true;
            }
        }
        assert(parts =~= q1 + (if self.is_complete && self.priority is Some {
            seq![pri_key() + seq![':', self.priority->0]]
        } else {
            Seq::<Seq<char>>::empty()
        }));
        let mut p: Vec<char> = vec!['i', 'd', ':'];
        let idt = uuid_text(self.id);
        let ghost id_head = p@;
        assert(id_head =~= id_key() + seq![':']);
        push_str(&mut p, idt.as_str());
        join_push(&mut out, Ghost(parts), nonempty, &p);
        proof {
            parts = parts.push(p@);
        }
        assert(parts =~= attr_tokens(self@));
        let mut line = head;
        let ghost h = line@;
        line.push(' ');
        let ghost mid = line@;
        let mut k: usize = 0;
        while k < out.len()
            invariant
                k <= out@.len(),
                line@ == mid + out@.take(k as int),
            decreases out@.len() - k,
        {
            line.push(out[k]);
            k += 1;
            assert(line@ =~= mid + out@.take(k as int));
        }
        assert(out@.take(k as int) =~= out@);
        assert(line@ =~= h + seq![' '] + join(attr_tokens(self@)));
        let trimmed = trim_chars(&line);
        string_of(&trimmed)
    }

    /// Whether the task is due: its `due` attribute is there and, as text,
    /// not after `today` written as `YYYY-MM-DD`.
    pub fn is_past_due_on(&self, today: Date) -> (r: bool)
        ensures
            r == past_due(self@, today),
    {
        match self.key_values.get("due") {
            None => {
                proof {
                    reveal_strlit("due");
                    assert("due"@ =~= due_key());
                }
                false
            },
            Some(v) => {
                let mut t: Vec<char> = Vec::new();
                push_iso(&mut t, today);
                let d = chars_of(v.as_str());
                proof {
                    reveal_strlit("due");
                    assert("due"@ =~= due_key());
                }
                lex_cmp(&d, &t) <= 0
            },
        }
    }

    /// Whether the task is due today or earlier, going by today's date.
    pub fn is_past_due(&self) -> (r: bool)
        ensures
            exists|d: Date| d.valid() && r == #[trigger] past_due(self@, d),
            kv_get(self@.key_values, due_key()) is None ==> !r,
    {
        let d = today();
        let r = self.is_past_due_on(d);
        assert(r == past_due(self@, d));
        r
    }

    pub fn has_repeat(&self) -> (r: bool)
        ensures
            r == (kv_get(self@.key_values, rep_key()) is Some),
    {
        proof {
            reveal_strlit("rep");
            assert("rep"@ =~= rep_key());
        }
        self.key_values.contains_key("rep")
    }

    pub fn has_clock(&self) -> (r: bool)
        ensures
            r == (kv_get(self@.key_values, clock_key()) is Some),
    {
        proof {
            reveal_strlit("clock");
            assert("clock"@ =~= clock_key());
        }
        self.key_values.contains_key("clock")
    }

    /// Seconds already clocked: the `clocked` attribute read as a duration.
    fn clocked_seconds(&self) -> (r: i64)
        ensures
            r == clocked_of(self@),
    {
        proof {
            reveal_strlit("clocked");
            assert("clocked"@ =~= clocked_key());
        }
        match self.key_values.get("clocked") {
            None => 0,
            Some(v) => to_seconds(v),
        }
    }

    /// Start of the open clock interval: the `clock` attribute read as an
    /// integer, 0 when it does not read as one.
    pub fn clock_stamp(&self) -> (r: i64)
        ensures
            r == stamp_of(self@),
    {
        proof {
            reveal_strlit("clock");
            assert("clock"@ =~= clock_key());
        }
        match self.key_values.get("clock") {
            None => 0,
            Some(v) => match parse_int(v.as_str()) {
                None => 0,
                Some(x) => x,
            },
        }
    }

    /// Adds `amount` seconds to the `clocked` duration.
    fn add_to_clocked(&mut self, amount: i64)
        requires
            old(self).wf(),
        ensures
            final(self)@ == (TodoModel {
                key_values: kv_insert(
                    old(self)@.key_values,
                    clocked_key(),
                    encode(clamp64(clocked_of(old(self)@) + amount)),
                ),
                ..old(self)@
            }),
            final(self).wf(),
            final(self).index == old(self).index,
    {
        let already = self.clocked_seconds();
        let total = clamp_sum(already, amount);
        let text = from_seconds(total);
        proof {
            reveal_strlit("clocked");
            assert("clocked"@ =~= clocked_key());
        }
        self.key_values.insert(String::from_str("clocked"), text);
    }

    /// Starts the clock at Unix time `now`, unless it is already running.
    pub fn clock_in_at(&mut self, now: i64)
        requires
            old(self).wf(),
        ensures
            final(self)@ == clock_in_model(old(self)@, now as int),
            final(self).wf(),
            final(self).index == old(self).index,
    {
        if self.has_clock() {
            return;
        }
        let text = int_string(now);
        proof {
            reveal_strlit("clock");
            assert("clock"@ =~= clock_key());
        }
        self.key_values.insert(String::from_str("clock"), text);
    }

    /// Starts the clock now, unless it is already running.
    pub fn clock_in(&mut self)
        requires
            old(self).wf(),
        ensures
            exists|now: i64| final(self)@ == #[trigger] clock_in_model(old(self)@, now as int),
            final(self).wf(),
            final(self).index == old(self).index,
    {
        let now = now_timestamp();
        self.clock_in_at(now);
    }

    /// Stops the clock at Unix time `now`, adding the seconds since it
    /// started to the `clocked` duration; nothing when it is not running.
    pub fn clock_out_at(&mut self, now: i64)
        requires
            old(self).wf(),
        ensures
            final(self)@ == clock_out_model(old(self)@, now as int),
            final(self).wf(),
            final(self).index == old(self).index,
    {
        if !self.has_clock() {
            return;
        }
        let stamp = self.clock_stamp();
        let elapsed = clamp_diff(now, stamp);
        self.add_to_clocked(elapsed);
        proof {
            reveal_strlit("clock");
            assert("clock"@ =~= clock_key());
        }
        self.key_values.remove("clock");
    }

    /// Stops the clock now; nothing when it is not running.
    pub fn clock_out(&mut self)
        requires
            old(self).wf(),
        ensures
            exists|now: i64| final(self)@ == #[trigger] clock_out_model(old(self)@, now as int),
            final(self).wf(),
            final(self).index == old(self).index,
    {
        let now = now_timestamp();
        self.clock_out_at(now);
    }

    /// Time clocked on the task at Unix time `now`, counting the open
    /// interval; empty when the clock is not running.
    pub fn elapsed_time_at(&self, now: i64) -> (r: String)
        ensures
            r@ == elapsed_model(self@, now as int),
    {
        if !self.has_clock() {
            return String::new();
        }
        let clocked = self.clocked_seconds();
        let stamp = self.clock_stamp();
        let total = clamp_sum(clocked, clamp_diff(now, stamp));
        proof {
            assert(clamp64(clocked + clamp64(now - stamp)) == total);
        }
        from_seconds(total)
    }

    /// Time clocked on the task so far, counting the open interval.
    pub fn elapsed_time(&self) -> (r: String)
        ensures
            exists|now: i64| r@ == #[trigger] elapsed_model(self@, now as int),
            !self.has_clock_spec() ==> r@.len() == 0,
    {
        let now = now_timestamp();
        self.elapsed_time_at(now)
    }

    pub open spec fn has_clock_spec(&self) -> bool {
        kv_get(self@.key_values, clock_key()) is Some
    }

    /// Makes the task open again: not complete, no completion date, no
    /// clock state; with `dates`, created on `today`.
    pub fn reset_on(&mut self, dates: bool, today: Date)
        requires
            old(self).wf(),
        ensures
            final(self)@ == reset_model(old(self)@, dates, today),
            final(self).wf(),
            final(self).index == old(self).index,
    {
        if dates {
            self.created_at = Some(today);
        }
        self.is_complete = false;
        self.completed_at = None;
        proof {
            reveal_strlit("clock");
            reveal_strlit("clocked");
            assert("clock"@ =~= clock_key());
            assert("clocked"@ =~= clocked_key());
        }
        self.key_values.remove("clock");
        self.key_values.remove("clocked");
    }

    /// Makes the task open again; with `dates`, created today.
    pub fn reset(&mut self, dates: bool)
        requires
            old(self).wf(),
        ensures
            exists|d: Date| d.valid() && final(self)@ == #[trigger] reset_model(old(self)@, dates, d),
            final(self).wf(),
            final(self).index == old(self).index,
    {
        let d = today();
        self.reset_on(dates, d);
    }

    /// Orders tasks: open before complete, then by priority (tasks with one
    /// first, `A` first), then by description.
    pub fn cmp(&self, b: &Todo) -> (r: std::cmp::Ordering)
        ensures
            r == ordering_of(order(self@, b@)),
    {
        if self.is_complete != b.is_complete {
            if self.is_complete {
                std::cmp::Ordering::Greater
            } else {
                std::cmp::Ordering::Less
            }
        } else {
            let ra: u32 = match self.priority {
                Some(c) => c as u32,
                None => 0x110000,
            };
            let rb: u32 = match b.priority {
                Some(c) => c as u32,
                None => 0x110000,
            };
            if ra < rb {
                std::cmp::Ordering::Less
            } else if ra > rb {
                std::cmp::Ordering::Greater
            } else {
                self.cmp_by_title(b)
            }
        }
    }

    /// Orders tasks by description alone.
    pub fn cmp_by_title(&self, b: &Todo) -> (r: std::cmp::Ordering)
        ensures
            r == ordering_of(lex(self@.task, b@.task)),
    {
        let x = chars_of(self.task.as_str());
        let y = chars_of(b.task.as_str());
        let c = lex_cmp(&x, &y);
        if c < 0 {
            std::cmp::Ordering::Less
        } else if c > 0 {
            std::cmp::Ordering::Greater
        } else {
            std::cmp::Ordering::Equal
        }
    }

    /// Orders tasks by due date: open before complete, then tasks with a
    /// `due` attribute first, earlier dates first, and `cmp` for the rest.
    pub fn cmp_by_due_date(&self, b: &Todo) -> (r: std::cmp::Ordering)
        ensures
            r == ordering_of(due_order(self@, b@)),
    {
        proof {
            reveal_strlit("due");
            assert("due"@ =~= due_key());
        }
        let duea = self.key_values.get("due");
        let dueb = b.key_values.get("due");
        if self.is_complete && !b.is_complete {
            std::cmp::Ordering::Greater
        } else if !self.is_complete && b.is_complete {
            std::cmp::Ordering::Less
        } else {
            match (duea, dueb) {
                (Some(_), None) => std::cmp::Ordering::Less,
                (None, Some(_)) => std::cmp::Ordering::Greater,
                (None, None) => self.cmp(b),
                (Some(x), Some(y)) => {
                    let xc = chars_of(x.as_str());
                    let yc = chars_of(y.as_str());
                    let c = lex_cmp(&xc, &yc);
                    proof {
                        crate::text::lemma_lex_props(xc@, yc@);
                    }
                    if c == 0 {
                        self.cmp(b)
                    } else if c < 0 {
                        std::cmp::Ordering::Less
                    } else {
                        std::cmp::Ordering::Greater
                    }
                },
            }
        }
    }
}

fn clone_strings(v: &Vec<String>) -> (r: Vec<String>)
    ensures
        r@ == v@,
{
    let mut r: Vec<String> = Vec::new();
    let mut i: usize = 0;
    while i < v.len()
        invariant
            i <= v@.len(),
            r@ == v@.take(i as int),
        decreases v@.len() - i,
    {
        r.push(v[i].clone());
        i += 1;
        assert(r@ =~= v@.take(i as int));
    }
    assert(v@.take(i as int) =~= v@);
    r
}

impl Clone for Todo {
    fn clone(&self) -> (r: Todo)
        ensures
            r@ == self@,
            r.index == self.index,
            r.key_values@ == self.key_values@,
    {
        Todo {
            id: self.id,
            index: self.index,
            is_complete: self.is_complete,
            created_at: self.created_at,
            completed_at: self.completed_at,
            task: self.task.clone(),
            priority: self.priority,
            projects: clone_strings(&self.projects),
            contexts: clone_strings(&self.contexts),
            key_values: self.key_values.clone(),
        }
    }
}

/// `cmp` orders tasks totally: by completion, then priority, then
/// description. It is antisymmetric and transitive, and two tasks it ranks
/// equal agree on completion, priority rank and description.
pub proof fn lemma_order_total(a: TodoModel, b: TodoModel, c: TodoModel)
    ensures
        order(a, b) == -order(b, a),
        -1 <= order(a, b) <= 1,
        order(a, b) == 0 <==> (a.is_complete == b.is_complete && pri_rank(a.priority) == pri_rank(
            b.priority,
        ) && a.task == b.task),
        order(a, b) <= 0 && order(b, c) <= 0 ==> order(a, c) <= 0,
        order(a, b) < 0 && order(b, c) <= 0 ==> order(a, c) < 0,
        !a.is_complete && b.is_complete ==> order(a, b) < 0,
        a.is_complete == b.is_complete && pri_rank(a.priority) < pri_rank(b.priority) ==> order(
            a,
            b,
        ) < 0,
        a.is_complete == b.is_complete && a.priority == b.priority ==> order(a, b) == lex(
            a.task,
            b.task,
        ),
{
    crate::text::lemma_lex_props(a.task, b.task);
    crate::text::lemma_lex_props(b.task, c.task);
    crate::text::lemma_lex_props(a.task, c.task);
    if order(a, b) <= 0 && order(b, c) <= 0 && a.is_complete == c.is_complete && pri_rank(
        a.priority,
    ) == pri_rank(c.priority) {
        crate::text::lemma_lex_trans(a.task, b.task, c.task);
    }
}

/// `cmp_by_due_date` is antisymmetric and transitive.
pub proof fn lemma_due_order_total(a: TodoModel, b: TodoModel, c: TodoModel)
    ensures
        due_order(a, b) == -due_order(b, a),
        -1 <= due_order(a, b) <= 1,
        due_order(a, b) <= 0 && due_order(b, c) <= 0 ==> due_order(a, c) <= 0,
{
    lemma_order_total(a, b, c);
    lemma_order_total(b, a, c);
    lemma_order_total(a, c, b);
    let (da, db, dc) = (kv_get(a.key_values, due_key()), kv_get(b.key_values, due_key()), kv_get(c.key_values, due_key()));
    if da is Some && db is Some {
        crate::text::lemma_lex_props(da->0, db->0);
    }
    if db is Some && dc is Some {
        crate::text::lemma_lex_props(db->0, dc->0);
    }
    if da is Some && dc is Some {
        crate::text::lemma_lex_props(da->0, dc->0);
    }
    if da is Some && db is Some && dc is Some {
        if due_order(a, b) <= 0 && due_order(b, c) <= 0 && a.is_complete == b.is_complete && b.is_complete == c.is_complete {
            if da->0 != db->0 && db->0 != dc->0 {
                crate::text::lemma_lex_trans(da->0, db->0, dc->0);
            }
        }
    }
}

/// Clocking in at `t0` then out at `t1`, on a task with no clock state,
/// leaves the time between as its `clocked` duration and the clock
/// stopped; nothing else changes.
pub proof fn lemma_clock_in_out(m: TodoModel, t0: i64, t1: i64)
    requires
        crate::kv::unique_keys(m.key_values),
        kv_get(m.key_values, clock_key()) is None,
        kv_get(m.key_values, clocked_key()) is None,
    ensures
        ({
            let r = clock_out_model(clock_in_model(m, t0 as int), t1 as int);
            &&& kv_get(r.key_values, clocked_key()) == Some(encode(clamp64(t1 - t0)))
            &&& kv_get(r.key_values, clock_key()) is None
            &&& r == (TodoModel { key_values: r.key_values, ..m })
        }),
{
    let kv = m.key_values;
    assert(clock_key() != clocked_key()) by {
        assert(clock_key().len() != clocked_key().len());
    }
    let m1 = clock_in_model(m, t0 as int);
    let kv1 = kv_insert(kv, clock_key(), int_text(t0 as int));
    assert(m1.key_values == kv1);
    crate::kv::lemma_insert_unique(kv, clock_key(), int_text(t0 as int));
    crate::kv::lemma_get_insert(kv, clock_key(), int_text(t0 as int), clocked_key());
    crate::text::lemma_int_round_trip(t0 as int);
    assert(clocked_of(m1) == 0);
    assert(stamp_of(m1) == t0);
    let e = encode(clamp64(t1 - t0));
    assert(clamp64(0 + clamp64(t1 - t0)) == clamp64(t1 - t0));
    let kv2 = kv_insert(kv1, clocked_key(), e);
    crate::kv::lemma_insert_unique(kv1, clocked_key(), e);
    crate::kv::lemma_get_remove(kv2, clock_key(), clocked_key());
    crate::kv::lemma_get_remove(kv2, clock_key(), clock_key());
}

} // verus!
