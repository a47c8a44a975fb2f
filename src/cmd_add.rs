//! Adding a task from the command line.

use vstd::prelude::*;
use crate::cfg::{get_default_priority, get_project_rules, Settings};
use crate::date::{is_date_shape, date_of_shape, read_date, weekday_of, Date, Weekday};
use crate::kv::{kv_get, kv_insert, KeyValues};
use crate::repeat_time::{days_later, next_date, next_occurrence, next_weekday};
use crate::text::{chars_of, string_of, to_upper, upper_of};
use crate::todo::{clock_in_model, due_key, join, parse_model, Todo, TodoModel};
use crate::line::views;

verus! {

/// Arguments of the `add` command.
pub struct Opts {
    pub help: bool,
    /// Words of the task.
    pub free: Vec<String>,
    /// Priority of the new task, `\0` for none.
    pub priority: char,
    /// Clock into the new task.
    pub clock_in: bool,
    /// Print only errors.
    pub quiet: bool,
}

/// `s` is `word` (lower-case ASCII) when upper-case ASCII letters are
/// taken as lower-case.
pub open spec fn word_is(s: Seq<char>, word: Seq<char>) -> bool {
    &&& s.len() == word.len()
    &&& forall|i: int|
        0 <= i < s.len() ==> (#[trigger] s[i] == word[i] || ('A' <= s[i] <= 'Z' && (s[i] as u32)
            + 32 == word[i] as u32))
}

fn word_eq(s: &Vec<char>, word: &str) -> (r: bool)
    ensures
        r == word_is(s@, word@),
{
    let w = chars_of(word);
    if s.len() != w.len() {
        return false;
    }
    let mut i: usize = 0;
    while i < s.len()
        invariant
            s@.len() == w@.len(),
            w@ == word@,
            i <= s@.len(),
            forall|k: int|
                0 <= k < i ==> (#[trigger] s@[k] == w@[k] || ('A' <= s@[k] <= 'Z' && (s@[k] as u32)
                    + 32 == w@[k] as u32)),
        decreases s@.len() - i,
    {
        let c = s[i];
        if !(c == w[i] || ('A' <= c && c <= 'Z' && c as u32 + 32 == w[i] as u32)) {
            return false;
        }
        i += 1;
    }
    true
}

/// The next day that is `w`, from `today`.
pub open spec fn on_weekday(today: Date, w: Weekday) -> Option<Date> {
    days_later(today, (w.index() - weekday_of(today.day_number())) % 7)
}

/// The date a `due:` value names, on `today`: `today`, `tomorrow`, a
/// weekday name (its next day), a `YYYY-MM-DD` date, or a repeat pattern
/// counted from today; anything else is today. `None` past the calendar's
/// last date.
pub open spec fn relative_date(v: Seq<char>, today: Date) -> Option<Date> {
    if word_is(v, "today"@) {
        Some(today)
    } else if word_is(v, "tomorrow"@) {
        days_later(today, 1)
    } else if word_is(v, "monday"@) {
        on_weekday(today, Weekday::Mon)
    } else if word_is(v, "tuesday"@) {
        on_weekday(today, Weekday::Tue)
    } else if word_is(v, "wednesday"@) {
        on_weekday(today, Weekday::Wed)
    } else if word_is(v, "thursday"@) {
        on_weekday(today, Weekday::Thu)
    } else if word_is(v, "friday"@) {
        on_weekday(today, Weekday::Fri)
    } else if word_is(v, "saturday"@) {
        on_weekday(today, Weekday::Sat)
    } else if word_is(v, "sunday"@) {
        on_weekday(today, Weekday::Sun)
    } else if v.len() == 10 && is_date_shape(v) && date_of_shape(v) is Some {
        date_of_shape(v)
    } else if next_occurrence(v, today) is Some {
        next_occurrence(v, today)
    } else {
        Some(today)
    }
}

/// The date a `due:` value names, on `today`.
pub fn compute_relative_date(value: &str, today: Date) -> (r: Option<Date>)
    requires
        today.valid(),
    ensures
        r == relative_date(value@, today),
        r is Some ==> r->0.valid(),
{
    let v = chars_of(value);
    if word_eq(&v, "today") {
        Some(today)
    } else if word_eq(&v, "tomorrow") {
        proof {
            crate::date::lemma_valid_in_range(today);
        }
        let r = next_date("1d", Some(today));
        proof {
            reveal_strlit("1d");
            assert("1d"@.drop_last() =~= seq!['1']);
            reveal_with_fuel(crate::text::digits_value, 2);
            assert(seq!['1'].drop_last() =~= Seq::<char>::empty());
        }
        r
    } else if word_eq(&v, "monday") {
        next_weekday(Weekday::Mon, Some(today))
    } else if word_eq(&v, "tuesday") {
        next_weekday(Weekday::Tue, Some(today))
    } else if word_eq(&v, "wednesday") {
        next_weekday(Weekday::Wed, Some(today))
    } else if word_eq(&v, "thursday") {
        next_weekday(Weekday::Thu, Some(today))
    } else if word_eq(&v, "friday") {
        next_weekday(Weekday::Fri, Some(today))
    } else if word_eq(&v, "saturday") {
        next_weekday(Weekday::Sat, Some(today))
    } else if word_eq(&v, "sunday") {
        next_weekday(Weekday::Sun, Some(today))
    } else {
        if v.len() == 10 {
            match read_date(&v, 0) {
                Some(Some(d)) => {
                    assert(v@.skip(0) =~= v@);
                    return Some(d);
                },
                _ => {
                    assert(v@.skip(0) =~= v@);
                },
            }
        }
        match next_date(value, Some(today)) {
            Some(d) => Some(d),
            None => Some(today),
        }
    }
}

/// The priority of the new task: the option (as a capital), or the
/// settings' default when the option is `\0`.
pub open spec fn add_priority(opt: char, settings: Settings) -> Option<char> {
    let u = upper_of(opt);
    if u == '\0' {
        match settings.default_priority {
            Some(s) => if s@.len() > 0 && s@[0] != '\0' {
                Some(s@[0])
            } else {
                None
            },
            None => None,
        }
    } else {
        Some(u)
    }
}

/// The line the new task is read from: its words, behind its priority mark.
pub open spec fn add_line(free: Seq<String>, priority: Option<char>) -> Seq<char> {
    match priority {
        Some(c) => seq!['(', c, ')', ' '] + join(views(free)),
        None => join(views(free)),
    }
}

/// The first rules entry of a project is at `i`.
pub open spec fn rules_at(rules: Seq<(String, KeyValues)>, name: Seq<char>, i: int) -> bool {
    &&& 0 <= i < rules.len()
    &&& rules[i].0@ == name
    &&& forall|j: int| 0 <= j < i ==> (#[trigger] rules[j]).0@ != name
}

/// The text a project's `append` rule adds to its tasks.
pub open spec fn append_rule(settings: Settings, name: Seq<char>) -> Option<Seq<char>> {
    if exists|i: int| rules_at(settings.project_rules@, name, i) {
        kv_get(
            settings.project_rules@[choose|i: int| rules_at(settings.project_rules@, name, i)].1@,
            "append"@,
        )
    } else {
        None
    }
}

/// The description with the `append` rules of the first `k` projects.
pub open spec fn appended(task: Seq<char>, projects: Seq<Seq<char>>, settings: Settings, k: int) -> Seq<char>
    decreases k,
{
    if k <= 0 {
        task
    } else {
        let prev = appended(task, projects, settings, k - 1);
        match append_rule(settings, projects[k - 1].filter(|c: char| c != '+')) {
            Some(a) => prev + seq![' '] + a,
            None => prev,
        }
    }
}

/// The new task, read from `line` with identifier `fresh`, then dated,
/// clocked in and given its due date and project texts.
pub open spec fn added_model(
    line: Seq<char>,
    fresh: u128,
    opts: Opts,
    settings: Settings,
    today: Date,
    now: int,
) -> TodoModel {
    let m0 = parse_model(line, fresh)->0;
    let m1 = if settings.log_create_date {
        TodoModel { created_at: Some(today), ..m0 }
    } else {
        m0
    };
    let m2 = if opts.clock_in {
        clock_in_model(m1, now)
    } else {
        m1
    };
    let m3 = match kv_get(m2.key_values, due_key()) {
        Some(v) => match relative_date(v, today) {
            Some(d) => TodoModel {
                key_values: kv_insert(m2.key_values, due_key(), crate::date::iso_text(d)),
                ..m2
            },
            None => m2,
        },
        None => m2,
    };
    TodoModel { task: appended(m3.task, m3.projects, settings, m3.projects.len() as int), ..m3 }
}

fn push_chars(out: &mut Vec<char>, s: &str)
    ensures
        final(out)@ == old(out)@ + s@,
{
    let c = chars_of(s);
    let ghost before = out@;
    let mut i: usize = 0;
    while i < c.len()
        invariant
            i <= c@.len(),
            out@ == before + c@.take(i as int),
        decreases c@.len() - i,
    {
        out.push(c[i]);
        i += 1;
        assert(out@ =~= before + c@.take(i as int));
    }
    assert(c@.take(i as int) =~= c@);
}

/// The name of a project tag: the tag without its `+` signs.
fn project_name(tag: &String) -> (r: String)
    ensures
        r@ == tag@.filter(|c: char| c != '+'),
{
    let ghost pred = |c: char| c != '+';
    let c = chars_of(tag.as_str());
    let mut out: Vec<char> = Vec::new();
    let mut i: usize = 0;
    proof {
        reveal(Seq::filter);
        assert(c@.take(0).filter(pred) =~= Seq::<char>::empty());
    }
    while i < c.len()
        invariant
            i <= c@.len(),
            pred == (|c: char| c != '+'),
            out@ == c@.take(i as int).filter(pred),
        decreases c@.len() - i,
    {
        proof {
            reveal(Seq::filter);
            assert(c@.take(i + 1).drop_last() =~= c@.take(i as int));
        }
        if c[i] != '+' {
            out.push(c[i]);
        }
        i += 1;
    }
    assert(c@.take(i as int) =~= c@);
    string_of(&out)
}

/// The words joined by single spaces.
fn join_words(free: &Vec<String>) -> (r: Vec<char>)
    ensures
        r@ == join(views(free@)),
{
    let mut words: Vec<char> = Vec::new();
    let mut k: usize = 0;
    assert(words@ =~= join(views(free@.take(0))));
    while k < free.len()
        invariant
            k <= free@.len(),
            words@ == join(views(free@.take(k as int))),
        decreases free@.len() - k,
    {
        let ghost prev = views(free@.take(k as int));
        if k > 0 {
            words.push(' ');
        }
        push_chars(&mut words, free[k].as_str());
        k += 1;
        proof {
            assert(views(free@.take(k as int)) =~= prev.push(free@[k - 1]@));
            assert(views(free@.take(k as int)).drop_last() =~= prev);
            if k == 1 {
                assert(prev =~= Seq::<Seq<char>>::empty());
            }
        }
    }
    assert(free@.take(k as int) =~= free@);
    words
}

/// Adds to the description the `append` rule of each of its projects.
fn append_project_rules(t: &mut Todo, settings: &Settings)
    requires
        old(t).wf(),
    ensures
        final(t).wf(),
        final(t)@ == (TodoModel {
            task: appended(old(t)@.task, old(t)@.projects, *settings, old(t)@.projects.len() as int),
            ..old(t)@
        }),
{
    let ghost base = t.task@;
    let ghost m3 = t@;
    assert(t@ =~= (TodoModel { task: appended(base, m3.projects, *settings, 0), ..m3 }));
    let mut i: usize = 0;
    while i < t.projects.len()
        invariant
            i <= t.projects@.len(),
            t.wf(),
            t@ == (TodoModel { task: appended(base, m3.projects, *settings, i as int), ..m3 }),
            m3.task == base,
        decreases t.projects@.len() - i,
    {
        let name = project_name(&t.projects[i]);
        proof {
            reveal_strlit("append");
        }
        let extra = match get_project_rules(settings, name.as_str()) {
            Some(rules) => {
                proof {
                    let w = choose|w: int| 0 <= w < settings.project_rules@.len() && (#[trigger] settings.project_rules@[w]).0@ == name@ && rules == &settings.project_rules@[w].1
                        && forall|j: int| 0 <= j < w ==> (#[trigger] settings.project_rules@[j]).0@ != name@;
                    assert(rules_at(settings.project_rules@, name@, w));
                    let c = choose|c: int| rules_at(settings.project_rules@, name@, c);
                    if c < w {
                        assert(settings.project_rules@[c].0@ == name@);
                    } else if c > w {
                        assert(settings.project_rules@[w].0@ == name@);
                    }
                }
                match rules.get("append") {
                    Some(a) => Some(a.clone()),
                    None => None,
                }
            },
            None => None,
        };
        proof {
            assert((|c: char| c != '+') =~= (|c: char| c != '+'));
            assert(m3.projects[i as int] == t.projects@[i as int]@);
            assert(name@ == m3.projects[i as int].filter(|c: char| c != '+'));
            if extra is Some {
                assert(append_rule(*settings, name@) == Some(extra->0@));
            } else {
                assert(append_rule(*settings, name@) is None);
            }
        }
        let ghost before = t.task@;
        match &extra {
            Some(a) => {
                let mut task = chars_of(t.task.as_str());
                task.push(' ');
                push_chars(&mut task, a.as_str());
                t.task = string_of(&task);
            },
            None => {},
        }
        i += 1;
        proof {
            if extra is Some {
                assert(t.task@ =~= before + seq![' '] + extra->0@);
            }
        }
    }
}

/// The new task of the `add` command, on `today` at Unix time `now`, with
/// identifier `fresh` when its words name none; `None` when its words
/// hold no description.
pub fn execute(opts: &Opts, settings: &Settings, today: Date, now: i64, fresh: u128) -> (r: Option<Todo>)
    requires
        today.valid(),
    ensures
        r is Some <==> parse_model(add_line(opts.free@, add_priority(opts.priority, *settings)), fresh) is Some,
        r is Some ==> r->0@ == added_model(
            add_line(opts.free@, add_priority(opts.priority, *settings)),
            fresh,
            *opts,
            *settings,
            today,
            now as int,
        ) && r->0.wf(),
{
    let words = join_words(&opts.free);
    let u = to_upper(opts.priority);
    let priority = if u == '\0' {
        match get_default_priority(settings) {
            Some(c) => if c != '\0' {
                Some(c)
            } else {
                None
            },
            None => None,
        }
    } else {
        Some(u)
    };
    let mut line: Vec<char> = Vec::new();
    match priority {
        Some(c) => {
            line.push('(');
            line.push(c);
            line.push(')');
            line.push(' ');
        },
        None => {},
    }
    let ghost head = line@;
    let mut q: usize = 0;
    while q < words.len()
        invariant
            q <= words@.len(),
            line@ == head + words@.take(q as int),
        decreases words@.len() - q,
    {
        line.push(words[q]);
        q += 1;
        assert(line@ =~= head + words@.take(q as int));
    }
    assert(words@.take(q as int) =~= words@);
    assert(line@ =~= add_line(opts.free@, add_priority(opts.priority, *settings)));
    let text = string_of(&line);
    let mut t = match Todo::parse_with_id(text.as_str(), fresh) {
        None => return None,
        Some(t) => t,
    };
    if settings.log_create_date {
        t.created_at = Some(today);
    }
    if opts.clock_in {
        t.clock_in_at(now);
    }
    proof {
        reveal_strlit("due");
        assert("due"@ =~= due_key());
    }
    let due = match t.key_values.get("due") {
        Some(v) => Some(v.clone()),
        None => None,
    };
    match due {
        Some(v) => match compute_relative_date(v.as_str(), today) {
            Some(d) => {
                t.key_values.insert(String::from_str("due"), d.to_iso_string());
            },
            None => {},
        },
        None => {},
    }
    append_project_rules(&mut t, settings);
    Some(t)
}

} // verus!
