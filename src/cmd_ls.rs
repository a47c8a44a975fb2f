//! Choosing, ordering and limiting the tasks to list.

use vstd::prelude::*;
use crate::date::Date;
use crate::text::{lex, to_upper, upper_of};
use crate::todo::{due_order, order, Todo};
use crate::todo_list::{at_priority, due_state, stable_sort_of, text_state, TodoList};

verus! {

/// Arguments of the `ls` command.
pub struct Opts {
    pub help: bool,
    /// Words the listed tasks hold (`-word`: do not hold).
    pub free: Vec<String>,
    /// Only tasks at or above this priority; below `A` for all tasks.
    pub priority: char,
    /// Only open tasks.
    pub incomplete: bool,
    /// Only open tasks that are due.
    pub past_due: bool,
    /// Order by description.
    pub title_order: bool,
    /// Order by due date.
    pub due_date_order: bool,
    /// At most this many tasks; 0 for no limit.
    pub limit: usize,
    /// Color output: `auto`, `always` or `never`.
    pub color: String,
}

/// The options when none are given.
pub fn default_opts() -> (r: Opts)
    ensures
        r.free@.len() == 0,
        r.priority == '\0',
        !r.help && !r.incomplete && !r.past_due && !r.title_order && !r.due_date_order,
        r.limit == 0,
        r.color@ == seq!['a', 'u', 't', 'o'],
{
    proof {
        reveal_strlit("auto");
    }
    Opts {
        help: false,
        free: Vec::new(),
        priority: '\0',
        incomplete: false,
        past_due: false,
        title_order: false,
        due_date_order: false,
        limit: 0,
        color: String::from_str("auto"),
    }
}

/// The tasks that hold each word (or, for `-word`, do not) of the first
/// `k` words.
pub open spec fn text_filtered(s: Seq<Todo>, words: Seq<String>, k: int) -> Seq<Todo>
    decreases k,
{
    if k <= 0 {
        s
    } else {
        let prev = text_filtered(s, words, k - 1);
        let w = words[k - 1]@;
        if w.len() > 0 && w[0] == '-' {
            prev.filter(|t: Todo| text_state(t, w.drop_first(), false))
        } else {
            prev.filter(|t: Todo| text_state(t, w, true))
        }
    }
}

/// The tasks the options choose, before ordering.
pub open spec fn chosen(s: Seq<Todo>, opts: Opts, today: Date) -> Seq<Todo> {
    let s1 = if opts.priority >= 'A' {
        s.filter(|t: Todo| at_priority(t, upper_of(opts.priority)))
    } else {
        s
    };
    let s2 = if opts.incomplete {
        s1.filter(|t: Todo| t.is_complete == false)
    } else {
        s1
    };
    let s3 = if opts.past_due {
        s2.filter(|t: Todo| due_state(t, true, today))
    } else {
        s2
    };
    text_filtered(s3, opts.free@, opts.free@.len() as int)
}

/// The order the options ask for.
pub open spec fn listing_order(opts: Opts) -> spec_fn(Todo, Todo) -> int {
    if opts.title_order {
        |a: Todo, b: Todo| lex(a@.task, b@.task)
    } else if opts.due_date_order {
        |a: Todo, b: Todo| due_order(a@, b@)
    } else {
        |a: Todo, b: Todo| order(a@, b@)
    }
}

/// The tasks to list, on `today`: those the options choose, in the order
/// they ask for, at most `limit` of them when it is not 0.
pub fn execute(opts: &Opts, todo_list: TodoList, today: Date) -> (r: TodoList)
    requires
        today.valid(),
    ensures
        exists|s: Seq<Todo>|
            s.to_multiset() == chosen(todo_list.items@, *opts, today).to_multiset() && stable_sort_of(
                s,
                chosen(todo_list.items@, *opts, today),
                listing_order(*opts),
            ) && r.items@ == if opts.limit > 0 && opts.limit < s.len() {
                s.take(opts.limit as int)
            } else {
                s
            },
{
    let mut list = todo_list;
    let ghost orig = list.items@;
    if opts.priority >= 'A' {
        let p = to_upper(opts.priority);
        list = list.filter_by_priority(p);
    }
    if opts.incomplete {
        list = list.filter_by_complete(false);
    }
    if opts.past_due {
        list = list.filter_by_past_due_on(true, today);
    }
    let ghost s3 = list.items@;
    let mut k: usize = 0;
    while k < opts.free.len()
        invariant
            k <= opts.free@.len(),
            list.items@ == text_filtered(s3, opts.free@, k as int),
        decreases opts.free@.len() - k,
    {
        list = list.filter_by_text(opts.free[k].as_str());
        k += 1;
    }
    assert(list.items@ == chosen(orig, *opts, today));
    let ghost c = list.items@;
    if opts.title_order {
        list.sort_by_title();
        assert(listing_order(*opts) =~= (|a: Todo, b: Todo| lex(a@.task, b@.task)));
    } else if opts.due_date_order {
        list.sort_by_due_date();
        assert(listing_order(*opts) =~= (|a: Todo, b: Todo| due_order(a@, b@)));
    } else {
        list.sort();
        assert(listing_order(*opts) =~= (|a: Todo, b: Todo| order(a@, b@)));
    }
    let ghost s = list.items@;
    assert(s.to_multiset() == c.to_multiset() && stable_sort_of(s, c, listing_order(*opts)));
    if opts.limit > 0 && opts.limit < list.items.len() {
        list.items.truncate(opts.limit);
        assert(list.items@ =~= s.take(opts.limit as int));
    }
    list
}

} // verus!
