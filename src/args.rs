//! Task references given on the command line: 1-based numbers of lines.

use vstd::prelude::*;
use crate::text::{int_of, parse_int};
use crate::todo::{Todo, TodoModel};

verus! {

/// The position (0-based) a task number refers to; `None` for text that
/// is not a number of 1 or more.
pub open spec fn arg_position(a: Seq<char>) -> Option<int> {
    match int_of(a) {
        Some(v) => if v >= 1 && v - 1 <= usize::MAX {
            Some(v - 1)
        } else {
            None
        },
        None => None,
    }
}

pub fn position_of(a: &String) -> (r: Option<usize>)
    ensures
        r is Some <==> arg_position(a@) is Some,
        r is Some ==> r->0 == arg_position(a@)->0,
{
    match parse_int(a.as_str()) {
        Some(v) => if v >= 1 && ((v - 1) as u64) <= (usize::MAX as u64) {
            Some((v - 1) as u64 as usize)
        } else {
            None
        },
        None => None,
    }
}

/// The models of a list of tasks.
pub open spec fn models(s: Seq<Todo>) -> Seq<TodoModel> {
    s.map_values(|t: Todo| t@)
}

/// Positions of a list of length `n` that the arguments refer to.
pub open spec fn referenced(args: Seq<String>, n: int) -> Set<int> {
    Set::new(
        |p: int|
            0 <= p < n && exists|k: int|
                0 <= k < args.len() && arg_position((#[trigger] args[k])@) == Some(p),
    )
}

/// Every task of the list is well formed.
pub open spec fn all_wf(s: Seq<Todo>) -> bool {
    forall|i: int| 0 <= i < s.len() ==> (#[trigger] s[i]).wf()
}

/// Takes the task at `i` out of the list, to be changed and put back.
pub fn take_at(todos: &mut Vec<Todo>, i: usize) -> (r: Todo)
    requires
        i < old(todos)@.len(),
    ensures
        r == old(todos)@[i as int],
        final(todos)@ == old(todos)@.remove(i as int),
{
    todos.remove(i)
}

/// Puts a task back at `i`.
pub fn put_back(todos: &mut Vec<Todo>, i: usize, t: Todo)
    requires
        i <= old(todos)@.len(),
    ensures
        final(todos)@ == old(todos)@.insert(i as int, t),
{
    todos.insert(i, t);
}

/// For each position below `n`, whether an argument refers to it.
pub fn mark_referenced(args: &Vec<String>, n: usize) -> (r: Vec<bool>)
    ensures
        r@.len() == n,
        forall|p: int| 0 <= p < n ==> r@[p] == referenced(args@, n as int).contains(p),
{
    let mut r: Vec<bool> = Vec::new();
    let mut i: usize = 0;
    while i < n
        invariant
            i <= n,
            r@.len() == i,
            forall|p: int| 0 <= p < i ==> !r@[p],
        decreases n - i,
    {
        r.push(false);
        i += 1;
    }
    let mut j: usize = 0;
    while j < args.len()
        invariant
            j <= args@.len(),
            r@.len() == n,
            forall|p: int| 0 <= p < n ==> r@[p] == (exists|k: int|
                0 <= k < j && arg_position((#[trigger] args@[k])@) == Some(p)),
        decreases args@.len() - j,
    {
        let ghost prev = r@;
        match position_of(&args[j]) {
            Some(p) => {
                if p < n {
                    r.set(p, true);
                }
            },
            None => {},
        }
        proof {
            assert forall|p: int| 0 <= p < n implies r@[p] == (exists|k: int|
                0 <= k < j + 1 && arg_position((#[trigger] args@[k])@) == Some(p)) by {
                if r@[p] && !prev[p] {
                    assert(arg_position(args@[j as int]@) == Some(p));
                }
                if exists|k: int| 0 <= k < j + 1 && arg_position((#[trigger] args@[k])@) == Some(p) {
                    let k = choose|k: int| 0 <= k < j + 1 && arg_position((#[trigger] args@[k])@) == Some(p);
                    if k < j {
                        assert(prev[p]);
                    }
                }
            }
        }
        j += 1;
    }
    r
}

} // verus!
