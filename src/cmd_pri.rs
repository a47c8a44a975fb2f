//! Setting or clearing the priority of tasks.

use vstd::prelude::*;
use crate::args::{all_wf, arg_position, models, position_of, put_back, referenced, take_at};
use crate::text::{to_upper, upper_of};
use crate::todo::{is_upper, Todo, TodoModel};

verus! {

/// Arguments of the `pri` command.
pub struct Opts {
    pub help: bool,
    /// The priority, `A` to `Z`; lower-case letters are taken as capitals.
    pub priority: Option<char>,
    /// Clear the priority.
    pub clear: bool,
    /// Numbers of the tasks.
    pub free: Vec<String>,
}

/// The priority the command sets.
pub open spec fn new_priority(priority: Option<char>, clear: bool) -> Option<char> {
    match priority {
        None => None,
        Some(p) => if clear {
            None
        } else {
            Some(upper_of(p))
        },
    }
}

/// A priority option that names no letter is refused: a priority is a
/// capital `A` to `Z`.
pub open spec fn refused(priority: Option<char>, clear: bool) -> bool {
    match priority {
        Some(p) => !clear && !is_upper(upper_of(p)),
        None => false,
    }
}

/// Sets the priority of each task the arguments number, or clears it.
/// `None`, with no task changed, when the priority is refused; else the
/// arguments that number no task.
pub fn execute(opts: &Opts, todos: &mut Vec<Todo>) -> (r: Option<Vec<String>>)
    requires
        all_wf(old(todos)@),
    ensures
        r is None <==> refused(opts.priority, opts.clear),
        r is None ==> final(todos)@ == old(todos)@,
        r is Some ==> {
            &&& final(todos)@.len() == old(todos)@.len()
            &&& all_wf(final(todos)@)
            &&& forall|i: int|
                0 <= i < old(todos)@.len() ==> (#[trigger] final(todos)@[i])@ == if referenced(
                    opts.free@,
                    old(todos)@.len() as int,
                ).contains(i) {
                    TodoModel {
                        priority: new_priority(opts.priority, opts.clear),
                        ..old(todos)@[i]@
                    }
                } else {
                    old(todos)@[i]@
                }
            &&& r->0@ == opts.free@.filter(
                |a: String|
                    !(arg_position(a@) is Some && arg_position(a@)->0 < old(todos)@.len()),
            )
        },
{
    if let Some(p) = opts.priority {
        if !opts.clear {
            let u = to_upper(p);
            if !('A' <= u && u <= 'Z') {
                return None;
            }
        }
    }
    Some(set_priorities(opts, todos))
}

fn set_priorities(opts: &Opts, todos: &mut Vec<Todo>) -> (missing: Vec<String>)
    requires
        all_wf(old(todos)@),
    ensures
        final(todos)@.len() == old(todos)@.len(),
        all_wf(final(todos)@),
        forall|i: int|
            0 <= i < old(todos)@.len() ==> (#[trigger] final(todos)@[i])@ == if referenced(
                opts.free@,
                old(todos)@.len() as int,
            ).contains(i) {
                TodoModel {
                    priority: new_priority(opts.priority, opts.clear),
                    ..old(todos)@[i]@
                }
            } else {
                old(todos)@[i]@
            },
        missing@ == opts.free@.filter(
            |a: String|
                !(arg_position(a@) is Some && arg_position(a@)->0 < old(todos)@.len()),
        ),
{
    let priority = match opts.priority {
        None => None,
        Some(p) => if opts.clear {
            None
        } else {
            Some(to_upper(p))
        },
    };
    let ghost orig = todos@;
    let ghost n = orig.len() as int;
    let ghost pred = |a: String| !(arg_position(a@) is Some && arg_position(a@)->0 < n);
    let mut missing: Vec<String> = Vec::new();
    let mut j: usize = 0;
    proof {
        reveal(Seq::filter);
        assert(opts.free@.take(0).filter(pred) =~= Seq::<String>::empty());
    }
    while j < opts.free.len()
        invariant
            j <= opts.free@.len(),
            n == orig.len(),
            todos@.len() == n,
            all_wf(todos@),
            priority == new_priority(opts.priority, opts.clear),
            pred == (|a: String| !(arg_position(a@) is Some && arg_position(a@)->0 < n)),
            missing@ == opts.free@.take(j as int).filter(pred),
            forall|i: int|
                0 <= i < n ==> (#[trigger] todos@[i])@ == if exists|k: int|
                    0 <= k < j && arg_position((#[trigger] opts.free@[k])@) == Some(i) {
                    TodoModel { priority: new_priority(opts.priority, opts.clear), ..orig[i]@ }
                } else {
                    orig[i]@
                },
        decreases opts.free@.len() - j,
    {
        let ghost before = todos@;
        proof {
            reveal(Seq::filter);
            assert(opts.free@.take(j + 1).drop_last() =~= opts.free@.take(j as int));
        }
        let mut found = false;
        match position_of(&opts.free[j]) {
            Some(p) => {
                if p < todos.len() {
                    let mut t = take_at(todos, p);
                    t.priority = priority;
                    put_back(todos, p, t);
                    found = true;
                    assert(todos@ =~= before.update(p as int, t));
                }
            },
            None => {},
        }
        if !found {
            missing.push(opts.free[j].clone());
        }
        proof {
            assert forall|i: int| 0 <= i < n implies (#[trigger] todos@[i])@ == if exists|k: int|
                0 <= k < j + 1 && arg_position((#[trigger] opts.free@[k])@) == Some(i) {
                TodoModel { priority: new_priority(opts.priority, opts.clear), ..orig[i]@ }
            } else {
                orig[i]@
            } by {
                if exists|k: int| 0 <= k < j + 1 && arg_position((#[trigger] opts.free@[k])@) == Some(i) {
                    let k = choose|k: int| 0 <= k < j + 1 && arg_position((#[trigger] opts.free@[k])@) == Some(i);
                    if k < j {
                        assert(exists|k: int| 0 <= k < j && arg_position((#[trigger] opts.free@[k])@) == Some(i));
                    }
                } else {
                    assert(!exists|k: int| 0 <= k < j && arg_position((#[trigger] opts.free@[k])@) == Some(i));
                }
            }
        }
        j += 1;
    }
    proof {
        assert(opts.free@.take(j as int) =~= opts.free@);
        assert forall|i: int| 0 <= i < n implies (#[trigger] todos@[i])@ == if referenced(
            opts.free@,
            n,
        ).contains(i) {
            TodoModel { priority: new_priority(opts.priority, opts.clear), ..orig[i]@ }
        } else {
            orig[i]@
        } by {
            if referenced(opts.free@, n).contains(i) {
                let k = choose|k: int| 0 <= k < opts.free@.len() && arg_position((#[trigger] opts.free@[k])@) == Some(i);
                assert(exists|k: int| 0 <= k < j && arg_position((#[trigger] opts.free@[k])@) == Some(i));
            }
        }
    }
    missing
}

} // verus!
