//! The lines of a todo.txt file as a list of tasks, and back.

use vstd::prelude::*;
use crate::todo::{parse_model, serialize_model, Todo};
use crate::todo_list::TodoList;

verus! {

/// A line reads as a task (whatever identifier it is given).
pub open spec fn parseable(l: Seq<char>) -> bool {
    parse_model(l, 0) is Some
}

pub open spec fn parseable_lines(lines: Seq<String>) -> Seq<String> {
    lines.filter(|l: String| parseable(l@))
}

/// The tasks of the lines that read as tasks, in file order, each with
/// its position among them as its index.
pub fn parse_todo_lines(lines: &Vec<String>) -> (r: TodoList)
    requires
        lines@.len() <= u32::MAX,
    ensures
        r.items@.len() == parseable_lines(lines@).len(),
        forall|k: int|
            0 <= k < r.items@.len() ==> {
                &&& (#[trigger] r.items@[k]).index == k
                &&& r.items@[k].wf()
                &&& exists|fresh: u128| r.items@[k]@ == #[trigger] parse_model(parseable_lines(lines@)[k]@, fresh)->0
            },
{
    let ghost pred = |l: String| parseable(l@);
    let mut items: Vec<Todo> = Vec::new();
    let mut i: usize = 0;
    proof {
        reveal(Seq::filter);
        assert(lines@.take(0).filter(pred) =~= Seq::<String>::empty());
    }
    while i < lines.len()
        invariant
            i <= lines@.len(),
            lines@.len() <= u32::MAX,
            pred == (|l: String| parseable(l@)),
            items@.len() == lines@.take(i as int).filter(pred).len(),
            items@.len() <= i,
            forall|k: int|
                0 <= k < items@.len() ==> {
                    &&& (#[trigger] items@[k]).index == k
                    &&& items@[k].wf()
                    &&& exists|fresh: u128| items@[k]@ == #[trigger] parse_model(lines@.take(i as int).filter(pred)[k]@, fresh)->0
                },
        decreases lines@.len() - i,
    {
        let ghost f0 = lines@.take(i as int).filter(pred);
        let ghost f1 = lines@.take(i + 1).filter(pred);
        let ghost before = items@;
        proof {
            reveal(Seq::filter);
            assert(lines@.take(i + 1).drop_last() =~= lines@.take(i as int));
            assert(lines@.take(i + 1).last() == lines@[i as int]);
            assert(f1 == if pred(lines@[i as int]) {
                f0.push(lines@[i as int])
            } else {
                f0
            });
        }
        match Todo::parse(lines[i].as_str()) {
            Some(t) => {
                let mut t = t;
                t.index = items.len() as u32;
                items.push(t);
                proof {
                    assert(pred(lines@[i as int]));
                    assert forall|k: int| 0 <= k < items@.len() implies {
                        &&& (#[trigger] items@[k]).index == k
                        &&& items@[k].wf()
                        &&& exists|fresh: u128| items@[k]@ == #[trigger] parse_model(f1[k]@, fresh)->0
                    } by {
                        if k < before.len() {
                            assert(items@[k] == before[k]);
                            assert(f1[k] == f0[k]);
                        } else {
                            assert(f1[k] == lines@[i as int]);
                        }
                    }
                }
            },
            None => {
                proof {
                    assert(!pred(lines@[i as int]));
                }
            },
        }
        i += 1;
    }
    assert(lines@.take(i as int) =~= lines@);
    assert((|l: String| parseable(l@)) =~= pred);
    assert(parseable_lines(lines@) == lines@.take(i as int).filter(pred));
    assert forall|k: int| 0 <= k < items@.len() implies {
        &&& (#[trigger] items@[k]).index == k
        &&& items@[k].wf()
        &&& exists|fresh: u128| items@[k]@ == #[trigger] parse_model(parseable_lines(lines@)[k]@, fresh)->0
    } by {
        assert(parseable_lines(lines@)[k] == lines@.take(i as int).filter(pred)[k]);
    }
    TodoList { items }
}

/// The lines for a list of tasks.
pub fn serialize_todos(todos: &Vec<Todo>) -> (r: Vec<String>)
    ensures
        r@.len() == todos@.len(),
        forall|k: int| 0 <= k < r@.len() ==> (#[trigger] r@[k])@ == serialize_model(todos@[k]@),
{
    let mut r: Vec<String> = Vec::new();
    let mut i: usize = 0;
    while i < todos.len()
        invariant
            i <= todos@.len(),
            r@.len() == i,
            forall|k: int| 0 <= k < i ==> (#[trigger] r@[k])@ == serialize_model(todos@[k]@),
        decreases todos@.len() - i,
    {
        r.push(todos[i].serialize());
        i += 1;
    }
    r
}

} // verus!
