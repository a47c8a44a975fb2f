//! Removing tasks.

use vstd::prelude::*;
use crate::args::{mark_referenced, referenced};
use crate::todo::Todo;

verus! {

/// Arguments of the `rm` command.
pub struct Opts {
    pub help: bool,
    /// Numbers of the tasks to remove.
    pub free: Vec<String>,
}

/// The tasks whose positions are not marked, in order.
pub open spec fn without(s: Seq<Todo>, marks: Set<int>) -> Seq<Todo>
    decreases s.len(),
{
    if s.len() == 0 {
        s
    } else {
        without(s.drop_last(), marks) + if marks.contains(s.len() - 1) {
            Seq::empty()
        } else {
            seq![s.last()]
        }
    }
}

/// Removes the tasks that the arguments number; numbers that name no task
/// are passed over.
pub fn execute(opts: &Opts, todos: &mut Vec<Todo>)
    ensures
        final(todos)@ == without(old(todos)@, referenced(opts.free@, old(todos)@.len() as int)),
{
    let n = todos.len();
    let marked = mark_referenced(&opts.free, n);
    let ghost orig = todos@;
    let ghost marks = referenced(opts.free@, n as int);
    let mut src: Vec<Todo> = Vec::new();
    std::mem::swap(&mut src, todos);
    let mut kept: Vec<Todo> = Vec::new();
    let mut i: usize = 0;
    assert(orig.take(0) =~= Seq::<Todo>::empty());
    assert(orig.skip(0) =~= orig);
    while i < n
        invariant
            n == orig.len(),
            i <= n,
            marked@.len() == n,
            forall|p: int| 0 <= p < n ==> marked@[p] == marks.contains(p),
            src@ == orig.skip(i as int),
            kept@ == without(orig.take(i as int), marks),
        decreases n - i,
    {
        let t = src.remove(0);
        proof {
            assert(orig.take(i + 1).drop_last() =~= orig.take(i as int));
            assert(src@ =~= orig.skip(i + 1));
        }
        if !marked[i] {
            kept.push(t);
        }
        i += 1;
        assert(kept@ =~= without(orig.take(i as int), marks));
    }
    assert(orig.take(n as int) =~= orig);
    *todos = kept;
}

} // verus!
