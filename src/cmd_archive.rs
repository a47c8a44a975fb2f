//! Archiving completed tasks.

use vstd::prelude::*;
use crate::todo::Todo;
use crate::todo_list::TodoList;

verus! {

/// Arguments of the `archive` command.
pub struct Opts {
    pub help: bool,
}

/// The tasks to keep (open ones) and the tasks to archive (completed
/// ones), each in list order.
pub fn execute(_opts: &Opts, todo_list: TodoList) -> (r: (Vec<Todo>, Vec<Todo>))
    ensures
        r.0@ == todo_list.items@.filter(|t: Todo| !t.is_complete),
        r.1@ == todo_list.items@.filter(|t: Todo| t.is_complete),
{
    todo_list.split()
}

} // verus!
