//! Clocking in and out of tasks, and setting or clearing clocked time.

use vstd::prelude::*;
use crate::args::{all_wf, arg_position, models, position_of, put_back, take_at};
use crate::hms::{encode, from_seconds, seconds_of, to_seconds};
use crate::kv::{kv_get, kv_insert, kv_remove};
use crate::todo::{
    clamp64, clamp_diff, clock_in_model, clock_key, clock_out_model, clocked_key, stamp_of, Todo, TodoModel,
};

verus! {

/// Arguments of the `clock` command.
pub struct Opts {
    pub help: bool,
    /// Clear the clock-in state.
    pub clear: bool,
    /// Clear the clocked time.
    pub clear_clocked: bool,
    /// Set the clocked time to this duration.
    pub set_clocked_time: String,
    /// Numbers of the tasks.
    pub free: Vec<String>,
}

/// Seconds of a duration text such as `1h1m1s`.
pub fn seconds_from_hms(hms: &String) -> (r: i64)
    ensures
        r == seconds_of(hms@),
{
    to_seconds(hms)
}

/// The duration text of a second count.
pub fn hms_from_seconds(seconds: i64) -> (r: String)
    ensures
        r@ == encode(seconds as int),
{
    from_seconds(seconds)
}

/// What the command does to one task.
pub open spec fn clock_action(
    m: TodoModel,
    clear: bool,
    clear_clocked: bool,
    set: Seq<char>,
    now: int,
) -> TodoModel {
    if clear {
        TodoModel { key_values: kv_remove(m.key_values, clock_key()), ..m }
    } else if clear_clocked {
        TodoModel { key_values: kv_remove(m.key_values, clocked_key()), ..m }
    } else if set.len() > 0 {
        TodoModel { key_values: kv_insert(m.key_values, clocked_key(), set), ..m }
    } else if kv_get(m.key_values, clock_key()) is Some {
        clock_out_model(m, now)
    } else {
        clock_in_model(m, now)
    }
}

/// The tasks after the command has acted on the tasks that the first `k`
/// arguments number, in turn.
pub open spec fn apply_clock(
    ms: Seq<TodoModel>,
    args: Seq<String>,
    k: int,
    clear: bool,
    clear_clocked: bool,
    set: Seq<char>,
    now: int,
) -> Seq<TodoModel>
    decreases k,
{
    if k <= 0 {
        ms
    } else {
        let prev = apply_clock(ms, args, k - 1, clear, clear_clocked, set, now);
        match arg_position(args[k - 1]@) {
            Some(p) => if p < prev.len() {
                prev.update(p, clock_action(prev[p], clear, clear_clocked, set, now))
            } else {
                prev
            },
            None => prev,
        }
    }
}

/// Acts on one task as the options say, at Unix time `now`.
fn act(t: &mut Todo, opts: &Opts, now: i64)
    requires
        old(t).wf(),
    ensures
        final(t)@ == clock_action(
            old(t)@,
            opts.clear,
            opts.clear_clocked,
            opts.set_clocked_time@,
            now as int,
        ),
        final(t).wf(),
        final(t).index == old(t).index,
{
    proof {
        reveal_strlit("clock");
        reveal_strlit("clocked");
        assert("clock"@ =~= clock_key());
        assert("clocked"@ =~= clocked_key());
    }
    if opts.clear {
        t.key_values.remove("clock");
    } else if opts.clear_clocked {
        t.key_values.remove("clocked");
    } else if opts.set_clocked_time.as_str().unicode_len() > 0 {
        t.key_values.insert(String::from_str("clocked"), opts.set_clocked_time.clone());
    } else if t.has_clock() {
        t.clock_out_at(now);
    } else {
        t.clock_in_at(now);
    }
}

/// Acts on each task the arguments number, in turn, at Unix time `now`;
/// numbers that name no task are passed over. Whether there were
/// arguments (and so the tasks are to be written back).
pub fn execute(opts: &Opts, todos: &mut Vec<Todo>, now: i64) -> (r: bool)
    requires
        all_wf(old(todos)@),
    ensures
        r == (opts.free@.len() > 0),
        models(final(todos)@) == apply_clock(
            models(old(todos)@),
            opts.free@,
            opts.free@.len() as int,
            opts.clear,
            opts.clear_clocked,
            opts.set_clocked_time@,
            now as int,
        ),
        final(todos)@.len() == old(todos)@.len(),
        all_wf(final(todos)@),
{
    let ghost orig = models(todos@);
    let mut j: usize = 0;
    while j < opts.free.len()
        invariant
            j <= opts.free@.len(),
            todos@.len() == old(todos)@.len(),
            all_wf(todos@),
            models(todos@) == apply_clock(
                orig,
                opts.free@,
                j as int,
                opts.clear,
                opts.clear_clocked,
                opts.set_clocked_time@,
                now as int,
            ),
        decreases opts.free@.len() - j,
    {
        let ghost before = todos@;
        match position_of(&opts.free[j]) {
            Some(p) => {
                if p < todos.len() {
                    let mut t = take_at(todos, p);
                    act(&mut t, opts, now);
                    put_back(todos, p, t);
                    proof {
                        assert(todos@ =~= before.update(p as int, t));
                        assert(models(todos@) =~= models(before).update(p as int, t@));
                    }
                }
            },
            None => {},
        }
        j += 1;
    }
    opts.free.len() > 0
}

/// The time since a task was clocked in, at Unix time `now`; `None` when
/// it is not clocked in.
pub fn clock_elapsed(t: &Todo, now: i64) -> (r: Option<String>)
    ensures
        r is Some <==> kv_get(t@.key_values, clock_key()) is Some,
        r is Some ==> r->0@ == encode(clamp64(now - stamp_of(t@))),
{
    if !t.has_clock() {
        return None;
    }
    let stamp = t.clock_stamp();
    let d = clamp_diff(now, stamp);
    Some(hms_from_seconds(d))
}

} // verus!
