//! Marking tasks done (or not done again), rolling repeating tasks over.

use vstd::prelude::*;
use crate::args::{all_wf, arg_position, models, position_of, put_back, take_at};
use crate::cfg::Settings;
use crate::date::{iso_text, now_timestamp, today, Date};
use crate::ids::new_uuid;
use crate::kv::{kv_get, kv_insert};
use crate::repeat_time::{next_date, next_occurrence};
use crate::todo::{clock_key, clock_out_model, due_key, rep_key, reset_model, Todo, TodoModel};

verus! {

/// Arguments of the `do` command.
pub struct Opts {
    pub help: bool,
    /// Numbers of the tasks.
    pub free: Vec<String>,
    /// Archive tasks once they are done.
    pub archive: bool,
}

/// Where the command stands after some arguments: the tasks, the
/// positions to archive, the tasks to add to the list and those to archive.
pub struct DoState {
    pub tasks: Seq<TodoModel>,
    pub marked: Set<int>,
    pub added: Seq<TodoModel>,
    pub archived: Seq<TodoModel>,
}

/// A task marked done at Unix time `now`: its clock stopped, and dated
/// `today` when completion dates are logged.
pub open spec fn complete_model(m: TodoModel, log_complete: bool, today: Date, now: int) -> TodoModel {
    let m1 = TodoModel { is_complete: true, ..m };
    let m2 = if kv_get(m1.key_values, clock_key()) is Some {
        clock_out_model(m1, now)
    } else {
        m1
    };
    if log_complete {
        TodoModel { completed_at: Some(today), ..m2 }
    } else {
        m2
    }
}

/// A repeating task opened again from `today`, due at its pattern's next
/// date when there is one.
pub open spec fn rolled_over(m: TodoModel, today: Date) -> TodoModel {
    let r = reset_model(m, true, today);
    match kv_get(r.key_values, rep_key()) {
        Some(p) => match next_occurrence(p, today) {
            Some(v) => TodoModel { key_values: kv_insert(r.key_values, due_key(), iso_text(v)), ..r },
            None => r,
        },
        None => r,
    }
}

/// The task after the command acts on it.
pub open spec fn step_task(m: TodoModel, log_complete: bool, today: Date, now: int) -> TodoModel {
    if m.is_complete {
        TodoModel { is_complete: false, completed_at: None, ..m }
    } else {
        let c = complete_model(m, log_complete, today, now);
        if kv_get(c.key_values, rep_key()) is Some {
            rolled_over(c, today)
        } else {
            c
        }
    }
}

/// The done copy a repeating task leaves, identified by `fresh`.
pub open spec fn step_copy(m: TodoModel, log_complete: bool, today: Date, now: int, fresh: u128) -> Option<TodoModel> {
    let c = complete_model(m, log_complete, today, now);
    if !m.is_complete && kv_get(c.key_values, rep_key()) is Some {
        Some(TodoModel { id: fresh, ..c })
    } else {
        None
    }
}

/// The task itself goes to the archive (and leaves the list).
pub open spec fn step_mark(m: TodoModel, archive: bool, log_complete: bool, today: Date, now: int) -> bool {
    let c = complete_model(m, log_complete, today, now);
    archive && !m.is_complete && kv_get(c.key_values, rep_key()) is None
}

pub open spec fn push_opt(s: Seq<TodoModel>, o: Option<TodoModel>) -> Seq<TodoModel> {
    match o {
        Some(m) => s.push(m),
        None => s,
    }
}

/// The command acting on the task at `p`; `fresh` names the done copy of
/// a repeating task.
pub open spec fn do_step(
    st: DoState,
    p: int,
    archive: bool,
    log_complete: bool,
    today: Date,
    now: int,
    fresh: u128,
) -> DoState {
    let m = st.tasks[p];
    let copy = step_copy(m, log_complete, today, now, fresh);
    let mark = step_mark(m, archive, log_complete, today, now);
    DoState {
        tasks: st.tasks.update(p, step_task(m, log_complete, today, now)),
        marked: if mark {
            st.marked.insert(p)
        } else {
            st.marked
        },
        added: if archive {
            st.added
        } else {
            push_opt(st.added, copy)
        },
        archived: if archive {
            push_opt(
                st.archived,
                if mark {
                    Some(complete_model(m, log_complete, today, now))
                } else {
                    copy
                },
            )
        } else {
            st.archived
        },
    }
}

/// Acts on one task; gives back the done copy of a repeating task and
/// whether the task itself is to be archived.
fn do_one(t: &mut Todo, archive: bool, log_complete: bool, today: Date, now: i64, fresh: u128) -> (r: (Option<Todo>, bool))
    requires
        old(t).wf(),
        today.valid(),
    ensures
        final(t)@ == step_task(old(t)@, log_complete, today, now as int),
        final(t).wf(),
        r.0 is Some <==> step_copy(old(t)@, log_complete, today, now as int, fresh) is Some,
        r.0 is Some ==> r.0->0@ == step_copy(old(t)@, log_complete, today, now as int, fresh)->0 && r.0->0.wf(),
        r.1 == step_mark(old(t)@, archive, log_complete, today, now as int),
        r.1 ==> final(t)@ == complete_model(old(t)@, log_complete, today, now as int),
{
    if t.is_complete {
        t.is_complete = false;
        t.completed_at = None;
        return (None, false);
    }
    t.is_complete = true;
    if t.has_clock() {
        t.clock_out_at(now);
    }
    if log_complete {
        t.completed_at = Some(today);
    }
    let ghost c = t@;
    if t.has_repeat() {
        let mut copy = t.clone();
        copy.id = fresh;
        t.reset_on(true, today);
        proof {
            reveal_strlit("rep");
            reveal_strlit("due");
            assert("rep"@ =~= rep_key());
            assert("due"@ =~= due_key());
        }
        let rep = match t.key_values.get("rep") {
            Some(v) => Some(v.clone()),
            None => None,
        };
        match rep {
            Some(pattern) => {
                match next_date(pattern.as_str(), Some(today)) {
                    Some(v) => {
                        t.key_values.insert(String::from_str("due"), v.to_iso_string());
                    },
                    None => {},
                }
            },
            None => {},
        }
        (Some(copy), false)
    } else {
        (None, archive)
    }
}

/// The state after the first `k` arguments.
pub open spec fn do_fold(
    tasks: Seq<TodoModel>,
    args: Seq<String>,
    ids: Seq<u128>,
    k: int,
    archive: bool,
    log_complete: bool,
    today: Date,
    now: int,
) -> DoState
    decreases k,
{
    if k <= 0 {
        DoState { tasks, marked: Set::empty(), added: Seq::empty(), archived: Seq::empty() }
    } else {
        let prev = do_fold(tasks, args, ids, k - 1, archive, log_complete, today, now);
        match arg_position(args[k - 1]@) {
            Some(p) => if p < prev.tasks.len() {
                do_step(prev, p, archive, log_complete, today, now, ids[k - 1])
            } else {
                prev
            },
            None => prev,
        }
    }
}

/// The models whose positions are not marked, in order.
pub open spec fn unmarked(s: Seq<TodoModel>, marks: Set<int>) -> Seq<TodoModel>
    decreases s.len(),
{
    if s.len() == 0 {
        s
    } else {
        unmarked(s.drop_last(), marks) + if marks.contains(s.len() - 1) {
            Seq::empty()
        } else {
            seq![s.last()]
        }
    }
}

/// Toggles the completion of each task the arguments number, in turn, on
/// `today` at Unix time `now`. A task that becomes done stops its clock
/// and, when `log_complete` holds, is dated today. A repeating one leaves
/// a done copy (identified by the argument's entry of `ids`) and opens
/// again with its next due date. With `archive`, done tasks and copies go
/// to the archive. Gives back the tasks to archive; the list keeps the
/// rest, followed by the copies that are not archived.
pub fn execute_on(
    opts: &Opts,
    todos: &mut Vec<Todo>,
    archive: bool,
    log_complete: bool,
    today: Date,
    now: i64,
    ids: &Vec<u128>,
) -> (archived: Vec<Todo>)
    requires
        all_wf(old(todos)@),
        today.valid(),
        ids@.len() >= opts.free@.len(),
    ensures
        ({
            let st = do_fold(
                models(old(todos)@),
                opts.free@,
                ids@,
                opts.free@.len() as int,
                archive,
                log_complete,
                today,
                now as int,
            );
            &&& models(final(todos)@) == unmarked(st.tasks, st.marked) + st.added
            &&& models(archived@) == st.archived
        }),
        all_wf(final(todos)@),
{
    let ghost orig = models(todos@);
    let n = todos.len();
    let mut marked: Vec<bool> = Vec::new();
    let mut q: usize = 0;
    while q < n
        invariant
            q <= n,
            marked@.len() == q,
            forall|p: int| 0 <= p < q ==> !marked@[p],
        decreases n - q,
    {
        marked.push(false);
        q += 1;
    }
    let mut added: Vec<Todo> = Vec::new();
    let mut archived: Vec<Todo> = Vec::new();
    let mut j: usize = 0;
    while j < opts.free.len()
        invariant
            j <= opts.free@.len(),
            ids@.len() >= opts.free@.len(),
            today.valid(),
            n == orig.len(),
            todos@.len() == n,
            marked@.len() == n,
            all_wf(todos@),
            all_wf(added@),
            ({
                let st = do_fold(orig, opts.free@, ids@, j as int, archive, log_complete, today, now as int);
                &&& models(todos@) == st.tasks
                &&& forall|p: int| 0 <= p < n ==> marked@[p] == st.marked.contains(p)
                &&& forall|p: int| st.marked.contains(p) ==> 0 <= p < n
                &&& models(added@) == st.added
                &&& models(archived@) == st.archived
            }),
        decreases opts.free@.len() - j,
    {
        let ghost st = do_fold(orig, opts.free@, ids@, j as int, archive, log_complete, today, now as int);
        let ghost before = todos@;
        match position_of(&opts.free[j]) {
            Some(p) => {
                if p < todos.len() {
                    let mut t = take_at(todos, p);
                    let ghost m = t@;
                    let (copy, mark) = do_one(&mut t, archive, log_complete, today, now, ids[j]);
                    match copy {
                        Some(c) => {
                            if archive {
                                archived.push(c);
                            } else {
                                added.push(c);
                            }
                        },
                        None => {
                            if mark {
                                marked.set(p, true);
                                archived.push(t.clone());
                            }
                        },
                    }
                    put_back(todos, p, t);
                    proof {
                        assert(todos@ =~= before.update(p as int, t));
                        assert(models(todos@) =~= models(before).update(p as int, t@));
                        let st2 = do_step(st, p as int, archive, log_complete, today, now as int, ids@[j as int]);
                        assert(m == st.tasks[p as int]);
                        assert(models(todos@) == st2.tasks);
                        assert(models(added@) =~= st2.added);
                        assert(models(archived@) =~= st2.archived);
                    }
                }
            },
            None => {},
        }
        j += 1;
    }
    let ghost st = do_fold(orig, opts.free@, ids@, j as int, archive, log_complete, today, now as int);
    // Drop the archived positions, keeping the order of the rest.
    let ghost full = todos@;
    let mut src: Vec<Todo> = Vec::new();
    std::mem::swap(&mut src, todos);
    let mut kept: Vec<Todo> = Vec::new();
    let mut i: usize = 0;
    assert(models(full).take(0) =~= Seq::<TodoModel>::empty());
    assert(full.skip(0) =~= full);
    while i < n
        invariant
            n == full.len(),
            i <= n,
            marked@.len() == n,
            forall|p: int| 0 <= p < n ==> marked@[p] == st.marked.contains(p),
            src@ == full.skip(i as int),
            all_wf(full),
            all_wf(kept@),
            models(kept@) == unmarked(models(full).take(i as int), st.marked),
        decreases n - i,
    {
        let t = src.remove(0);
        proof {
            assert(models(full).take(i + 1).drop_last() =~= models(full).take(i as int));
            assert(src@ =~= full.skip(i + 1));
        }
        if !marked[i] {
            kept.push(t);
        }
        i += 1;
        assert(models(kept@) =~= unmarked(models(full).take(i as int), st.marked));
    }
    assert(models(full).take(n as int) =~= models(full));
    let ghost k0 = kept@;
    let ghost a0 = added@;
    kept.append(&mut added);
    proof {
        assert(kept@ == k0 + a0);
        assert(models(kept@) =~= models(k0) + models(a0));
        assert(all_wf(kept@)) by {
            assert forall|q: int| 0 <= q < kept@.len() implies (#[trigger] kept@[q]).wf() by {
                if q < k0.len() {
                    assert(kept@[q] == k0[q]);
                } else {
                    assert(kept@[q] == a0[q - k0.len()]);
                }
            }
        }
    }
    *todos = kept;
    archived
}

/// Done tasks are archived when the options or the settings say so.
pub open spec fn archiving(opt: bool, setting: bool) -> bool {
    opt || setting
}

/// Toggles the tasks the arguments number, today and now, archiving as
/// the options or the settings ask and dating completion as the settings
/// ask; done copies of repeating tasks get new random identifiers.
pub fn execute(opts: &Opts, todos: &mut Vec<Todo>, settings: &Settings) -> (archived: Vec<Todo>)
    requires
        all_wf(old(todos)@),
    ensures
        exists|day: Date, now: i64, ids: Seq<u128>|
            day.valid() && ids.len() >= opts.free@.len() && {
                let st = #[trigger] do_fold(
                    models(old(todos)@),
                    opts.free@,
                    ids,
                    opts.free@.len() as int,
                    archiving(opts.archive, settings.auto_archive),
                    settings.log_complete_date,
                    day,
                    now as int,
                );
                &&& models(final(todos)@) == unmarked(st.tasks, st.marked) + st.added
                &&& models(archived@) == st.archived
            },
        all_wf(final(todos)@),
{
    let should_archive = opts.archive || settings.auto_archive;
    let day = today();
    let now = now_timestamp();
    let mut ids: Vec<u128> = Vec::new();
    let mut k: usize = 0;
    while k < opts.free.len()
        invariant
            k <= opts.free@.len(),
            ids@.len() == k,
        decreases opts.free@.len() - k,
    {
        ids.push(new_uuid());
        k += 1;
    }
    let r = execute_on(opts, todos, should_archive, settings.log_complete_date, day, now, &ids);
    assert(should_archive == archiving(opts.archive, settings.auto_archive));
    let ghost st = do_fold(
        models(old(todos)@),
        opts.free@,
        ids@,
        opts.free@.len() as int,
        archiving(opts.archive, settings.auto_archive),
        settings.log_complete_date,
        day,
        now as int,
    );
    assert(models(todos@) == unmarked(st.tasks, st.marked) + st.added && models(r@) == st.archived);
    r
}

} // verus!
