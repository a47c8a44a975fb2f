//! Toggling a `#tag` on tasks, keeping mutually exclusive tags apart.

use vstd::prelude::*;
use crate::args::{all_wf, arg_position, models, position_of, put_back, take_at};
use crate::line::views;
use crate::text::{chars_eq, chars_of, contains, contains_chars, slice_chars, string_of};
use crate::todo::{Todo, TodoModel};

verus! {

/// Arguments of the `tag` command.
pub struct Opts {
    pub help: bool,
    /// The tag name, then the numbers of the tasks.
    pub free: Vec<String>,
}

/// `s` with every occurrence of `p` taken out, left to right, as
/// `str::replace(p, "")` does.
pub open spec fn remove_all(s: Seq<char>, p: Seq<char>) -> Seq<char>
    decreases s.len(),
{
    if p.len() == 0 || s.len() < p.len() {
        s
    } else if s.take(p.len() as int) == p {
        remove_all(s.skip(p.len() as int), p)
    } else {
        seq![s[0]] + remove_all(s.drop_first(), p)
    }
}

/// How a tag is written in a description: ` #name`.
pub open spec fn tag_text(name: Seq<char>) -> Seq<char> {
    seq![' ', '#'] + name
}

/// The description without the other tags of a group, the first `k` of them.
pub open spec fn strip_group(task: Seq<char>, group: Seq<Seq<char>>, name: Seq<char>, k: int) -> Seq<char>
    decreases k,
{
    if k <= 0 {
        task
    } else {
        let t = strip_group(task, group, name, k - 1);
        if group[k - 1] == name {
            t
        } else {
            remove_all(t, tag_text(group[k - 1]))
        }
    }
}

/// The description without the tags that exclude `name`, from the first
/// `k` groups.
pub open spec fn strip_groups(task: Seq<char>, groups: Seq<Seq<Seq<char>>>, name: Seq<char>, k: int) -> Seq<char>
    decreases k,
{
    if k <= 0 {
        task
    } else {
        let t = strip_groups(task, groups, name, k - 1);
        if groups[k - 1].contains(name) {
            strip_group(t, groups[k - 1], name, groups[k - 1].len() as int)
        } else {
            t
        }
    }
}

/// The description after toggling the tag `name`.
pub open spec fn toggled(task: Seq<char>, groups: Seq<Seq<Seq<char>>>, name: Seq<char>) -> Seq<char> {
    let t = strip_groups(task, groups, name, groups.len() as int);
    if contains(t, tag_text(name)) {
        remove_all(t, tag_text(name))
    } else {
        t + tag_text(name)
    }
}

pub open spec fn group_views(groups: Seq<Vec<String>>) -> Seq<Seq<Seq<char>>> {
    groups.map_values(|g: Vec<String>| views(g@))
}

/// The tasks after toggling the tag on those that the arguments from the
/// second to the `k`-th number.
pub open spec fn apply_tag(ms: Seq<TodoModel>, args: Seq<String>, groups: Seq<Seq<Seq<char>>>, k: int) -> Seq<TodoModel>
    decreases k,
{
    if k <= 1 {
        ms
    } else {
        let prev = apply_tag(ms, args, groups, k - 1);
        match arg_position(args[k - 1]@) {
            Some(p) => if p < prev.len() {
                prev.update(p, TodoModel { task: toggled(prev[p].task, groups, args[0]@), ..prev[p] })
            } else {
                prev
            },
            None => prev,
        }
    }
}

fn remove_all_chars(s: &Vec<char>, p: &Vec<char>) -> (r: Vec<char>)
    ensures
        r@ == remove_all(s@, p@),
{
    let n = s.len();
    let m = p.len();
    if m == 0 {
        return slice_chars(s, 0, n);
    }
    let mut out: Vec<char> = Vec::new();
    let mut i: usize = 0;
    assert(s@.skip(0) =~= s@);
    while i < n
        invariant
            n == s@.len(),
            m == p@.len(),
            m > 0,
            i <= n,
            out@ + remove_all(s@.skip(i as int), p@) == remove_all(s@, p@),
        decreases n - i,
    {
        let ghost rest = s@.skip(i as int);
        if n - i >= m {
            let piece = slice_chars(s, i, i + m);
            assert(rest.take(m as int) =~= piece@);
            if chars_eq(&piece, p) {
                assert(rest.skip(m as int) =~= s@.skip(i + m));
                i = i + m;
                continue;
            }
        }
        proof {
            if n - i >= m {
                assert(rest.drop_first() =~= s@.skip(i + 1));
                assert(out@.push(s@[i as int]) + remove_all(s@.skip(i + 1), p@) =~= out@ + (seq![
                    rest[0],
                ] + remove_all(rest.drop_first(), p@)));
            } else {
                assert(remove_all(rest, p@) == rest);
                assert(rest.drop_first() =~= s@.skip(i + 1));
                assert(remove_all(s@.skip(i + 1), p@) == s@.skip(i + 1));
                assert(out@.push(s@[i as int]) + s@.skip(i + 1) =~= out@ + rest);
            }
        }
        out.push(s[i]);
        i += 1;
    }
    assert(s@.skip(n as int) =~= Seq::<char>::empty());
    assert(out@ + Seq::<char>::empty() =~= out@);
    out
}

fn tag_chars(name: &String) -> (r: Vec<char>)
    ensures
        r@ == tag_text(name@),
{
    let c = chars_of(name.as_str());
    let mut r: Vec<char> = vec![' ', '#'];
    let mut i: usize = 0;
    while i < c.len()
        invariant
            i <= c@.len(),
            r@ == seq![' ', '#'] + c@.take(i as int),
        decreases c@.len() - i,
    {
        r.push(c[i]);
        i += 1;
        assert(r@ =~= seq![' ', '#'] + c@.take(i as int));
    }
    assert(c@.take(i as int) =~= c@);
    r
}

fn group_has(group: &Vec<String>, name: &Vec<char>) -> (r: bool)
    ensures
        r == views(group@).contains(name@),
{
    let mut i: usize = 0;
    while i < group.len()
        invariant
            i <= group@.len(),
            forall|j: int| 0 <= j < i ==> group@[j]@ != name@,
        decreases group@.len() - i,
    {
        let c = chars_of(group[i].as_str());
        if chars_eq(&c, name) {
            assert(views(group@)[i as int] == name@);
            return true;
        }
        i += 1;
    }
    proof {
        if views(group@).contains(name@) {
            let j = choose|j: int| 0 <= j < views(group@).len() && views(group@)[j] == name@;
            assert(group@[j]@ == name@);
        }
    }
    false
}

/// The description after toggling the tag `name`.
fn toggle(task: &Vec<char>, groups: &Vec<Vec<String>>, name: &String) -> (r: Vec<char>)
    ensures
        r@ == toggled(task@, group_views(groups@), name@),
{
    let nc = chars_of(name.as_str());
    let gv = Ghost(group_views(groups@));
    let mut t = slice_chars(task, 0, task.len());
    assert(task@.subrange(0, task@.len() as int) =~= task@);
    let mut g: usize = 0;
    while g < groups.len()
        invariant
            g <= groups@.len(),
            nc@ == name@,
            gv@ == group_views(groups@),
            t@ == strip_groups(task@, gv@, name@, g as int),
        decreases groups@.len() - g,
    {
        let group = &groups[g];
        assert(gv@[g as int] == views(group@));
        if group_has(group, &nc) {
            let ghost start = t@;
            let mut k: usize = 0;
            while k < group.len()
                invariant
                    k <= group@.len(),
                    nc@ == name@,
                    t@ == strip_group(start, views(group@), name@, k as int),
                decreases group@.len() - k,
            {
                let tc = chars_of(group[k].as_str());
                assert(views(group@)[k as int] == group@[k as int]@);
                if !chars_eq(&tc, &nc) {
                    let pat = tag_chars(&group[k]);
                    t = remove_all_chars(&t, &pat);
                }
                k += 1;
            }
        }
        g += 1;
    }
    let pat = tag_chars(name);
    if contains_chars(&t, &pat) {
        remove_all_chars(&t, &pat)
    } else {
        let mut r = t;
        let ghost before = r@;
        let mut q: usize = 0;
        while q < pat.len()
            invariant
                q <= pat@.len(),
                r@ == before + pat@.take(q as int),
            decreases pat@.len() - q,
        {
            r.push(pat[q]);
            q += 1;
            assert(r@ =~= before + pat@.take(q as int));
        }
        assert(pat@.take(q as int) =~= pat@);
        r
    }
}

/// Toggles the tag named by the first argument on each task the other
/// arguments number, first taking off the tags that share a group of
/// `mutually_exclusive_tags` with it; numbers that name no task are
/// passed over.
pub fn execute(opts: &Opts, todos: &mut Vec<Todo>, mutually_exclusive_tags: &Vec<Vec<String>>)
    requires
        opts.free@.len() > 0,
        all_wf(old(todos)@),
    ensures
        models(final(todos)@) == apply_tag(
            models(old(todos)@),
            opts.free@,
            group_views(mutually_exclusive_tags@),
            opts.free@.len() as int,
        ),
        final(todos)@.len() == old(todos)@.len(),
        all_wf(final(todos)@),
{
    let ghost orig = models(todos@);
    let ghost gv = group_views(mutually_exclusive_tags@);
    let mut j: usize = 1;
    while j < opts.free.len()
        invariant
            1 <= j <= opts.free@.len(),
            todos@.len() == old(todos)@.len(),
            all_wf(todos@),
            gv == group_views(mutually_exclusive_tags@),
            models(todos@) == apply_tag(orig, opts.free@, gv, j as int),
        decreases opts.free@.len() - j,
    {
        let ghost before = todos@;
        match position_of(&opts.free[j]) {
            Some(p) => {
                if p < todos.len() {
                    let mut t = take_at(todos, p);
                    let task = chars_of(t.task.as_str());
                    let new_task = toggle(&task, mutually_exclusive_tags, &opts.free[0]);
                    t.task = string_of(&new_task);
                    put_back(todos, p, t);
                    proof {
                        assert(todos@ =~= before.update(p as int, t));
                        assert(models(todos@) =~= models(before).update(p as int, t@));
                    }
                }
            },
            None => {},
        }
        j += 1;
    }
}

} // verus!
