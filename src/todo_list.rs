//! Lists of tasks: filters, sorts and the split into open and done.

use vstd::prelude::*;
use vstd::seq_lib::{to_multiset_insert, to_multiset_remove};
use crate::date::{today, Date};
use crate::line::views;
use crate::todo::{due_order, lemma_due_order_total, lemma_order_total, order, past_due, serialize_model, Todo};
use crate::text::{chars_of, contains, contains_chars, lex, lemma_lex_props, lemma_lex_trans};

verus! {

/// The task has a priority at `priority` or above (`A` is highest).
pub open spec fn at_priority(t: Todo, priority: char) -> bool {
    t.priority is Some && t.priority->0 <= priority
}

/// The task is open and its being due is `flag`.
pub open spec fn due_state(t: Todo, flag: bool, today: Date) -> bool {
    !t.is_complete && past_due(t@, today) == flag
}

/// The task's line holds `text` exactly when `wanted`.
pub open spec fn text_state(t: Todo, text: Seq<char>, wanted: bool) -> bool {
    contains(serialize_model(t@), text) == wanted
}

/// The task has the project tag `+name`.
pub open spec fn in_project(t: Todo, name: Seq<char>) -> bool {
    views(t.projects@).contains(seq!['+'] + name)
}

/// What a filter keeps.
enum Criterion {
    Priority(char),
    Complete(bool),
    PastDue(bool, Date),
    Text(Vec<char>, bool),
    Project(Vec<char>),
}

impl Criterion {
    spec fn holds(&self, t: Todo) -> bool {
        match self {
            Criterion::Priority(p) => at_priority(t, *p),
            Criterion::Complete(f) => t.is_complete == *f,
            Criterion::PastDue(f, d) => due_state(t, *f, *d),
            Criterion::Text(s, w) => text_state(t, s@, *w),
            Criterion::Project(n) => in_project(t, n@),
        }
    }

    fn test(&self, t: &Todo) -> (r: bool)
        requires
            self matches Criterion::PastDue(_, d) ==> d.valid(),
        ensures
            r == self.holds(*t),
    {
        match self {
            Criterion::Priority(p) => match t.priority {
                Some(c) => c <= *p,
                None => false,
            },
            Criterion::Complete(f) => t.is_complete == *f,
            Criterion::PastDue(f, d) => !t.is_complete && t.is_past_due_on(*d) == *f,
            Criterion::Text(s, w) => {
                let line = t.serialize();
                let c = chars_of(line.as_str());
                contains_chars(&c, s) == *w
            },
            Criterion::Project(n) => {
                let mut tag: Vec<char> = vec!['+'];
                let mut k: usize = 0;
                while k < n.len()
                    invariant
                        k <= n@.len(),
                        tag@ == seq!['+'] + n@.take(k as int),
                    decreases n@.len() - k,
                {
                    tag.push(n[k]);
                    k += 1;
                    assert(tag@ =~= seq!['+'] + n@.take(k as int));
                }
                assert(n@.take(k as int) =~= n@);
                assert(self.holds(*t) == in_project(*t, n@));
                let mut i: usize = 0;
                while i < t.projects.len()
                    invariant
                        i <= t.projects@.len(),
                        tag@ == seq!['+'] + n@,
                        self.holds(*t) == in_project(*t, n@),
                        forall|j: int| 0 <= j < i ==> t.projects@[j]@ != tag@,
                    decreases t.projects@.len() - i,
                {
                    let c = chars_of(t.projects[i].as_str());
                    if crate::text::chars_eq(&c, &tag) {
                        assert(views(t.projects@).len() == t.projects@.len());
                        assert(views(t.projects@)[i as int] == tag@);
                        assert(views(t.projects@).contains(seq!['+'] + n@));
                        return true;
                    }
                    i += 1;
                }
                proof {
                    if views(t.projects@).contains(tag@) {
                        let j = choose|j: int| 0 <= j < views(t.projects@).len() && views(t.projects@)[j] == tag@;
                        assert(t.projects@[j]@ == tag@);
                    }
                }
                false
            },
        }
    }
}

/// Which order a sort follows.
enum SortKey {
    Priority,
    Title,
    DueDate,
}

impl SortKey {
    spec fn order(&self, a: Todo, b: Todo) -> int {
        match self {
            SortKey::Priority => order(a@, b@),
            SortKey::Title => lex(a@.task, b@.task),
            SortKey::DueDate => due_order(a@, b@),
        }
    }

    proof fn lemma_total(&self, a: Todo, b: Todo, c: Todo)
        ensures
            self.order(a, b) == -self.order(b, a),
            self.order(a, b) <= 0 && self.order(b, c) <= 0 ==> self.order(a, c) <= 0,
    {
        match self {
            SortKey::Priority => lemma_order_total(a@, b@, c@),
            SortKey::Title => {
                lemma_lex_props(a@.task, b@.task);
                if lex(a@.task, b@.task) <= 0 && lex(b@.task, c@.task) <= 0 {
                    lemma_lex_trans(a@.task, b@.task, c@.task);
                }
            },
            SortKey::DueDate => lemma_due_order_total(a@, b@, c@),
        }
    }

    /// `a` goes after `b`.
    fn after(&self, a: &Todo, b: &Todo) -> (r: bool)
        ensures
            r == (self.order(*a, *b) > 0),
    {
        let c = match self {
            SortKey::Priority => a.cmp(b),
            SortKey::Title => a.cmp_by_title(b),
            SortKey::DueDate => a.cmp_by_due_date(b),
        };
        matches!(c, std::cmp::Ordering::Greater)
    }
}

pub open spec fn sorted_by(s: Seq<Todo>, f: spec_fn(Todo, Todo) -> int) -> bool {
    forall|i: int, j: int| 0 <= i < j < s.len() ==> f(#[trigger] s[i], #[trigger] s[j]) <= 0
}

/// `r` holds the tasks of `orig`, each taken once from the position that
/// `origin` gives, and tasks that `f` ranks equal keep their order.
pub open spec fn stable_origin(
    origin: Seq<int>,
    r: Seq<Todo>,
    orig: Seq<Todo>,
    f: spec_fn(Todo, Todo) -> int,
) -> bool {
    &&& origin.len() == r.len()
    &&& forall|i: int| 0 <= i < r.len() ==> 0 <= #[trigger] origin[i] < orig.len() && r[i] == orig[origin[i]]
    &&& forall|i: int, j: int| 0 <= i < j < r.len() ==> #[trigger] origin[i] != #[trigger] origin[j]
    &&& forall|i: int, j: int|
        0 <= i < j < r.len() && f(#[trigger] r[i], #[trigger] r[j]) == 0 ==> origin[i] < origin[j]
}

/// `r` is `orig` sorted by `f`, tasks ranked equal keeping their order.
pub open spec fn stable_sort_of(r: Seq<Todo>, orig: Seq<Todo>, f: spec_fn(Todo, Todo) -> int) -> bool {
    &&& r.len() == orig.len()
    &&& sorted_by(r, f)
    &&& exists|origin: Seq<int>| #[trigger] stable_origin(origin, r, orig, f)
}

/// A list of tasks.
pub struct TodoList {
    pub items: Vec<Todo>,
}

impl TodoList {
    fn filter(self, c: &Criterion) -> (r: TodoList)
        requires
            c matches Criterion::PastDue(_, d) ==> d.valid(),
        ensures
            r.items@ == self.items@.filter(|t: Todo| c.holds(t)),
    {
        let ghost pred = |t: Todo| c.holds(t);
        let ghost orig = self.items@;
        let mut items = self.items;
        let mut kept: Vec<Todo> = Vec::new();
        let n = items.len();
        proof {
            reveal(Seq::filter);
            assert(orig.take(0).filter(pred) =~= Seq::<Todo>::empty());
            assert(orig.skip(0) =~= orig);
        }
        while items.len() > 0
            invariant
                n == orig.len(),
                items@.len() <= n,
                items@ == orig.skip(n - items@.len()),
                kept@ == orig.take(n - items@.len()).filter(pred),
                c matches Criterion::PastDue(_, d) ==> d.valid(),
                pred == (|t: Todo| c.holds(t)),
            decreases items@.len(),
        {
            let ghost k = n - items@.len();
            let t = items.remove(0);
            proof {
                reveal(Seq::filter);
                assert(orig.take(k + 1).drop_last() =~= orig.take(k));
                assert(orig.take(k + 1).last() == t);
                assert(items@ =~= orig.skip(k + 1));
            }
            if c.test(&t) {
                kept.push(t);
            }
        }
        proof {
            assert(orig.take(n as int) =~= orig);
        }
        TodoList { items: kept }
    }

    /// Keeps the tasks with a priority at `priority` or above.
    pub fn filter_by_priority(self, priority: char) -> (r: TodoList)
        ensures
            r.items@ == self.items@.filter(|t: Todo| at_priority(t, priority)),
    {
        let c = Criterion::Priority(priority);
        let r = self.filter(&c);
        assert((|t: Todo| c.holds(t)) =~= (|t: Todo| at_priority(t, priority)));
        r
    }

    /// Keeps the tasks whose completion is `complete`.
    pub fn filter_by_complete(self, complete: bool) -> (r: TodoList)
        ensures
            r.items@ == self.items@.filter(|t: Todo| t.is_complete == complete),
    {
        let c = Criterion::Complete(complete);
        let r = self.filter(&c);
        assert((|t: Todo| c.holds(t)) =~= (|t: Todo| t.is_complete == complete));
        r
    }

    /// Keeps the open tasks whose being due on `today` is `is_past_due`.
    pub fn filter_by_past_due_on(self, is_past_due: bool, today: Date) -> (r: TodoList)
        requires
            today.valid(),
        ensures
            r.items@ == self.items@.filter(|t: Todo| due_state(t, is_past_due, today)),
    {
        let c = Criterion::PastDue(is_past_due, today);
        let r = self.filter(&c);
        assert((|t: Todo| c.holds(t)) =~= (|t: Todo| due_state(t, is_past_due, today)));
        r
    }

    /// Keeps the open tasks whose being due today is `is_past_due`.
    pub fn filter_by_past_due(self, is_past_due: bool) -> (r: TodoList)
        ensures
            exists|d: Date| d.valid() && r.items@ == self.items@.filter(
                |t: Todo| due_state(t, is_past_due, d),
            ),
    {
        let d = today();
        self.filter_by_past_due_on(is_past_due, d)
    }

    /// Keeps the tasks whose line holds `text`; for `-word`, those whose
    /// line does not hold `word`.
    pub fn filter_by_text(self, text: &str) -> (r: TodoList)
        ensures
            text@.len() > 0 && text@[0] == '-' ==> r.items@ == self.items@.filter(
                |t: Todo| text_state(t, text@.drop_first(), false),
            ),
            !(text@.len() > 0 && text@[0] == '-') ==> r.items@ == self.items@.filter(
                |t: Todo| text_state(t, text@, true),
            ),
    {
        let s = chars_of(text);
        if s.len() > 0 && s[0] == '-' {
            let rest = crate::text::slice_chars(&s, 1, s.len());
            assert(rest@ =~= text@.drop_first());
            let c = Criterion::Text(rest, false);
            let r = self.filter(&c);
            assert((|t: Todo| c.holds(t)) =~= (|t: Todo| text_state(t, text@.drop_first(), false)));
            r
        } else {
            let c = Criterion::Text(s, true);
            let r = self.filter(&c);
            assert((|t: Todo| c.holds(t)) =~= (|t: Todo| text_state(t, text@, true)));
            r
        }
    }

    /// Keeps the tasks tagged `+name`.
    pub fn filter_by_project(self, name: &str) -> (r: TodoList)
        ensures
            r.items@ == self.items@.filter(|t: Todo| in_project(t, name@)),
    {
        let n = chars_of(name);
        let c = Criterion::Project(n);
        let r = self.filter(&c);
        assert((|t: Todo| c.holds(t)) =~= (|t: Todo| in_project(t, name@)));
        r
    }

    /// Stable insertion sort in the order of `key`.
    fn sort_with(&mut self, key: &SortKey)
        ensures
            final(self).items@.to_multiset() == old(self).items@.to_multiset(),
            stable_sort_of(final(self).items@, old(self).items@, |a: Todo, b: Todo| key.order(a, b)),
    {
        let ghost f = |a: Todo, b: Todo| key.order(a, b);
        let ghost orig = self.items@;
        let mut src: Vec<Todo> = Vec::new();
        std::mem::swap(&mut src, &mut self.items);
        let mut out: Vec<Todo> = Vec::new();
        proof {
            broadcast use vstd::multiset::group_multiset_axioms;
            out@.to_multiset_ensures();
            vstd::multiset::lemma_multiset_empty_len(out@.to_multiset());
            assert(out@.to_multiset().add(src@.to_multiset()) =~= orig.to_multiset());
        }
        let ghost mut origin: Seq<int> = Seq::empty();
        assert(orig.skip(0) =~= orig);
        while src.len() > 0
            invariant
                out@.to_multiset().add(src@.to_multiset()) == orig.to_multiset(),
                sorted_by(out@, f),
                f == (|a: Todo, b: Todo| key.order(a, b)),
                out@.len() + src@.len() == orig.len(),
                src@ == orig.skip(out@.len() as int),
                origin.len() == out@.len(),
                forall|i: int| 0 <= i < out@.len() ==> 0 <= #[trigger] origin[i] < out@.len() && out@[i] == orig[origin[i]],
                forall|i: int, j: int| 0 <= i < j < out@.len() ==> #[trigger] origin[i] != #[trigger] origin[j],
                forall|i: int, j: int|
                    0 <= i < j < out@.len() && f(#[trigger] out@[i], #[trigger] out@[j]) == 0 ==> origin[i] < origin[j],
            decreases src@.len(),
        {
            proof {
                broadcast use to_multiset_remove;
            }
            let ghost src0 = src@;
            let t = src.remove(0);
            let mut k = out.len();
            while k > 0 && key.after(&out[k - 1], &t)
                invariant
                    k <= out@.len(),
                    forall|m: int| k <= m < out@.len() ==> key.order(#[trigger] out@[m], t) > 0,
                decreases k,
            {
                k -= 1;
            }
            let ghost before = out@;
            let ghost n0 = before.len() as int;
            let ghost o0 = origin;
            out.insert(k, t);
            proof {
                origin = o0.insert(k as int, n0);
                assert(t == orig[n0]) by {
                    assert(src0 == orig.skip(n0));
                    assert(src0[0] == orig[n0]);
                }
                assert(src@ =~= orig.skip(n0 + 1));
                assert forall|i: int| 0 <= i < out@.len() implies 0 <= #[trigger] origin[i] < out@.len() && out@[i] == orig[origin[i]] by {
                    if i < k {
                        assert(out@[i] == before[i] && origin[i] == o0[i]);
                    } else if i > k {
                        assert(out@[i] == before[i - 1] && origin[i] == o0[i - 1]);
                    }
                }
                assert forall|i: int, j: int| 0 <= i < j < out@.len() implies #[trigger] origin[i] != #[trigger] origin[j] by {
                    if i != k && j != k {
                        let i0 = if i < k { i } else { i - 1 };
                        let j0 = if j < k { j } else { j - 1 };
                        assert(origin[i] == o0[i0] && origin[j] == o0[j0]);
                    } else if i == k {
                        let j0 = if j < k { j } else { j - 1 };
                        assert(origin[j] == o0[j0]);
                    } else {
                        let i0 = if i < k { i } else { i - 1 };
                        assert(origin[i] == o0[i0]);
                    }
                }
                assert forall|i: int, j: int| 0 <= i < j < out@.len() && f(#[trigger] out@[i], #[trigger] out@[j]) == 0 implies origin[i] < origin[j] by {
                    if i != k && j != k {
                        let i0 = if i < k { i } else { i - 1 };
                        let j0 = if j < k { j } else { j - 1 };
                        assert(origin[i] == o0[i0] && origin[j] == o0[j0]);
                        assert(out@[i] == before[i0] && out@[j] == before[j0]);
                    } else if i == k {
                        let j0 = j - 1;
                        assert(out@[j] == before[j0]);
                        key.lemma_total(t, before[j0], t);
                    } else {
                        assert(origin[i] == o0[i]);
                    }
                }
                broadcast use to_multiset_insert;
                broadcast use vstd::multiset::group_multiset_axioms;
                src0.to_multiset_ensures();
                assert(src0.contains(t)) by {
                    assert(src0[0] == t);
                }
                assert(src@ == src0.remove(0));
                assert(src@.to_multiset() == src0.to_multiset().remove(t));
                assert(out@ == before.insert(k as int, t));
                assert(out@.to_multiset() == before.to_multiset().insert(t));
                assert forall|i: int, j: int| 0 <= i < j < out@.len() implies f(
                    #[trigger] out@[i],
                    #[trigger] out@[j],
                ) <= 0 by {
                    let x = out@[i];
                    let y = out@[j];
                    if j < k {
                        assert(x == before[i] && y == before[j]);
                    } else if i > k {
                        assert(x == before[i - 1] && y == before[j - 1]);
                    } else if i == k {
                        assert(y == before[j - 1]);
                        key.lemma_total(t, y, t);
                    } else if j == k {
                        assert(x == before[i]);
                        if k > 0 {
                            let z = before[k - 1];
                            key.lemma_total(z, t, t);
                            if i < k - 1 {
                                assert(f(before[i], z) <= 0);
                                key.lemma_total(x, z, t);
                            }
                        }
                    } else {
                        assert(x == before[i] && y == before[j - 1]);
                    }
                }
                assert(out@.to_multiset().add(src@.to_multiset()) =~= orig.to_multiset());
            }
        }
        proof {
            broadcast use vstd::multiset::group_multiset_axioms;
            src@.to_multiset_ensures();
            vstd::multiset::lemma_multiset_empty_len(src@.to_multiset());
            assert(out@.to_multiset().add(src@.to_multiset()) =~= out@.to_multiset());
            assert(stable_origin(origin, out@, orig, f));
        }
        self.items = out;
    }

    /// Sorts by `Todo::cmp`: open first, then by priority, then description.
    pub fn sort(&mut self)
        ensures
            final(self).items@.to_multiset() == old(self).items@.to_multiset(),
            stable_sort_of(final(self).items@, old(self).items@, |a: Todo, b: Todo| order(a@, b@)),
    {
        let key = SortKey::Priority;
        self.sort_with(&key);
        assert((|a: Todo, b: Todo| key.order(a, b)) =~= (|a: Todo, b: Todo| order(a@, b@)));
    }

    /// Sorts by description.
    pub fn sort_by_title(&mut self)
        ensures
            final(self).items@.to_multiset() == old(self).items@.to_multiset(),
            stable_sort_of(final(self).items@, old(self).items@, |a: Todo, b: Todo| lex(a@.task, b@.task)),
    {
        let key = SortKey::Title;
        self.sort_with(&key);
        assert((|a: Todo, b: Todo| key.order(a, b)) =~= (|a: Todo, b: Todo| lex(a@.task, b@.task)));
    }

    /// Sorts by `Todo::cmp_by_due_date`.
    pub fn sort_by_due_date(&mut self)
        ensures
            final(self).items@.to_multiset() == old(self).items@.to_multiset(),
            stable_sort_of(final(self).items@, old(self).items@, |a: Todo, b: Todo| due_order(a@, b@)),
    {
        let key = SortKey::DueDate;
        self.sort_with(&key);
        assert((|a: Todo, b: Todo| key.order(a, b)) =~= (|a: Todo, b: Todo| due_order(a@, b@)));
    }

    /// The open tasks and the completed ones, each in list order.
    pub fn split(self) -> (r: (Vec<Todo>, Vec<Todo>))
        ensures
            r.0@ == self.items@.filter(|t: Todo| !t.is_complete),
            r.1@ == self.items@.filter(|t: Todo| t.is_complete),
    {
        let ghost open = |t: Todo| !t.is_complete;
        let ghost done = |t: Todo| t.is_complete;
        let ghost orig = self.items@;
        let mut items = self.items;
        let mut keep: Vec<Todo> = Vec::new();
        let mut closed: Vec<Todo> = Vec::new();
        let n = items.len();
        proof {
            reveal(Seq::filter);
            assert(orig.take(0).filter(open) =~= Seq::<Todo>::empty());
            assert(orig.take(0).filter(done) =~= Seq::<Todo>::empty());
            assert(orig.skip(0) =~= orig);
        }
        while items.len() > 0
            invariant
                n == orig.len(),
                items@.len() <= n,
                items@ == orig.skip(n - items@.len()),
                keep@ == orig.take(n - items@.len()).filter(open),
                closed@ == orig.take(n - items@.len()).filter(done),
                open == (|t: Todo| !t.is_complete),
                done == (|t: Todo| t.is_complete),
            decreases items@.len(),
        {
            let ghost k = n - items@.len();
            let t = items.remove(0);
            proof {
                reveal(Seq::filter);
                assert(orig.take(k + 1).drop_last() =~= orig.take(k));
                assert(orig.take(k + 1).last() == t);
                assert(items@ =~= orig.skip(k + 1));
            }
            if t.is_complete {
                closed.push(t);
            } else {
                keep.push(t);
            }
        }
        proof {
            assert(orig.take(n as int) =~= orig);
        }
        (keep, closed)
    }
}

} // verus!
