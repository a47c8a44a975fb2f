//! The `key:value` attributes of a task: a map with unique keys that keeps
//! the order in which keys first arrived.

use vstd::prelude::*;
use crate::text::{chars_eq, chars_of};

verus! {

/// A key found first at index `i`.
pub open spec fn first_key_at(s: Seq<(Seq<char>, Seq<char>)>, k: Seq<char>, i: int) -> bool {
    &&& 0 <= i < s.len()
    &&& s[i].0 == k
    &&& forall|j: int| 0 <= j < i ==> (#[trigger] s[j]).0 != k
}

/// Index of the first entry with key `k`, or -1.
pub open spec fn find_key(s: Seq<(Seq<char>, Seq<char>)>, k: Seq<char>) -> int {
    if exists|i: int| first_key_at(s, k, i) {
        choose|i: int| first_key_at(s, k, i)
    } else {
        -1
    }
}

pub open spec fn kv_get(s: Seq<(Seq<char>, Seq<char>)>, k: Seq<char>) -> Option<Seq<char>> {
    let i = find_key(s, k);
    if i >= 0 {
        Some(s[i].1)
    } else {
        None
    }
}

/// Sets the value of `k`, in its place when the key is there, else at the end.
pub open spec fn kv_insert(s: Seq<(Seq<char>, Seq<char>)>, k: Seq<char>, v: Seq<char>) -> Seq<
    (Seq<char>, Seq<char>),
> {
    let i = find_key(s, k);
    if i >= 0 {
        s.update(i, (k, v))
    } else {
        s.push((k, v))
    }
}

pub open spec fn kv_remove(s: Seq<(Seq<char>, Seq<char>)>, k: Seq<char>) -> Seq<
    (Seq<char>, Seq<char>),
> {
    let i = find_key(s, k);
    if i >= 0 {
        s.remove(i)
    } else {
        s
    }
}

pub open spec fn unique_keys(s: Seq<(Seq<char>, Seq<char>)>) -> bool {
    forall|i: int, j: int| 0 <= i < s.len() && 0 <= j < s.len() && (#[trigger] s[i]).0 == (
    #[trigger] s[j]).0 ==> i == j
}

pub proof fn lemma_find_key_is(s: Seq<(Seq<char>, Seq<char>)>, k: Seq<char>, i: int)
    requires
        first_key_at(s, k, i),
    ensures
        find_key(s, k) == i,
{
    let c = choose|i: int| first_key_at(s, k, i);
    if c < i {
        assert(s[c].0 == k);
    } else if c > i {
        assert(s[i].0 == k);
    }
}

pub proof fn lemma_find_key_none(s: Seq<(Seq<char>, Seq<char>)>, k: Seq<char>)
    requires
        forall|j: int| 0 <= j < s.len() ==> (#[trigger] s[j]).0 != k,
    ensures
        find_key(s, k) == -1,
{
}

pub proof fn lemma_insert_unique(s: Seq<(Seq<char>, Seq<char>)>, k: Seq<char>, v: Seq<char>)
    requires
        unique_keys(s),
    ensures
        unique_keys(kv_insert(s, k, v)),
        kv_get(kv_insert(s, k, v), k) == Some(v),
{
    let i = find_key(s, k);
    let r = kv_insert(s, k, v);
    if i >= 0 {
        assert(first_key_at(s, k, i));
        assert forall|a: int, b: int| 0 <= a < r.len() && 0 <= b < r.len() && (#[trigger] r[a]).0
            == (#[trigger] r[b]).0 implies a == b by {
            if a != i && b != i {
                assert(s[a].0 == s[b].0);
            } else if a == i && b != i {
                assert(s[b].0 == k && s[i].0 == k);
            } else if a != i && b == i {
                assert(s[a].0 == k && s[i].0 == k);
            }
        }
        lemma_find_key_is(r, k, i);
    } else {
        if exists|j: int| 0 <= j < s.len() && (#[trigger] s[j]).0 == k {
            let j = choose|j: int| 0 <= j < s.len() && (#[trigger] s[j]).0 == k;
            assert(first_key_at(s, k, j)) by {
                assert forall|m: int| 0 <= m < j implies (#[trigger] s[m]).0 != k by {
                    if s[m].0 == k {
                        assert(s[m].0 == s[j].0);
                    }
                }
            }
        }
        assert forall|a: int, b: int| 0 <= a < r.len() && 0 <= b < r.len() && (#[trigger] r[a]).0
            == (#[trigger] r[b]).0 implies a == b by {
            if a < s.len() && b < s.len() {
                assert(s[a].0 == s[b].0);
            } else if a < s.len() {
                assert(s[a].0 == k);
                assert(first_key_at(s, k, a)) by {
                    assert forall|m: int| 0 <= m < a implies (#[trigger] s[m]).0 != k by {
                        if s[m].0 == k {
                            assert(s[m].0 == s[a].0);
                        }
                    }
                }
            } else if b < s.len() {
                assert(s[b].0 == k);
                assert(first_key_at(s, k, b)) by {
                    assert forall|m: int| 0 <= m < b implies (#[trigger] s[m]).0 != k by {
                        if s[m].0 == k {
                            assert(s[m].0 == s[b].0);
                        }
                    }
                }
            }
        }
        assert forall|m: int| 0 <= m < s.len() implies (#[trigger] r[m]).0 != k by {
            assert(r[m] == s[m]);
            if s[m].0 == k {
                assert(first_key_at(s, k, m)) by {
                    assert forall|q: int| 0 <= q < m implies (#[trigger] s[q]).0 != k by {
                        if s[q].0 == k {
                            assert(s[q].0 == s[m].0);
                        }
                    }
                }
            }
        }
        lemma_find_key_is(r, k, s.len() as int);
    }
}

pub proof fn lemma_remove_unique(s: Seq<(Seq<char>, Seq<char>)>, k: Seq<char>)
    requires
        unique_keys(s),
    ensures
        unique_keys(kv_remove(s, k)),
        kv_get(kv_remove(s, k), k) is None,
{
    let i = find_key(s, k);
    let r = kv_remove(s, k);
    if i >= 0 {
        assert(first_key_at(s, k, i));
        assert forall|a: int, b: int| 0 <= a < r.len() && 0 <= b < r.len() && (#[trigger] r[a]).0
            == (#[trigger] r[b]).0 implies a == b by {
            let a2 = if a < i {
                a
            } else {
                a + 1
            };
            let b2 = if b < i {
                b
            } else {
                b + 1
            };
            assert(r[a] == s[a2] && r[b] == s[b2]);
        }
        assert forall|m: int| 0 <= m < r.len() implies (#[trigger] r[m]).0 != k by {
            let m2 = if m < i {
                m
            } else {
                m + 1
            };
            assert(r[m] == s[m2]);
            if s[m2].0 == k {
                assert(s[m2].0 == s[i].0);
            }
        }
    } else {
        assert forall|m: int| 0 <= m < r.len() implies (#[trigger] r[m]).0 != k by {
            if s[m].0 == k {
                assert(first_key_at(s, k, m)) by {
                    assert forall|q: int| 0 <= q < m implies (#[trigger] s[q]).0 != k by {
                        if s[q].0 == k {
                            assert(s[q].0 == s[m].0);
                        }
                    }
                }
            }
        }
    }
    lemma_find_key_none(r, k);
}

/// With distinct keys, the entry that holds a key is the one found.
pub proof fn lemma_unique_find(s: Seq<(Seq<char>, Seq<char>)>, k: Seq<char>, i: int)
    requires
        unique_keys(s),
        0 <= i < s.len(),
        s[i].0 == k,
    ensures
        find_key(s, k) == i,
{
    assert(first_key_at(s, k, i)) by {
        assert forall|j: int| 0 <= j < i implies (#[trigger] s[j]).0 != k by {
            if s[j].0 == k {
                assert(s[j].0 == s[i].0);
            }
        }
    }
    lemma_find_key_is(s, k, i);
}

/// Setting one key leaves the value of every other key.
pub proof fn lemma_get_insert(s: Seq<(Seq<char>, Seq<char>)>, k: Seq<char>, v: Seq<char>, k2: Seq<char>)
    requires
        unique_keys(s),
    ensures
        kv_get(kv_insert(s, k, v), k2) == if k2 == k {
            Some(v)
        } else {
            kv_get(s, k2)
        },
{
    lemma_insert_unique(s, k, v);
    let r = kv_insert(s, k, v);
    let f = find_key(s, k);
    if k2 != k {
        if exists|i: int| 0 <= i < s.len() && (#[trigger] s[i]).0 == k2 {
            let i = choose|i: int| 0 <= i < s.len() && (#[trigger] s[i]).0 == k2;
            lemma_unique_find(s, k2, i);
            if f >= 0 {
                assert(first_key_at(s, k, f));
                assert(i != f);
            }
            assert(r[i] == s[i]);
            lemma_unique_find(r, k2, i);
        } else {
            lemma_find_key_none(s, k2);
            assert forall|j: int| 0 <= j < r.len() implies (#[trigger] r[j]).0 != k2 by {
                if f >= 0 {
                    if j != f {
                        assert(r[j] == s[j]);
                    }
                } else if j < s.len() {
                    assert(r[j] == s[j]);
                }
            }
            lemma_find_key_none(r, k2);
        }
    }
}

/// Removing one key leaves the value of every other key.
pub proof fn lemma_get_remove(s: Seq<(Seq<char>, Seq<char>)>, k: Seq<char>, k2: Seq<char>)
    requires
        unique_keys(s),
    ensures
        kv_get(kv_remove(s, k), k2) == if k2 == k {
            None
        } else {
            kv_get(s, k2)
        },
{
    lemma_remove_unique(s, k);
    let r = kv_remove(s, k);
    let f = find_key(s, k);
    if k2 != k {
        if exists|i: int| 0 <= i < s.len() && (#[trigger] s[i]).0 == k2 {
            let i = choose|i: int| 0 <= i < s.len() && (#[trigger] s[i]).0 == k2;
            lemma_unique_find(s, k2, i);
            if f >= 0 {
                assert(first_key_at(s, k, f));
                assert(i != f);
                let i2 = if i < f {
                    i
                } else {
                    i - 1
                };
                assert(r[i2] == s[i]);
                lemma_unique_find(r, k2, i2);
            } else {
                assert(r[i] == s[i]);
                lemma_unique_find(r, k2, i);
            }
        } else {
            lemma_find_key_none(s, k2);
            assert forall|j: int| 0 <= j < r.len() implies (#[trigger] r[j]).0 != k2 by {
                if f >= 0 {
                    if j < f {
                        assert(r[j] == s[j]);
                    } else {
                        assert(r[j] == s[j + 1]);
                    }
                } else {
                    assert(r[j] == s[j]);
                }
            }
            lemma_find_key_none(r, k2);
        }
    }
}

/// Attributes of a task, keys unique, in the order of first arrival.
pub struct KeyValues {
    entries: Vec<(String, String)>,
}

impl View for KeyValues {
    type V = Seq<(Seq<char>, Seq<char>)>;

    closed spec fn view(&self) -> Seq<(Seq<char>, Seq<char>)> {
        self.entries@.map_values(|p: (String, String)| (p.0@, p.1@))
    }
}

impl KeyValues {
    pub open spec fn wf(&self) -> bool {
        unique_keys(self@)
    }

    pub fn new() -> (r: KeyValues)
        ensures
            r@ == Seq::<(Seq<char>, Seq<char>)>::empty(),
            r.wf(),
    {
        let r = KeyValues { entries: Vec::new() };
        assert(r@ =~= Seq::<(Seq<char>, Seq<char>)>::empty());
        r
    }

    pub fn len(&self) -> (r: usize)
        ensures
            r == self@.len(),
    {
        self.entries.len()
    }

    pub fn key_at(&self, i: usize) -> (r: &String)
        requires
            i < self@.len(),
        ensures
            r@ == self@[i as int].0,
    {
        &self.entries[i].0
    }

    pub fn value_at(&self, i: usize) -> (r: &String)
        requires
            i < self@.len(),
        ensures
            r@ == self@[i as int].1,
    {
        &self.entries[i].1
    }

    fn find(&self, key: &str) -> (r: Option<usize>)
        ensures
            r is Some <==> find_key(self@, key@) >= 0,
            r is Some ==> r->0 == find_key(self@, key@),
    {
        let k = chars_of(key);
        let mut i: usize = 0;
        while i < self.entries.len()
            invariant
                k@ == key@,
                i <= self@.len(),
                self@.len() == self.entries@.len(),
                forall|j: int| 0 <= j < i ==> (#[trigger] self@[j]).0 != key@,
            decreases self@.len() - i,
        {
            let c = chars_of(self.entries[i].0.as_str());
            if chars_eq(&c, &k) {
                proof {
                    assert(self@[i as int].0 == key@);
                    lemma_find_key_is(self@, key@, i as int);
                }
                return Some(i);
            }
            i += 1;
        }
        proof {
            lemma_find_key_none(self@, key@);
        }
        None
    }

    /// The value of `key`, when it is there.
    pub fn get(&self, key: &str) -> (r: Option<&String>)
        ensures
            r is Some <==> kv_get(self@, key@) is Some,
            r is Some ==> r->0@ == kv_get(self@, key@)->0,
    {
        match self.find(key) {
            Some(i) => Some(&self.entries[i].1),
            None => None,
        }
    }

    pub fn contains_key(&self, key: &str) -> (r: bool)
        ensures
            r == (kv_get(self@, key@) is Some),
    {
        self.find(key).is_some()
    }

    /// Sets `key` to `value`, in place when the key is there, else at the end.
    pub fn insert(&mut self, key: String, value: String)
        requires
            old(self).wf(),
        ensures
            final(self)@ == kv_insert(old(self)@, key@, value@),
            final(self).wf(),
    {
        proof {
            lemma_insert_unique(self@, key@, value@);
        }
        match self.find(key.as_str()) {
            Some(i) => {
                let ghost k = key@;
                let ghost v = value@;
                self.entries.set(i, (key, value));
                assert(self@ =~= kv_insert(old(self)@, k, v));
            },
            None => {
                let ghost k = key@;
                let ghost v = value@;
                self.entries.push((key, value));
                assert(self@ =~= kv_insert(old(self)@, k, v));
            },
        }
    }

    /// Removes `key` when it is there.
    pub fn remove(&mut self, key: &str)
        requires
            old(self).wf(),
        ensures
            final(self)@ == kv_remove(old(self)@, key@),
            final(self).wf(),
    {
        proof {
            lemma_remove_unique(self@, key@);
        }
        match self.find(key) {
            Some(i) => {
                self.entries.remove(i);
                assert(self@ =~= kv_remove(old(self)@, key@));
            },
            None => {},
        }
    }
}

impl Clone for KeyValues {
    fn clone(&self) -> (r: KeyValues)
        ensures
            r@ == self@,
    {
        let mut entries: Vec<(String, String)> = Vec::new();
        let mut i: usize = 0;
        while i < self.entries.len()
            invariant
                i <= self.entries@.len(),
                entries@.len() == i,
                forall|k: int| 0 <= k < i ==> #[trigger] entries@[k] == self.entries@[k],
            decreases self.entries@.len() - i,
        {
            let k = self.entries[i].0.clone();
            let v = self.entries[i].1.clone();
            entries.push((k, v));
            i += 1;
        }
        let r = KeyValues { entries };
        assert(r.entries@ =~= self.entries@);
        r
    }
}

} // verus!
