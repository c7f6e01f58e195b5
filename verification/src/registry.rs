//! The authoritative store of definitions, keyed by ID.
//!
//! The store is an association list with pairwise-distinct keys; its view is
//! the sequence of (key, value) pairs, so contracts can pin down both the
//! contents and the (insertion) order that `list` operations expose.

use vstd::prelude::*;

verus! {

/// True when some entry of `s` has key `k`.
pub open spec fn key_in<T>(s: Seq<(Seq<char>, T)>, k: Seq<char>) -> bool {
    exists|i: int| 0 <= i < s.len() && s[i].0 == k
}

/// The index of the entry with key `k` (meaningful only when `key_in`).
pub open spec fn key_idx<T>(s: Seq<(Seq<char>, T)>, k: Seq<char>) -> int {
    choose|i: int| 0 <= i < s.len() && s[i].0 == k
}

/// The value stored under key `k` (meaningful only when `key_in`).
pub open spec fn val_of<T>(s: Seq<(Seq<char>, T)>, k: Seq<char>) -> T {
    s[key_idx(s, k)].1
}

/// Keys are pairwise distinct.
pub open spec fn keys_distinct<T>(s: Seq<(Seq<char>, T)>) -> bool {
    forall|i: int, j: int| 0 <= i < j < s.len() ==> s[i].0 != s[j].0
}

/// Under distinct keys, every entry whose key is `k` is the `key_idx` entry.
pub proof fn lemma_key_idx_unique<T>(s: Seq<(Seq<char>, T)>, i: int)
    requires
        keys_distinct(s),
        0 <= i < s.len(),
    ensures
        key_in(s, s[i].0),
        key_idx(s, s[i].0) == i,
{
    assert(key_in(s, s[i].0));
    let j = key_idx(s, s[i].0);
    assert(0 <= j < s.len() && s[j].0 == s[i].0);
    if i < j {
        assert(s[i].0 != s[j].0);
    } else if j < i {
        assert(s[j].0 != s[i].0);
    }
}

/// What holds after a put: the key maps to the new value, and every other
/// key is untouched.
pub proof fn lemma_put_frame<T>(s: Seq<(Seq<char>, T)>, t: Seq<(Seq<char>, T)>, id: Seq<char>, v: T)
    requires
        keys_distinct(s),
        key_in(s, id) ==> t == s.update(key_idx(s, id), (id, v)),
        !key_in(s, id) ==> t == s.push((id, v)),
    ensures
        key_in(t, id),
        val_of(t, id) == v,
        forall|k: Seq<char>| k != id ==> (#[trigger] key_in(t, k) <==> key_in(s, k)),
        forall|k: Seq<char>| k != id && key_in(s, k) ==> #[trigger] val_of(t, k) == val_of(s, k),
        keys_distinct(t),
{
    if key_in(s, id) {
        let ci = key_idx(s, id);
        assert(0 <= ci < s.len() && s[ci].0 == id);
        assert forall|p: int, q: int| 0 <= p < q < t.len() implies t[p].0 != t[q].0 by {
            assert(s[p].0 != s[q].0);
        }
        lemma_key_idx_unique(t, ci);
        assert forall|k: Seq<char>| k != id implies (#[trigger] key_in(t, k) <==> key_in(s, k)) by {
            if key_in(t, k) {
                let j = choose|j: int| 0 <= j < t.len() && t[j].0 == k;
                assert(j != ci);
                assert(s[j].0 == k);
            }
            if key_in(s, k) {
                let j = choose|j: int| 0 <= j < s.len() && s[j].0 == k;
                assert(j != ci);
                assert(t[j].0 == k);
            }
        }
        assert forall|k: Seq<char>| k != id && key_in(s, k) implies #[trigger] val_of(t, k)
            == val_of(s, k) by {
            let j = key_idx(s, k);
            assert(0 <= j < s.len() && s[j].0 == k);
            assert(j != ci);
            lemma_key_idx_unique(t, j);
        }
    } else {
        let ci = s.len() as int;
        assert forall|p: int, q: int| 0 <= p < q < t.len() implies t[p].0 != t[q].0 by {
            if q < ci {
                assert(s[p].0 != s[q].0);
            } else {
                assert(t[q].0 == id);
                assert(s[p].0 != id);
            }
        }
        lemma_key_idx_unique(t, ci);
        assert forall|k: Seq<char>| k != id implies (#[trigger] key_in(t, k) <==> key_in(s, k)) by {
            if key_in(t, k) {
                let j = choose|j: int| 0 <= j < t.len() && t[j].0 == k;
                assert(j != ci);
                assert(s[j].0 == k);
            }
            if key_in(s, k) {
                let j = choose|j: int| 0 <= j < s.len() && s[j].0 == k;
                assert(t[j].0 == k);
            }
        }
        assert forall|k: Seq<char>| k != id && key_in(s, k) implies #[trigger] val_of(t, k)
            == val_of(s, k) by {
            let j = key_idx(s, k);
            assert(0 <= j < s.len() && s[j].0 == k);
            lemma_key_idx_unique(t, j);
        }
    }
}

/// What holds after a removal: the key is gone, and every other key is
/// untouched.
pub proof fn lemma_remove_frame<T>(s: Seq<(Seq<char>, T)>, t: Seq<(Seq<char>, T)>, id: Seq<char>)
    requires
        keys_distinct(s),
        key_in(s, id),
        t == s.remove(key_idx(s, id)),
    ensures
        !key_in(t, id),
        forall|k: Seq<char>| k != id ==> (#[trigger] key_in(t, k) <==> key_in(s, k)),
        forall|k: Seq<char>| k != id && key_in(s, k) ==> #[trigger] val_of(t, k) == val_of(s, k),
        keys_distinct(t),
{
    let ci = key_idx(s, id);
    assert(0 <= ci < s.len() && s[ci].0 == id);
    assert forall|p: int, q: int| 0 <= p < q < t.len() implies t[p].0 != t[q].0 by {
        let p0 = if p < ci { p } else { p + 1 };
        let q0 = if q < ci { q } else { q + 1 };
        assert(s[p0].0 != s[q0].0);
    }
    assert forall|j: int| 0 <= j < t.len() implies t[j].0 != id by {
        let j0 = if j < ci { j } else { j + 1 };
        assert(t[j] == s[j0]);
        if j0 != ci {
            lemma_key_idx_unique(s, j0);
            if s[j0].0 == id {
                assert(key_idx(s, id) == j0);
            }
        }
    }
    assert forall|k: Seq<char>| k != id implies (#[trigger] key_in(t, k) <==> key_in(s, k)) by {
        if key_in(t, k) {
            let j = choose|j: int| 0 <= j < t.len() && t[j].0 == k;
            let j0 = if j < ci { j } else { j + 1 };
            assert(s[j0].0 == k);
        }
        if key_in(s, k) {
            let j = choose|j: int| 0 <= j < s.len() && s[j].0 == k;
            assert(j != ci);
            let j1 = if j < ci { j } else { j - 1 };
            assert(t[j1].0 == k);
        }
    }
    assert forall|k: Seq<char>| k != id && key_in(s, k) implies #[trigger] val_of(t, k) == val_of(
        s,
        k,
    ) by {
        let j = key_idx(s, k);
        assert(0 <= j < s.len() && s[j].0 == k);
        assert(j != ci);
        let j1 = if j < ci { j } else { j - 1 };
        assert(t[j1] == s[j]);
        lemma_key_idx_unique(t, j1);
    }
}

/// An in-memory store of values keyed by ID. Inserting under an existing key
/// replaces the value in place; iteration order is insertion order.
pub struct Registry<T> {
    entries: Vec<(String, T)>,
}

impl<T> View for Registry<T> {
    type V = Seq<(Seq<char>, T)>;

    closed spec fn view(&self) -> Seq<(Seq<char>, T)> {
        self.entries@.map_values(|p: (String, T)| (p.0@, p.1))
    }
}

impl<T> Registry<T> {
    /// Keys are pairwise distinct.
    pub open spec fn wf(&self) -> bool {
        keys_distinct(self@)
    }

    /// An empty store.
    pub fn new() -> (r: Self)
        ensures
            r@ == Seq::<(Seq<char>, T)>::empty(),
            r.wf(),
    {
        let r = Registry { entries: Vec::new() };
        proof {
            assert(r@ =~= Seq::<(Seq<char>, T)>::empty());
        }
        r
    }

    /// How many definitions are stored.
    pub fn len(&self) -> (n: usize)
        ensures
            n == self@.len(),
    {
        self.entries.len()
    }

    /// The position of the entry with the given ID, if any.
    fn find(&self, id: &String) -> (r: Option<usize>)
        ensures
            match r {
                Some(i) => 0 <= i < self@.len() && self@[i as int].0 == id@,
                None => !key_in(self@, id@),
            },
    {
        let mut i: usize = 0;
        while i < self.entries.len()
            invariant
                i <= self.entries.len(),
                forall|j: int| 0 <= j < i ==> self@[j].0 != id@,
            decreases self.entries.len() - i,
        {
            if self.entries[i].0 == *id {
                return Some(i);
            }
            i += 1;
        }
        None
    }

    /// The stored definition with this ID, if any.
    pub fn get(&self, id: &String) -> (r: Option<&T>)
        requires
            self.wf(),
        ensures
            match r {
                Some(v) => key_in(self@, id@) && *v == val_of(self@, id@),
                None => !key_in(self@, id@),
            },
    {
        match self.find(id) {
            Some(i) => {
                proof {
                    lemma_key_idx_unique(self@, i as int);
                }
                Some(&self.entries[i].1)
            },
            None => None,
        }
    }

    /// Inserts or replaces by ID, returning the previous value if any.
    /// A replaced entry keeps its position; a new entry goes to the end.
    pub fn put(&mut self, id: String, value: T) -> (prev: Option<T>)
        requires
            old(self).wf(),
        ensures
            final(self).wf(),
            key_in(old(self)@, id@) ==> {
                &&& final(self)@ == old(self)@.update(
                    key_idx(old(self)@, id@),
                    (id@, value),
                )
                &&& prev == Some(val_of(old(self)@, id@))
            },
            !key_in(old(self)@, id@) ==> {
                &&& final(self)@ == old(self)@.push((id@, value))
                &&& prev == None::<T>
            },
    {
        let ghost old_view = self@;
        let ghost idv = id@;
        match self.find(&id) {
            Some(i) => {
                proof {
                    lemma_key_idx_unique(old_view, i as int);
                }
                let pair = self.entries.remove(i);
                self.entries.insert(i, (id, value));
                proof {
                    assert(self@ =~= old_view.update(i as int, (idv, value)));
                    assert forall|p: int, q: int| 0 <= p < q < self@.len() implies self@[p].0
                        != self@[q].0 by {
                        assert(old_view[p].0 != old_view[q].0);
                    }
                }
                Some(pair.1)
            },
            None => {
                self.entries.push((id, value));
                proof {
                    assert(self@ =~= old_view.push((idv, value)));
                    assert forall|p: int, q: int| 0 <= p < q < self@.len() implies self@[p].0
                        != self@[q].0 by {
                        if q < old_view.len() {
                            assert(old_view[p].0 != old_view[q].0);
                        } else {
                            assert(self@[q].0 == idv);
                            assert(old_view[p].0 != idv);
                        }
                    }
                }
                None
            },
        }
    }

    /// Removes the definition with this ID, returning it; a no-op when the
    /// ID is absent.
    pub fn remove(&mut self, id: &String) -> (r: Option<T>)
        requires
            old(self).wf(),
        ensures
            final(self).wf(),
            key_in(old(self)@, id@) ==> {
                &&& final(self)@ == old(self)@.remove(key_idx(old(self)@, id@))
                &&& r == Some(val_of(old(self)@, id@))
            },
            !key_in(old(self)@, id@) ==> {
                &&& final(self)@ == old(self)@
                &&& r == None::<T>
            },
    {
        let ghost old_view = self@;
        match self.find(id) {
            Some(i) => {
                proof {
                    lemma_key_idx_unique(old_view, i as int);
                }
                let pair = self.entries.remove(i);
                proof {
                    assert(self@ =~= old_view.remove(i as int));
                    assert forall|p: int, q: int| 0 <= p < q < self@.len() implies self@[p].0
                        != self@[q].0 by {
                        let p0 = if p < i { p } else { p + 1 };
                        let q0 = if q < i { q } else { q + 1 };
                        assert(old_view[p0].0 != old_view[q0].0);
                    }
                }
                Some(pair.1)
            },
            None => None,
        }
    }

    /// The value at a position, in insertion order.
    pub fn value_at(&self, i: usize) -> (r: &T)
        requires
            i < self@.len(),
        ensures
            *r == self@[i as int].1,
    {
        &self.entries[i].1
    }

}

} // verus!
