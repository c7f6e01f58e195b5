//! The derived index from normalized skill name to the set of agent IDs
//! claiming that skill. Rebuildable from the registry; entries whose ID set
//! becomes empty are deleted, so no stale keys accumulate.

use vstd::prelude::*;

use crate::normalize::{norm_of, normalize_skill};
use crate::registry::{key_in, keys_distinct, lemma_key_idx_unique, val_of};
use crate::models::Skill;

verus! {

/// The views of a sequence of ID strings.
pub open spec fn ids_view(s: Seq<String>) -> Seq<Seq<char>> {
    s.map_values(|x: String| x@)
}

/// True when the index holds `id` under the key `k`.
pub open spec fn skill_contains(
    v: Seq<(Seq<char>, Seq<Seq<char>>)>,
    k: Seq<char>,
    id: Seq<char>,
) -> bool {
    exists|i: int, j: int|
        0 <= i < v.len() && 0 <= j < v[i].1.len() && v[i].0 == k && v[i].1[j] == id
}

/// True when some skill of the sequence normalizes to the key `k`.
pub open spec fn has_skill_key(skills: Seq<Skill>, k: Seq<char>) -> bool {
    exists|j: int| 0 <= j < skills.len() && norm_of(skills[j].name@) == k
}

/// The skill index: normalized skill name, to the IDs of the agents that
/// claim the skill.
pub struct SkillIndex {
    entries: Vec<(String, Vec<String>)>,
}

impl View for SkillIndex {
    type V = Seq<(Seq<char>, Seq<Seq<char>>)>;

    closed spec fn view(&self) -> Seq<(Seq<char>, Seq<Seq<char>>)> {
        self.entries@.map_values(|p: (String, Vec<String>)| (p.0@, ids_view(p.1@)))
    }
}

/// Keys are distinct, the IDs under one key are distinct, and no entry is
/// empty.
pub open spec fn index_wf(v: Seq<(Seq<char>, Seq<Seq<char>>)>) -> bool {
    &&& keys_distinct(v)
    &&& forall|i: int| 0 <= i < v.len() ==> v[i].1.len() > 0
    &&& forall|i: int, p: int, q: int|
        0 <= i < v.len() && 0 <= p < q < v[i].1.len() ==> v[i].1[p] != v[i].1[q]
}

impl SkillIndex {
    /// Keys are distinct, the IDs under one key are distinct, and no entry
    /// is empty.
    pub open spec fn wf(&self) -> bool {
        index_wf(self@)
    }

    /// An empty index.
    pub fn new() -> (r: Self)
        ensures
            r@ == Seq::<(Seq<char>, Seq<Seq<char>>)>::empty(),
            r.wf(),
    {
        let r = SkillIndex { entries: Vec::new() };
        proof {
            assert(r@ =~= Seq::<(Seq<char>, Seq<Seq<char>>)>::empty());
        }
        r
    }

    /// The position of the entry with the given (already normalized) key.
    fn find(&self, key: &String) -> (r: Option<usize>)
        ensures
            match r {
                Some(i) => 0 <= i < self@.len() && self@[i as int].0 == key@,
                None => !key_in(self@, key@),
            },
    {
        let mut i: usize = 0;
        while i < self.entries.len()
            invariant
                i <= self.entries.len(),
                forall|j: int| 0 <= j < i ==> self@[j].0 != key@,
            decreases self.entries.len() - i,
        {
            if self.entries[i].0 == *key {
                return Some(i);
            }
            i += 1;
        }
        None
    }

    /// Adds `id` under the (already normalized) key, creating the entry if
    /// absent; a no-op when the pair is already present.
    fn add_one(&mut self, key: String, id: &String)
        requires
            old(self).wf(),
        ensures
            final(self).wf(),
            forall|k: Seq<char>, i: Seq<char>|
                skill_contains(final(self)@, k, i) <==> (skill_contains(old(self)@, k, i) || (k
                    == key@ && i == id@)),
    {
        let ghost old_view = self@;
        let ghost keyv = key@;
        match self.find(&key) {
            Some(e) => {
                proof {
                    lemma_key_idx_unique(old_view, e as int);
                }
                let pair = self.entries.remove(e);
                let k0 = pair.0;
                let mut ids = pair.1;
                let ghost orig_ids = ids@;
                let mut p: usize = 0;
                let mut present = false;
                while p < ids.len() && !present
                    invariant
                        p <= ids.len(),
                        ids@ == orig_ids,
                        !present ==> forall|q: int| 0 <= q < p ==> orig_ids[q]@ != id@,
                        present ==> exists|q: int| 0 <= q < orig_ids.len() && orig_ids[q]@ == id@,
                    decreases ids@.len() - p + if present { 0int } else { 1int },
                {
                    if ids[p] == *id {
                        present = true;
                    } else {
                        p += 1;
                    }
                }
                if !present {
                    ids.push(id.clone());
                }
                let ghost new_ids = ids_view(ids@);
                self.entries.insert(e, (k0, ids));
                proof {
                    let ove = old_view[e as int].1;
                    assert(ove =~= ids_view(orig_ids));
                    if present {
                        assert(new_ids =~= ove);
                    } else {
                        assert forall|q: int| 0 <= q < ove.len() implies ove[q] != id@ by {
                            assert(orig_ids[q]@ != id@);
                            assert(ove[q] == ids_view(orig_ids)[q]);
                        }
                        assert(new_ids =~= ove.push(id@));
                    }
                    assert(self@ =~= old_view.remove(e as int).insert(e as int, (keyv, new_ids)));
                    assert(self@ =~= old_view.update(e as int, (keyv, new_ids)));
                    assert(keyv == old_view[e as int].0);
                    assert forall|x: int, p2: int, q2: int|
                        0 <= x < self@.len() && 0 <= p2 < q2 < self@[x].1.len() implies self@[
                        x].1[p2] != self@[x].1[q2] by {
                        if x == e {
                            if present || q2 < ove.len() {
                                assert(old_view[x].1[p2] != old_view[x].1[q2]);
                            } else {
                                assert(self@[x].1[q2] == id@);
                                assert(self@[x].1[p2] == ove[p2]);
                            }
                        } else {
                            assert(old_view[x].1[p2] != old_view[x].1[q2]);
                        }
                    }
                    assert forall|k: Seq<char>, i: Seq<char>|
                        skill_contains(self@, k, i) <==> (skill_contains(old_view, k, i) || (k
                            == keyv && i == id@)) by {
                        if skill_contains(old_view, k, i) {
                            let (a, b): (int, int) = choose|a: int, b: int|
                                0 <= a < old_view.len() && 0 <= b < old_view[a].1.len()
                                    && old_view[a].0 == k && old_view[a].1[b] == i;
                            if a == e {
                                assert(self@[a].1[b] == new_ids[b]);
                                assert(new_ids[b] == ove[b]);
                                assert(self@[a].1[b] == i);
                            } else {
                                assert(self@[a].1[b] == i);
                            }
                            assert(skill_contains(self@, k, i));
                        }
                        if k == keyv && i == id@ {
                            if present {
                                let q = choose|q: int|
                                    0 <= q < orig_ids.len() && orig_ids[q]@ == id@;
                                assert(ids_view(orig_ids)[q] == id@);
                                assert(self@[e as int].1[q] == id@);
                            } else {
                                assert(self@[e as int].1[new_ids.len() - 1] == id@);
                            }
                            assert(skill_contains(self@, k, i));
                        }
                        if skill_contains(self@, k, i) {
                            let (a, b): (int, int) = choose|a: int, b: int|
                                0 <= a < self@.len() && 0 <= b < self@[a].1.len() && self@[a].0
                                    == k && self@[a].1[b] == i;
                            if a == e {
                                if b < ove.len() {
                                    assert(old_view[a].1[b] == i);
                                    assert(skill_contains(old_view, k, i));
                                } else {
                                    assert(i == id@ && k == keyv);
                                }
                            } else {
                                assert(old_view[a].1[b] == i);
                                assert(skill_contains(old_view, k, i));
                            }
                        }
                    }
                }
            },
            None => {
                let mut ids: Vec<String> = Vec::new();
                ids.push(id.clone());
                let ghost new_ids = ids_view(ids@);
                self.entries.push((key, ids));
                proof {
                    assert(new_ids =~= seq![id@]);
                    assert(self@ =~= old_view.push((keyv, new_ids)));
                    assert forall|k: Seq<char>, i: Seq<char>|
                        skill_contains(self@, k, i) <==> (skill_contains(old_view, k, i) || (k
                            == keyv && i == id@)) by {
                        if skill_contains(old_view, k, i) {
                            let (a, b): (int, int) = choose|a: int, b: int|
                                0 <= a < old_view.len() && 0 <= b < old_view[a].1.len()
                                    && old_view[a].0 == k && old_view[a].1[b] == i;
                            assert(self@[a].1[b] == i);
                        }
                        if k == keyv && i == id@ {
                            assert(self@[old_view.len() as int].1[0] == id@);
                        }
                        if skill_contains(self@, k, i) {
                            let (a, b): (int, int) = choose|a: int, b: int|
                                0 <= a < self@.len() && 0 <= b < self@[a].1.len() && self@[a].0
                                    == k && self@[a].1[b] == i;
                            if a < old_view.len() {
                                assert(skill_contains(old_view, k, i));
                            } else {
                                assert(k == keyv && i == id@);
                            }
                        }
                    }
                }
            },
        }
    }

    /// Removes `id` from under the (already normalized) key; deletes the
    /// entry when its ID set becomes empty. A no-op when the pair is absent.
    fn remove_one(&mut self, key: &String, id: &String)
        requires
            old(self).wf(),
        ensures
            final(self).wf(),
            forall|k: Seq<char>, i: Seq<char>|
                skill_contains(final(self)@, k, i) <==> (skill_contains(old(self)@, k, i) && !(k
                    == key@ && i == id@)),
    {
        let ghost old_view = self@;
        match self.find(key) {
            Some(e) => {
                proof {
                    lemma_key_idx_unique(old_view, e as int);
                }
                let pair = self.entries.remove(e);
                let k0 = pair.0;
                let mut ids = pair.1;
                let ghost orig_ids = ids@;
                let mut p: usize = 0;
                let mut found: Option<usize> = None;
                while p < ids.len() && found.is_none()
                    invariant
                        p <= ids.len(),
                        ids@ == orig_ids,
                        match found {
                            Some(f) => 0 <= f < orig_ids.len() && orig_ids[f as int]@ == id@,
                            None => forall|q: int| 0 <= q < p ==> orig_ids[q]@ != id@,
                        },
                        found is Some ==> p == found.unwrap(),
                    decreases ids@.len() - p + if found is Some { 0int } else { 1int },
                {
                    if ids[p] == *id {
                        found = Some(p);
                    } else {
                        p += 1;
                    }
                }
                match found {
                    Some(f) => {
                        let ghost old_ids = ids_view(ids@);
                        ids.remove(f);
                        let ghost new_ids = ids_view(ids@);
                        proof {
                            assert(old_ids == ids_view(orig_ids));
                            assert(old_ids =~= old_view[e as int].1);
                            assert(old_ids[f as int] == orig_ids[f as int]@);
                            assert(new_ids =~= old_ids.remove(f as int));
                        }
                        if ids.len() == 0 {
                            // entry deleted: self.entries already lacks it
                            proof {
                                assert(self@ =~= old_view.remove(e as int));
                                assert(old_ids.len() == 1);
                                assert(old_ids[f as int] == id@);
                                assert(old_view[e as int].1 =~= seq![id@]);
                                Self::lemma_membership_after_entry_removal(
                                    old_view,
                                    self@,
                                    e as int,
                                    key@,
                                    id@,
                                );
                            }
                        } else {
                            let ghost keyv = k0@;
                            self.entries.insert(e, (k0, ids));
                            proof {
                                assert(self@ =~= old_view.update(e as int, (keyv, new_ids)));
                                Self::lemma_membership_after_id_removal(
                                    old_view,
                                    self@,
                                    e as int,
                                    f as int,
                                    key@,
                                    id@,
                                );
                            }
                        }
                    },
                    None => {
                        let ghost keyv = k0@;
                        let ghost kept = ids_view(ids@);
                        self.entries.insert(e, (k0, ids));
                        proof {
                            assert(kept == ids_view(orig_ids));
                            assert(self@ =~= old_view.update(e as int, (keyv, kept)));
                            assert(kept =~= old_view[e as int].1);
                            assert(self@ =~= old_view);
                            assert forall|q: int|
                                0 <= q < old_view[e as int].1.len() implies old_view[e as int].1[
                            q] != id@ by {
                                assert(orig_ids[q]@ != id@);
                                assert(old_view[e as int].1[q] == ids_view(orig_ids)[q]);
                            }
                            assert forall|k: Seq<char>, i: Seq<char>|
                                skill_contains(self@, k, i) <==> (skill_contains(old_view, k, i)
                                    && !(k == key@ && i == id@)) by {
                                if skill_contains(old_view, k, i) && k == key@ && i == id@ {
                                    let (a, b): (int, int) = choose|a: int, b: int|
                                        0 <= a < old_view.len() && 0 <= b < old_view[a].1.len()
                                            && old_view[a].0 == k && old_view[a].1[b] == i;
                                    lemma_key_idx_unique(old_view, a);
                                    lemma_key_idx_unique(old_view, e as int);
                                    assert(a == e);
                                    assert(old_view[e as int].1[b] == id@);
                                    assert(false);
                                }
                            }
                        }
                    },
                }
            },
            None => {
                proof {
                    assert forall|k: Seq<char>, i: Seq<char>|
                        skill_contains(self@, k, i) <==> (skill_contains(old_view, k, i) && !(k
                            == key@ && i == id@)) by {
                        if skill_contains(old_view, k, i) && k == key@ && i == id@ {
                            let (a, b): (int, int) = choose|a: int, b: int|
                                0 <= a < old_view.len() && 0 <= b < old_view[a].1.len()
                                    && old_view[a].0 == k && old_view[a].1[b] == i;
                            assert(key_in(old_view, key@));
                        }
                    }
                }
            },
        }
    }

    /// After deleting the whole entry at `e` (whose only ID was `id`),
    /// membership loses exactly the pair (key, id).
    proof fn lemma_membership_after_entry_removal(
        old_view: Seq<(Seq<char>, Seq<Seq<char>>)>,
        new_view: Seq<(Seq<char>, Seq<Seq<char>>)>,
        e: int,
        key: Seq<char>,
        id: Seq<char>,
    )
        requires
            keys_distinct(old_view),
            0 <= e < old_view.len(),
            old_view[e].0 == key,
            old_view[e].1 =~= seq![id],
            new_view == old_view.remove(e),
        ensures
            keys_distinct(new_view),
            forall|i: int| 0 <= i < new_view.len() ==> new_view[i].1 == old_view[
                if i < e { i } else { i + 1 }
            ].1,
            forall|k: Seq<char>, i: Seq<char>|
                skill_contains(new_view, k, i) <==> (skill_contains(old_view, k, i) && !(k == key
                    && i == id)),
    {
        assert forall|p: int, q: int| 0 <= p < q < new_view.len() implies new_view[p].0
            != new_view[q].0 by {
            let p0 = if p < e { p } else { p + 1 };
            let q0 = if q < e { q } else { q + 1 };
            assert(old_view[p0].0 != old_view[q0].0);
        }
        assert forall|k: Seq<char>, i: Seq<char>|
            skill_contains(new_view, k, i) <==> (skill_contains(old_view, k, i) && !(k == key && i
                == id)) by {
            if skill_contains(new_view, k, i) {
                let (a, b): (int, int) = choose|a: int, b: int|
                    0 <= a < new_view.len() && 0 <= b < new_view[a].1.len() && new_view[a].0 == k
                        && new_view[a].1[b] == i;
                let a0 = if a < e { a } else { a + 1 };
                assert(old_view[a0].0 == k && old_view[a0].1[b] == i);
                assert(skill_contains(old_view, k, i));
                if k == key && i == id {
                    lemma_key_idx_unique(old_view, a0);
                    lemma_key_idx_unique(old_view, e);
                    assert(a0 == e);
                    assert(false);
                }
            }
            if skill_contains(old_view, k, i) && !(k == key && i == id) {
                let (a, b): (int, int) = choose|a: int, b: int|
                    0 <= a < old_view.len() && 0 <= b < old_view[a].1.len() && old_view[a].0 == k
                        && old_view[a].1[b] == i;
                if a == e {
                    assert(old_view[a].1[b] == id);
                    assert(k == key);
                    assert(false);
                } else {
                    let a1 = if a < e { a } else { a - 1 };
                    assert(new_view[a1].0 == k && new_view[a1].1[b] == i);
                }
            }
        }
    }

    /// After removing position `f` (holding `id`) from the IDs of the entry
    /// at `e`, membership loses exactly the pair (key, id).
    proof fn lemma_membership_after_id_removal(
        old_view: Seq<(Seq<char>, Seq<Seq<char>>)>,
        new_view: Seq<(Seq<char>, Seq<Seq<char>>)>,
        e: int,
        f: int,
        key: Seq<char>,
        id: Seq<char>,
    )
        requires
            keys_distinct(old_view),
            forall|i: int, p: int, q: int|
                0 <= i < old_view.len() && 0 <= p < q < old_view[i].1.len() ==> old_view[i].1[p]
                    != old_view[i].1[q],
            0 <= e < old_view.len(),
            old_view[e].0 == key,
            0 <= f < old_view[e].1.len(),
            old_view[e].1[f] == id,
            new_view == old_view.update(e, (key, old_view[e].1.remove(f))),
        ensures
            keys_distinct(new_view),
            forall|i: int, p: int, q: int|
                0 <= i < new_view.len() && 0 <= p < q < new_view[i].1.len() ==> new_view[i].1[p]
                    != new_view[i].1[q],
            forall|k: Seq<char>, i: Seq<char>|
                skill_contains(new_view, k, i) <==> (skill_contains(old_view, k, i) && !(k == key
                    && i == id)),
    {
        let new_ids = old_view[e].1.remove(f);
        assert forall|i: int, p: int, q: int|
            0 <= i < new_view.len() && 0 <= p < q < new_view[i].1.len() implies new_view[i].1[p]
            != new_view[i].1[q] by {
            if i == e {
                let p0 = if p < f { p } else { p + 1 };
                let q0 = if q < f { q } else { q + 1 };
                assert(old_view[e].1[p0] != old_view[e].1[q0]);
            }
        }
        assert forall|k: Seq<char>, i: Seq<char>|
            skill_contains(new_view, k, i) <==> (skill_contains(old_view, k, i) && !(k == key && i
                == id)) by {
            if skill_contains(new_view, k, i) {
                let (a, b): (int, int) = choose|a: int, b: int|
                    0 <= a < new_view.len() && 0 <= b < new_view[a].1.len() && new_view[a].0 == k
                        && new_view[a].1[b] == i;
                if a == e {
                    let b0 = if b < f { b } else { b + 1 };
                    assert(old_view[a].1[b0] == i);
                    assert(skill_contains(old_view, k, i));
                    if k == key && i == id {
                        assert(old_view[e].1[b0] == old_view[e].1[f]);
                        assert(b0 != f);
                        assert(false);
                    }
                } else {
                    assert(old_view[a].1[b] == i);
                    assert(skill_contains(old_view, k, i));
                    if k == key && i == id {
                        lemma_key_idx_unique(old_view, a);
                        lemma_key_idx_unique(old_view, e);
                        assert(false);
                    }
                }
            }
            if skill_contains(old_view, k, i) && !(k == key && i == id) {
                let (a, b): (int, int) = choose|a: int, b: int|
                    0 <= a < old_view.len() && 0 <= b < old_view[a].1.len() && old_view[a].0 == k
                        && old_view[a].1[b] == i;
                if a == e {
                    assert(i != id);
                    assert(b != f);
                    let b1 = if b < f { b } else { b - 1 };
                    assert(new_view[a].1[b1] == i);
                } else {
                    assert(new_view[a].1[b] == i);
                }
            }
        }
    }

    /// Indexes every skill of `skills` for `agent_id`: each normalized skill
    /// name gains `agent_id` in its ID set.
    pub fn index(&mut self, agent_id: &String, skills: &Vec<Skill>)
        requires
            old(self).wf(),
        ensures
            final(self).wf(),
            forall|k: Seq<char>, i: Seq<char>| #![trigger skill_contains(final(self)@, k, i)]
                skill_contains(final(self)@, k, i) <==> (skill_contains(old(self)@, k, i) || (i
                    == agent_id@ && has_skill_key(skills@, k))),
    {
        let ghost old_view = self@;
        let mut j: usize = 0;
        while j < skills.len()
            invariant
                j <= skills.len(),
                self.wf(),
                forall|k: Seq<char>, i: Seq<char>| #![trigger skill_contains(self@, k, i)]
                    skill_contains(self@, k, i) <==> (skill_contains(old_view, k, i) || (i
                        == agent_id@ && has_skill_key(skills@.take(j as int), k))),
            decreases skills.len() - j,
        {
            let key = normalize_skill(skills[j].name.as_str());
            self.add_one(key, agent_id);
            proof {
                let t = skills@.take(j + 1int);
                assert(t.drop_last() =~= skills@.take(j as int));
                assert(t.last() == skills@[j as int]);
                assert forall|k: Seq<char>| has_skill_key(t, k) <==> (has_skill_key(
                    skills@.take(j as int),
                    k,
                ) || norm_of(skills@[j as int].name@) == k) by {
                    if has_skill_key(t, k) {
                        let x = choose|x: int| 0 <= x < t.len() && norm_of(t[x].name@) == k;
                        if x < j {
                            assert(has_skill_key(skills@.take(j as int), k));
                        }
                    }
                    if has_skill_key(skills@.take(j as int), k) {
                        let x = choose|x: int|
                            0 <= x < j && norm_of(skills@.take(j as int)[x].name@) == k;
                        assert(norm_of(t[x].name@) == k);
                    }
                    if norm_of(skills@[j as int].name@) == k {
                        assert(norm_of(t[j as int].name@) == k);
                    }
                }
            }
            j += 1;
        }
        proof {
            assert(skills@.take(skills@.len() as int) =~= skills@);
        }
    }

    /// Removes `agent_id` from the entry of every normalized skill name of
    /// `skills`, deleting entries that become empty.
    pub fn deindex(&mut self, agent_id: &String, skills: &Vec<Skill>)
        requires
            old(self).wf(),
        ensures
            final(self).wf(),
            forall|k: Seq<char>, i: Seq<char>| #![trigger skill_contains(final(self)@, k, i)]
                skill_contains(final(self)@, k, i) <==> (skill_contains(old(self)@, k, i) && !(i
                    == agent_id@ && has_skill_key(skills@, k))),
    {
        let ghost old_view = self@;
        let mut j: usize = 0;
        while j < skills.len()
            invariant
                j <= skills.len(),
                self.wf(),
                forall|k: Seq<char>, i: Seq<char>| #![trigger skill_contains(self@, k, i)]
                    skill_contains(self@, k, i) <==> (skill_contains(old_view, k, i) && !(i
                        == agent_id@ && has_skill_key(skills@.take(j as int), k))),
            decreases skills.len() - j,
        {
            let key = normalize_skill(skills[j].name.as_str());
            self.remove_one(&key, agent_id);
            proof {
                let t = skills@.take(j + 1int);
                assert(t.drop_last() =~= skills@.take(j as int));
                assert(t.last() == skills@[j as int]);
                assert forall|k: Seq<char>| has_skill_key(t, k) <==> (has_skill_key(
                    skills@.take(j as int),
                    k,
                ) || norm_of(skills@[j as int].name@) == k) by {
                    if has_skill_key(t, k) {
                        let x = choose|x: int| 0 <= x < t.len() && norm_of(t[x].name@) == k;
                        if x < j {
                            assert(has_skill_key(skills@.take(j as int), k));
                        }
                    }
                    if has_skill_key(skills@.take(j as int), k) {
                        let x = choose|x: int|
                            0 <= x < j && norm_of(skills@.take(j as int)[x].name@) == k;
                        assert(norm_of(t[x].name@) == k);
                    }
                    if norm_of(skills@[j as int].name@) == k {
                        assert(norm_of(t[j as int].name@) == k);
                    }
                }
            }
            j += 1;
        }
        proof {
            assert(skills@.take(skills@.len() as int) =~= skills@);
        }
    }

    /// The IDs under the normalized form of `name`; empty when the key is
    /// unknown — never an error.
    pub fn lookup(&self, name: &str) -> (r: Vec<String>)
        requires
            self.wf(),
        ensures
            key_in(self@, norm_of(name@)) ==> ids_view(r@) == val_of(self@, norm_of(name@)),
            !key_in(self@, norm_of(name@)) ==> r@.len() == 0,
    {
        let key = normalize_skill(name);
        match self.find(&key) {
            Some(e) => {
                proof {
                    lemma_key_idx_unique(self@, e as int);
                }
                let ids = &self.entries[e].1;
                let mut r: Vec<String> = Vec::new();
                let mut p: usize = 0;
                while p < ids.len()
                    invariant
                        p <= ids.len(),
                        r@.len() == p,
                        forall|q: int| 0 <= q < p ==> r@[q]@ == ids@[q]@,
                    decreases ids.len() - p,
                {
                    r.push(ids[p].clone());
                    p += 1;
                }
                proof {
                    assert forall|q: int| 0 <= q < r@.len() implies ids_view(r@)[q] == ids_view(
                        ids@,
                    )[q] by {
                        assert(r@[q]@ == ids@[q]@);
                    }
                    assert(ids_view(r@) =~= ids_view(ids@));
                    assert(ids_view(ids@) == self@[e as int].1);
                }
                r
            },
            None => Vec::new(),
        }
    }
}

} // verus!
