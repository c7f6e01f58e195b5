//! The vector index: (id, embedding, metadata) records with top-K retrieval
//! by descending cosine similarity.
//!
//! The embedding dimension is fixed at construction; an `upsert` with a
//! mismatched dimension fails with `DimensionMismatch` and changes nothing.
//! `top_k` ranks the whole population along a ranking order (a permutation
//! sorted by non-increasing score) and returns its first `k` entries;
//! `k` larger than the population returns all records.

use vstd::prelude::*;

use crate::embedding::{
    compute_score, dot, norm2, score_ge, score_le, score_le_exec, score_wf, spec_score_of,
    lemma_score_le_total, Embedding, Score, COORD_BOUND, DIM_BOUND, SCORE_BOUND,
};
use crate::models::DiscoveryError;

verus! {

/// A record of the vector index: identity, display metadata, and the
/// embedding of the description.
#[derive(Debug)]
pub struct SearchableRecord {
    pub id: String,
    pub name: String,
    pub description: String,
    pub embedding: Embedding,
}

/// The mathematical content of a record.
pub struct RecordView {
    pub id: String,
    pub name: String,
    pub description: String,
    pub embedding: Seq<i64>,
}

impl View for SearchableRecord {
    type V = RecordView;

    open spec fn view(&self) -> RecordView {
        RecordView {
            id: self.id,
            name: self.name,
            description: self.description,
            embedding: self.embedding@,
        }
    }
}

impl Clone for SearchableRecord {
    fn clone(&self) -> (r: Self)
        ensures
            r@ == self@,
    {
        SearchableRecord {
            id: self.id.clone(),
            name: self.name.clone(),
            description: self.description.clone(),
            embedding: self.embedding.duplicate(),
        }
    }
}

/// True when some record of `s` has this ID.
pub open spec fn rec_in(s: Seq<SearchableRecord>, id: Seq<char>) -> bool {
    exists|i: int| 0 <= i < s.len() && s[i].id@ == id
}

/// The index of the record with this ID (meaningful only when `rec_in`).
pub open spec fn rec_idx(s: Seq<SearchableRecord>, id: Seq<char>) -> int {
    choose|i: int| 0 <= i < s.len() && s[i].id@ == id
}

/// Record IDs are pairwise distinct.
pub open spec fn rec_ids_distinct(s: Seq<SearchableRecord>) -> bool {
    forall|i: int, j: int| 0 <= i < j < s.len() ==> s[i].id@ != s[j].id@
}

/// Under distinct IDs, every record whose ID is `id` is the `rec_idx` one.
pub proof fn lemma_rec_idx_unique(s: Seq<SearchableRecord>, i: int)
    requires
        rec_ids_distinct(s),
        0 <= i < s.len(),
    ensures
        rec_in(s, s[i].id@),
        rec_idx(s, s[i].id@) == i,
{
    assert(rec_in(s, s[i].id@));
    let j = rec_idx(s, s[i].id@);
    assert(0 <= j < s.len() && s[j].id@ == s[i].id@);
    if i < j {
        assert(s[i].id@ != s[j].id@);
    } else if j < i {
        assert(s[j].id@ != s[i].id@);
    }
}

/// `order` ranks all of `s`: a permutation of the positions of `s`, sorted
/// by non-increasing similarity score against the query `q`.
pub open spec fn is_ranking(s: Seq<SearchableRecord>, q: Seq<i64>, order: Seq<int>) -> bool {
    &&& order.len() == s.len()
    &&& forall|p: int| 0 <= p < order.len() ==> 0 <= #[trigger] order[p] < s.len()
    &&& forall|p: int, t: int| 0 <= p < t < order.len() ==> order[p] != order[t]
    &&& forall|v: int| 0 <= v < s.len() ==> #[trigger] order.contains(v)
    &&& forall|p: int|
        0 <= p < order.len() - 1 ==> score_ge(
            spec_score_of(s[#[trigger] order[p]].embedding@, q),
            spec_score_of(s[order[p + 1]].embedding@, q),
        )
    // ties keep insertion order
    &&& forall|p: int|
        0 <= p < order.len() - 1 && score_le(
            spec_score_of(s[#[trigger] order[p]].embedding@, q),
            spec_score_of(s[order[p + 1]].embedding@, q),
        ) ==> order[p] < order[p + 1]
}

/// Some ranked entry carries the position `v`.
pub open spec fn ranked_contains(ranked: Seq<(Score, usize)>, v: int) -> bool {
    exists|p: int| 0 <= p < ranked.len() && (#[trigger] ranked[p]).1 == v
}

/// The view of a scored result list.
pub open spec fn scored_views(r: Seq<(Score, SearchableRecord)>) -> Seq<(Score, RecordView)> {
    r.map_values(|p: (Score, SearchableRecord)| (p.0, p.1@))
}

/// What `top_k` returns: the first `min(k, len)` entries of a ranking of
/// the whole population, each carrying its exact score.
pub open spec fn is_top_k(
    s: Seq<SearchableRecord>,
    q: Seq<i64>,
    k: int,
    rv: Seq<(Score, RecordView)>,
) -> bool {
    exists|order: Seq<int>|
        {
            &&& #[trigger] is_ranking(s, q, order)
            &&& rv.len() == if k <= s.len() {
                k
            } else {
                s.len() as int
            }
            &&& forall|i: int|
                0 <= i < rv.len() ==> #[trigger] rv[i].1 == s[order[i]]@ && rv[i].0
                    == spec_score_of(s[order[i]].embedding@, q)
        }
}

/// An in-memory vector index over records with a fixed embedding dimension.
pub struct VectorIndex {
    dim: usize,
    records: Vec<SearchableRecord>,
}

impl View for VectorIndex {
    type V = Seq<SearchableRecord>;

    closed spec fn view(&self) -> Seq<SearchableRecord> {
        self.records@
    }
}

/// Dimension within bounds, every record's embedding well-formed and of
/// that dimension, record IDs distinct.
pub open spec fn vindex_wf(s: Seq<SearchableRecord>, dim: int) -> bool {
    &&& 1 <= dim <= DIM_BOUND as int
    &&& forall|i: int|
        0 <= i < s.len() ==> (#[trigger] s[i].embedding).wf() && s[i].embedding@.len() == dim
    &&& rec_ids_distinct(s)
}

impl VectorIndex {
    /// The dimension every stored embedding has.
    pub closed spec fn spec_dim(&self) -> int {
        self.dim as int
    }

    /// Dimension within bounds, every record's embedding well-formed and of
    /// that dimension, record IDs distinct.
    pub open spec fn wf(&self) -> bool {
        vindex_wf(self@, self.spec_dim())
    }

    /// An empty index for embeddings of dimension `dim`.
    pub fn new(dim: usize) -> (r: Self)
        requires
            1 <= dim <= DIM_BOUND,
        ensures
            r.wf(),
            r@.len() == 0,
            r.spec_dim() == dim,
    {
        VectorIndex { dim, records: Vec::new() }
    }

    /// The dimension, as constructed.
    pub fn dim(&self) -> (d: usize)
        ensures
            d == self.spec_dim(),
    {
        self.dim
    }

    /// How many records are stored.
    pub fn len(&self) -> (n: usize)
        ensures
            n == self@.len(),
    {
        self.records.len()
    }

    /// The position of the record with this ID, if any.
    fn find(&self, id: &String) -> (r: Option<usize>)
        ensures
            match r {
                Some(i) => 0 <= i < self@.len() && self@[i as int].id@ == id@,
                None => !rec_in(self@, id@),
            },
    {
        let mut i: usize = 0;
        while i < self.records.len()
            invariant
                i <= self.records.len(),
                forall|j: int| 0 <= j < i ==> self@[j].id@ != id@,
            decreases self.records.len() - i,
        {
            if self.records[i].id == *id {
                return Some(i);
            }
            i += 1;
        }
        None
    }

    /// Inserts or replaces the record with `rec.id`. Fails with
    /// `DimensionMismatch`, changing nothing, when the embedding's dimension
    /// is not the index's.
    pub fn upsert(&mut self, rec: SearchableRecord) -> (r: Result<(), DiscoveryError>)
        requires
            old(self).wf(),
            rec.embedding.wf(),
        ensures
            final(self).wf(),
            final(self).spec_dim() == old(self).spec_dim(),
            rec.embedding@.len() != old(self).spec_dim() ==> r == Err::<(), DiscoveryError>(
                DiscoveryError::DimensionMismatch,
            ) && final(self)@ == old(self)@,
            rec.embedding@.len() == old(self).spec_dim() ==> r == Ok::<(), DiscoveryError>(())
                && (if rec_in(old(self)@, rec.id@) {
                final(self)@ == old(self)@.update(rec_idx(old(self)@, rec.id@), rec)
            } else {
                final(self)@ == old(self)@.push(rec)
            }),
    {
        if rec.embedding.len() != self.dim {
            return Err(DiscoveryError::DimensionMismatch);
        }
        let ghost old_view = self@;
        match self.find(&rec.id) {
            Some(i) => {
                proof {
                    lemma_rec_idx_unique(old_view, i as int);
                }
                let ghost recg = rec;
                self.records.remove(i);
                self.records.insert(i, rec);
                proof {
                    assert(self@ =~= old_view.update(i as int, recg));
                    assert forall|p: int, q: int| 0 <= p < q < self@.len() implies self@[p].id@
                        != self@[q].id@ by {
                        assert(old_view[p].id@ != old_view[q].id@);
                    }
                }
                Ok(())
            },
            None => {
                let ghost recg = rec;
                self.records.push(rec);
                proof {
                    assert(self@ =~= old_view.push(recg));
                    assert forall|p: int, q: int| 0 <= p < q < self@.len() implies self@[p].id@
                        != self@[q].id@ by {
                        if q < old_view.len() {
                            assert(old_view[p].id@ != old_view[q].id@);
                        } else {
                            assert(self@[q].id@ == recg.id@);
                            assert(old_view[p].id@ != recg.id@);
                        }
                    }
                }
                Ok(())
            },
        }
    }

    /// Removes the record with this ID; a no-op when it is absent.
    pub fn remove(&mut self, id: &String)
        requires
            old(self).wf(),
        ensures
            final(self).wf(),
            final(self).spec_dim() == old(self).spec_dim(),
            rec_in(old(self)@, id@) ==> final(self)@ == old(self)@.remove(
                rec_idx(old(self)@, id@),
            ),
            !rec_in(old(self)@, id@) ==> final(self)@ == old(self)@,
    {
        let ghost old_view = self@;
        match self.find(id) {
            Some(i) => {
                proof {
                    lemma_rec_idx_unique(old_view, i as int);
                }
                self.records.remove(i);
                proof {
                    assert(self@ =~= old_view.remove(i as int));
                    assert forall|p: int, q: int| 0 <= p < q < self@.len() implies self@[p].id@
                        != self@[q].id@ by {
                        let p0 = if p < i { p } else { p + 1 };
                        let q0 = if q < i { q } else { q + 1 };
                        assert(old_view[p0].id@ != old_view[q0].id@);
                    }
                }
            },
            None => {},
        }
    }

    /// The `min(k, population)` records most cosine-similar to the query,
    /// with their exact scores, by non-increasing similarity.
    #[verifier::rlimit(100)]
    pub fn top_k(&self, q: &Embedding, k: usize) -> (r: Vec<(Score, SearchableRecord)>)
        requires
            self.wf(),
            q.wf(),
            q@.len() == self.spec_dim(),
        ensures
            r@.len() == if k <= self@.len() {
                k as int
            } else {
                self@.len() as int
            },
            is_top_k(self@, q@, k as int, scored_views(r@)),
            forall|i: int|
                0 <= i < r@.len() - 1 ==> score_ge(#[trigger] r@[i].0, r@[i + 1].0),
            forall|i: int|
                0 <= i < r@.len() ==> score_wf(#[trigger] r@[i].0) && r@[i].0.query_norm2 == norm2(
                    q@,
                ),
    {
        let n = self.records.len();
        let ghost sv = self@;
        let ghost qv = q@;
        // rank all records: insertion sort of (score, position), descending
        let mut ranked: Vec<(Score, usize)> = Vec::new();
        let mut j: usize = 0;
        while j < n
            invariant
                j <= n,
                n == sv.len(),
                sv == self@,
                qv == q@,
                self.wf(),
                q.wf(),
                q@.len() == self.spec_dim(),
                ranked@.len() == j,
                forall|p: int|
                    0 <= p < j ==> 0 <= (#[trigger] ranked@[p]).1 < j && ranked@[p].0
                        == spec_score_of(sv[ranked@[p].1 as int].embedding@, qv) && score_wf(
                        ranked@[p].0,
                    ),
                forall|p: int, t: int| 0 <= p < t < j ==> ranked@[p].1 != ranked@[t].1,
                forall|v: int| 0 <= v < j ==> #[trigger] ranked_contains(ranked@, v),
                forall|p: int|
                    0 <= p < j - 1 ==> score_ge(#[trigger] ranked@[p].0, ranked@[p + 1].0),
                forall|p: int|
                    0 <= p < j - 1 && score_le(#[trigger] ranked@[p].0, ranked@[p + 1].0)
                        ==> ranked@[p].1 < ranked@[p + 1].1,
            decreases n - j,
        {
            let ghost ranked_old = ranked@;
            let sc = compute_score(&self.records[j].embedding, q);
            proof {
                assert(sc == spec_score_of(sv[j as int].embedding@, qv));
            }
            let mut p: usize = 0;
            let mut stop = false;
            while p < ranked.len() && !stop
                invariant
                    p <= ranked@.len(),
                    ranked@ == ranked_old,
                    forall|t: int|
                        0 <= t < ranked@.len() ==> score_wf((#[trigger] ranked@[t]).0),
                    score_wf(sc),
                    forall|t: int| 0 <= t < p ==> score_le(sc, (#[trigger] ranked@[t]).0),
                    stop ==> p < ranked@.len() && !score_le(sc, ranked@[p as int].0),
                decreases ranked@.len() - p + if stop {
                    0int
                } else {
                    1int
                },
            {
                if score_le_exec(&sc, &ranked[p].0) {
                    p += 1;
                } else {
                    stop = true;
                }
            }
            proof {
                if p < ranked_old.len() {
                    assert(stop);
                    lemma_score_le_total(sc, ranked_old[p as int].0);
                    assert(score_le(ranked_old[p as int].0, sc));
                }
            }
            ranked.insert(p, (sc, j));
            proof {
                assert(ranked@ =~= ranked_old.insert(p as int, (sc, j)));
                assert forall|x: int, t: int|
                    0 <= x < t < ranked@.len() implies ranked@[x].1 != ranked@[t].1 by {
                    let x0 = if x < p { x } else { x - 1 };
                    let t0 = if t < p { t } else { t - 1 };
                    if x == p {
                        assert(ranked@[t].1 == ranked_old[t0].1);
                        assert(ranked_old[t0].1 < j);
                    } else if t == p {
                        assert(ranked@[x].1 == ranked_old[x0].1);
                        assert(ranked_old[x0].1 < j);
                    } else {
                        assert(ranked@[x].1 == ranked_old[x0].1);
                        assert(ranked@[t].1 == ranked_old[t0].1);
                    }
                }
                assert forall|v: int| 0 <= v < j + 1 implies #[trigger] ranked_contains(
                    ranked@,
                    v,
                ) by {
                    if v == j {
                        assert((ranked@[p as int]).1 == v);
                    } else {
                        assert(ranked_contains(ranked_old, v));
                        let t0 = choose|t0: int|
                            0 <= t0 < ranked_old.len() && (#[trigger] ranked_old[t0]).1 == v;
                        let t1 = if t0 < p { t0 } else { t0 + 1 };
                        assert((ranked@[t1]).1 == v);
                    }
                }
                assert forall|t: int|
                    0 <= t < ranked@.len() - 1 && score_le(
                        #[trigger] ranked@[t].0,
                        ranked@[t + 1].0,
                    ) implies ranked@[t].1 < ranked@[t + 1].1 by {
                    if t + 1 < p {
                        assert(ranked@[t] == ranked_old[t]);
                        assert(ranked@[t + 1] == ranked_old[t + 1]);
                    } else if t + 1 == p {
                        assert(ranked@[t] == ranked_old[t]);
                        assert(ranked_old[t].1 < j);
                        assert(ranked@[t + 1].1 == j);
                    } else if t == p {
                        assert(ranked@[t + 1] == ranked_old[t]);
                        assert(!score_le(sc, ranked_old[t].0));
                    } else {
                        assert(ranked@[t] == ranked_old[t - 1]);
                        assert(ranked@[t + 1] == ranked_old[t]);
                    }
                }
                assert forall|t: int| 0 <= t < ranked@.len() - 1 implies score_ge(
                    #[trigger] ranked@[t].0,
                    ranked@[t + 1].0,
                ) by {
                    if t + 1 < p {
                        assert(ranked@[t].0 == ranked_old[t].0);
                        assert(ranked@[t + 1].0 == ranked_old[t + 1].0);
                    } else if t + 1 == p {
                        assert(ranked@[t].0 == ranked_old[t].0);
                        assert(score_le(sc, ranked_old[t].0));
                    } else if t == p {
                        assert(ranked@[t + 1].0 == ranked_old[t].0);
                        assert(score_le(ranked_old[t].0, sc));
                    } else {
                        assert(ranked@[t].0 == ranked_old[t - 1].0);
                        assert(ranked@[t + 1].0 == ranked_old[t].0);
                    }
                }
            }
            j += 1;
        }
        // take the first min(k, n) ranked entries, materializing the records
        let kk: usize = if k <= n {
            k
        } else {
            n
        };
        let mut r: Vec<(Score, SearchableRecord)> = Vec::new();
        let mut i: usize = 0;
        while i < kk
            invariant
                i <= kk,
                kk <= n,
                n == sv.len(),
                sv == self@,
                qv == q@,
                self.wf(),
                ranked@.len() == n,
                forall|p: int|
                    0 <= p < n ==> 0 <= (#[trigger] ranked@[p]).1 < n && ranked@[p].0
                        == spec_score_of(sv[ranked@[p].1 as int].embedding@, qv) && score_wf(
                        ranked@[p].0,
                    ),
                forall|p: int, t: int| 0 <= p < t < n ==> ranked@[p].1 != ranked@[t].1,
                forall|v: int| 0 <= v < n ==> #[trigger] ranked_contains(ranked@, v),
                forall|p: int|
                    0 <= p < n - 1 ==> score_ge(#[trigger] ranked@[p].0, ranked@[p + 1].0),
                forall|p: int|
                    0 <= p < n - 1 && score_le(#[trigger] ranked@[p].0, ranked@[p + 1].0)
                        ==> ranked@[p].1 < ranked@[p + 1].1,
                r@.len() == i,
                forall|t: int|
                    0 <= t < i ==> (#[trigger] r@[t]).0 == ranked@[t].0 && r@[t].1@ == sv[
                        ranked@[t].1 as int]@,
            decreases kk - i,
        {
            let (sc, jx) = (ranked[i].0, ranked[i].1);
            let rec = self.records[jx].clone();
            r.push((sc, rec));
            i += 1;
        }
        proof {
            crate::embedding::lemma_dot_bound(qv, qv);
            assert(qv.len() * (COORD_BOUND as int) * (COORD_BOUND as int) <= SCORE_BOUND as int)
                by (nonlinear_arith)
                requires
                    0 <= qv.len() <= DIM_BOUND as int,
            ;
            let order = Seq::new(sv.len(), |p: int| ranked@[p].1 as int);
            assert forall|v: int| 0 <= v < sv.len() implies #[trigger] order.contains(v) by {
                assert(ranked_contains(ranked@, v));
                let t = choose|t: int|
                    0 <= t < ranked@.len() && (#[trigger] ranked@[t]).1 == v;
                assert(order[t] == v);
            }
            assert(is_ranking(sv, qv, order));
            let rv = scored_views(r@);
            assert(rv.len() == if k as int <= sv.len() {
                k as int
            } else {
                sv.len() as int
            });
            assert forall|t: int| 0 <= t < rv.len() implies #[trigger] rv[t].1 == sv[order[t]]@
                && rv[t].0 == spec_score_of(sv[order[t]].embedding@, qv) by {
                assert(rv[t] == (r@[t].0, r@[t].1@));
            }
            assert(is_top_k(sv, qv, k as int, rv));
            assert forall|t: int| 0 <= t < r@.len() implies score_wf(#[trigger] r@[t].0) && r@[
                t].0.query_norm2 == norm2(qv) by {
                assert(r@[t].0 == ranked@[t].0);
                assert(ranked@[t].0 == spec_score_of(sv[ranked@[t].1 as int].embedding@, qv));
            }
        }
        r
    }
}

} // verus!
