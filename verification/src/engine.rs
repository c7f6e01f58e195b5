//! The discovery engine: the registries of agent, task and tool
//! definitions, the derived skill index, and the vector index, behind one
//! coherent API.
//!
//! The engine invariant ties the derived structures to the authoritative
//! agent registry: the skill index holds (key, id) exactly when the agent
//! `id` is registered with a skill whose normalized name is `key`, and
//! every record of the vector index belongs to a registered agent. A
//! register call writes the registry, re-derives the skill index (first
//! deindexing the previous skill set of a re-registered ID), and then — and
//! only then — attempts the embedding step; an unavailable or mismatched
//! embedding degrades that agent to exact-match discovery and never aborts
//! registration. Deregistering an unknown ID is a no-op, not an error.

use vstd::prelude::*;
use vstd::string::StringExecFns;

use crate::embedding::{
    generate_embedding, norm2, score_ge, score_wf, Embedding, Score, DIM_BOUND,
};
use crate::models::{AgentDefinition, AgentDefView, DiscoveryError, TaskDefinition, ToolDefinition};
use crate::normalize::norm_of;
use crate::registry::{
    key_idx, key_in, keys_distinct, lemma_key_idx_unique, lemma_put_frame, lemma_remove_frame,
    val_of, Registry,
};
use crate::skill_index::{has_skill_key, index_wf, skill_contains, SkillIndex};
use crate::vector_index::{
    is_top_k, lemma_rec_idx_unique, rec_idx, rec_in, scored_views, vindex_wf, RecordView,
    SearchableRecord, VectorIndex,
};

verus! {

/// The mathematical content of the engine: the four stores and the
/// embedding dimension.
pub struct EngineView {
    pub agents: Seq<(Seq<char>, AgentDefinition)>,
    pub tasks: Seq<(Seq<char>, TaskDefinition)>,
    pub tools: Seq<(Seq<char>, ToolDefinition)>,
    pub skills: Seq<(Seq<char>, Seq<Seq<char>>)>,
    pub vectors: Seq<SearchableRecord>,
    pub dim: int,
}

/// The record the vector index gains when `def` is embedded as `emb`.
pub open spec fn record_view_for(def: AgentDefinition, emb: Seq<i64>) -> RecordView {
    RecordView { id: def.id, name: def.name, description: def.description, embedding: emb }
}

/// `new_v` is `old_v` with the record `rv` inserted, or replaced in place
/// when its ID was already present.
pub open spec fn vectors_upserted(
    old_v: Seq<SearchableRecord>,
    new_v: Seq<SearchableRecord>,
    rv: RecordView,
) -> bool {
    if rec_in(old_v, rv.id@) {
        &&& new_v.len() == old_v.len()
        &&& forall|j: int|
            0 <= j < new_v.len() && j != rec_idx(old_v, rv.id@) ==> #[trigger] new_v[j] == old_v[j]
        &&& new_v[rec_idx(old_v, rv.id@)]@ == rv
    } else {
        &&& new_v.len() == old_v.len() + 1
        &&& forall|j: int| 0 <= j < old_v.len() ==> #[trigger] new_v[j] == old_v[j]
        &&& new_v[old_v.len() as int]@ == rv
    }
}

/// The engine invariant.
pub open spec fn inv(v: EngineView) -> bool {
    &&& keys_distinct(v.agents)
    &&& keys_distinct(v.tasks)
    &&& keys_distinct(v.tools)
    &&& index_wf(v.skills)
    &&& vindex_wf(v.vectors, v.dim)
    // the registry is keyed by the definitions' own IDs
    &&& forall|i: int| 0 <= i < v.agents.len() ==> (#[trigger] v.agents[i]).1.id@ == v.agents[i].0
    // skill index <-> registry consistency
    &&& forall|k: Seq<char>, id: Seq<char>|
        #[trigger] skill_contains(v.skills, k, id) <==> (key_in(v.agents, id) && has_skill_key(
            val_of(v.agents, id).skills@,
            k,
        ))
    // every vector record belongs to a registered agent
    &&& forall|j: int| 0 <= j < v.vectors.len() ==> key_in(v.agents, (#[trigger] v.vectors[j]).id@)
}

/// The discovery engine.
pub struct DiscoveryEngine {
    agents: Registry<AgentDefinition>,
    tasks: Registry<TaskDefinition>,
    tools: Registry<ToolDefinition>,
    skills: SkillIndex,
    vectors: VectorIndex,
}

impl View for DiscoveryEngine {
    type V = EngineView;

    closed spec fn view(&self) -> EngineView {
        EngineView {
            agents: self.agents@,
            tasks: self.tasks@,
            tools: self.tools@,
            skills: self.skills@,
            vectors: self.vectors@,
            dim: self.vectors.spec_dim(),
        }
    }
}

impl DiscoveryEngine {
    /// An empty engine whose vector index takes embeddings of dimension
    /// `dim`.
    pub fn new(dim: usize) -> (r: Self)
        requires
            1 <= dim <= DIM_BOUND,
        ensures
            inv(r@),
            r@.agents.len() == 0,
            r@.tasks.len() == 0,
            r@.tools.len() == 0,
            r@.skills.len() == 0,
            r@.vectors.len() == 0,
            r@.dim == dim,
    {
        DiscoveryEngine {
            agents: Registry::new(),
            tasks: Registry::new(),
            tools: Registry::new(),
            skills: SkillIndex::new(),
            vectors: VectorIndex::new(dim),
        }
    }

    /// Registers (or re-registers) an agent, with the embedding that the
    /// embedder produced for its description — or `None` when the embedder
    /// failed or timed out.
    ///
    /// An empty ID is rejected before any mutation. Otherwise the
    /// definition replaces any previous one with the same ID, whose skills
    /// are deindexed first; the new skills are indexed; and the vector
    /// index is updated only when an embedding of the right dimension is at
    /// hand — a missing or mismatched embedding leaves the vector index
    /// unchanged (the agent stays exact-match discoverable) and still
    /// returns success.
    pub fn register_agent_with_embedding(
        &mut self,
        def: AgentDefinition,
        emb: Option<Embedding>,
    ) -> (r: Result<(), DiscoveryError>)
        requires
            inv(old(self)@),
            emb matches Some(e) ==> e.wf(),
        ensures
            inv(final(self)@),
            final(self)@.tasks == old(self)@.tasks,
            final(self)@.tools == old(self)@.tools,
            final(self)@.dim == old(self)@.dim,
            def.id@.len() == 0 ==> r == Err::<(), DiscoveryError>(DiscoveryError::InvalidInput)
                && final(self)@ == old(self)@,
            def.id@.len() > 0 ==> {
                &&& r == Ok::<(), DiscoveryError>(())
                // the registry now holds exactly this definition under its ID
                &&& key_in(final(self)@.agents, def.id@)
                &&& val_of(final(self)@.agents, def.id@)@ == def@
                &&& forall|k: Seq<char>|
                    k != def.id@ ==> (#[trigger] key_in(final(self)@.agents, k) <==> key_in(
                        old(self)@.agents,
                        k,
                    ))
                &&& forall|k: Seq<char>|
                    k != def.id@ && key_in(old(self)@.agents, k) ==> #[trigger] val_of(
                        final(self)@.agents,
                        k,
                    ) == val_of(old(self)@.agents, k)
                // the skill index holds this ID under exactly the new keys
                &&& forall|k: Seq<char>, i: Seq<char>|
                    #[trigger] skill_contains(final(self)@.skills, k, i) <==> (if i == def.id@ {
                        has_skill_key(def.skills@, k)
                    } else {
                        skill_contains(old(self)@.skills, k, i)
                    })
                // the vector index gains the record only for a fitting embedding
                &&& match emb {
                    None => final(self)@.vectors == old(self)@.vectors,
                    Some(e) => if e@.len() != old(self)@.dim {
                        final(self)@.vectors == old(self)@.vectors
                    } else {
                        vectors_upserted(
                            old(self)@.vectors,
                            final(self)@.vectors,
                            record_view_for(def, e@),
                        )
                    },
                }
            },
    {
        if def.id.as_str().is_empty() {
            return Err(DiscoveryError::InvalidInput);
        }
        let ghost old_agents = self.agents@;
        let ghost old_skills = self.skills@;
        let stored = def.clone();
        let ghost storedg = stored;
        let prev = self.agents.put(def.id.clone(), stored);
        proof {
            lemma_put_frame(old_agents, self.agents@, def.id@, storedg);
            assert forall|i: int| 0 <= i < self.agents@.len() implies (#[trigger] self.agents@[
            i]).1.id@ == self.agents@[i].0 by {
                if key_in(old_agents, def.id@) {
                    if i != key_idx(old_agents, def.id@) {
                        assert(self.agents@[i] == old_agents[i]);
                    }
                } else {
                    if i < old_agents.len() {
                        assert(self.agents@[i] == old_agents[i]);
                    }
                }
            }
        }
        match prev {
            Some(p) => {
                proof {
                    assert(p == val_of(old_agents, def.id@));
                }
                self.skills.deindex(&def.id, &p.skills);
                proof {
                    assert forall|k: Seq<char>|
                        !#[trigger] skill_contains(self.skills@, k, def.id@) by {
                        if skill_contains(old_skills, k, def.id@) {
                            assert(has_skill_key(val_of(old_agents, def.id@).skills@, k));
                        }
                    }
                }
            },
            None => {
                proof {
                    assert forall|k: Seq<char>|
                        !#[trigger] skill_contains(self.skills@, k, def.id@) by {
                        if skill_contains(old_skills, k, def.id@) {
                            assert(key_in(old_agents, def.id@));
                        }
                    }
                }
            },
        }
        let ghost mid_skills = self.skills@;
        self.skills.index(&def.id, &def.skills);
        proof {
            assert forall|k: Seq<char>, i: Seq<char>|
                #[trigger] skill_contains(self.skills@, k, i) <==> (if i == def.id@ {
                    has_skill_key(def.skills@, k)
                } else {
                    skill_contains(old_skills, k, i)
                }) by {
                if i == def.id@ {
                    assert(!skill_contains(mid_skills, k, i));
                } else {
                    assert(skill_contains(mid_skills, k, i) <==> skill_contains(old_skills, k, i));
                }
            }
        }
        let ghost mid_view = self@;
        match emb {
            None => {},
            Some(e) => {
                if e.len() == self.vectors.dim() {
                    let rec = SearchableRecord {
                        id: def.id.clone(),
                        name: def.name.clone(),
                        description: def.description.clone(),
                        embedding: e,
                    };
                    let ghost recg = rec;
                    let _ = self.vectors.upsert(rec);
                    proof {
                        assert(recg@ == record_view_for(def, recg.embedding@));
                        if rec_in(mid_view.vectors, def.id@) {
                            assert(vectors_upserted(
                                mid_view.vectors,
                                self.vectors@,
                                record_view_for(def, recg.embedding@),
                            ));
                        } else {
                            assert(vectors_upserted(
                                mid_view.vectors,
                                self.vectors@,
                                record_view_for(def, recg.embedding@),
                            ));
                        }
                    }
                }
            },
        }
        proof {
            // consistency of the final state
            assert forall|k: Seq<char>, i: Seq<char>|
                #[trigger] skill_contains(self.skills@, k, i) <==> (key_in(self.agents@, i)
                    && has_skill_key(val_of(self.agents@, i).skills@, k)) by {
                if i == def.id@ {
                    assert(val_of(self.agents@, i) == storedg);
                    assert(storedg@.skills == def@.skills);
                } else {
                    if skill_contains(self.skills@, k, i) {
                        assert(skill_contains(old_skills, k, i));
                        assert(key_in(old_agents, i));
                        assert(val_of(self.agents@, i) == val_of(old_agents, i));
                    }
                    if key_in(self.agents@, i) && has_skill_key(val_of(self.agents@, i).skills@, k) {
                        assert(key_in(old_agents, i));
                        assert(val_of(self.agents@, i) == val_of(old_agents, i));
                        assert(skill_contains(old_skills, k, i));
                    }
                }
            }
            assert forall|j: int| 0 <= j < self.vectors@.len() implies key_in(
                self.agents@,
                (#[trigger] self.vectors@[j]).id@,
            ) by {
                if j < mid_view.vectors.len() && self.vectors@[j] == mid_view.vectors[j] {
                    assert(key_in(old_agents, mid_view.vectors[j].id@));
                    if mid_view.vectors[j].id@ == def.id@ {
                    } else {
                        assert(key_in(self.agents@, mid_view.vectors[j].id@));
                    }
                } else {
                    assert(self.vectors@[j]@.id@ == def.id@);
                }
            }
        }
        Ok(())
    }

    /// Registers an agent using the built-in deterministic embedder on its
    /// description.
    pub fn register_agent(&mut self, def: AgentDefinition) -> (r: Result<(), DiscoveryError>)
        requires
            inv(old(self)@),
        ensures
            inv(final(self)@),
            final(self)@.tasks == old(self)@.tasks,
            final(self)@.tools == old(self)@.tools,
            final(self)@.dim == old(self)@.dim,
            def.id@.len() == 0 ==> r == Err::<(), DiscoveryError>(DiscoveryError::InvalidInput)
                && final(self)@ == old(self)@,
            def.id@.len() > 0 ==> {
                &&& r == Ok::<(), DiscoveryError>(())
                &&& key_in(final(self)@.agents, def.id@)
                &&& val_of(final(self)@.agents, def.id@)@ == def@
                &&& forall|k: Seq<char>|
                    k != def.id@ ==> (#[trigger] key_in(final(self)@.agents, k) <==> key_in(
                        old(self)@.agents,
                        k,
                    ))
                &&& forall|k: Seq<char>|
                    k != def.id@ && key_in(old(self)@.agents, k) ==> #[trigger] val_of(
                        final(self)@.agents,
                        k,
                    ) == val_of(old(self)@.agents, k)
                &&& forall|k: Seq<char>, i: Seq<char>|
                    #[trigger] skill_contains(final(self)@.skills, k, i) <==> (if i == def.id@ {
                        has_skill_key(def.skills@, k)
                    } else {
                        skill_contains(old(self)@.skills, k, i)
                    })
                &&& vectors_upserted(
                    old(self)@.vectors,
                    final(self)@.vectors,
                    record_view_for(
                        def,
                        crate::embedding::stub_embedding(def.description@, old(self)@.dim),
                    ),
                )
            },
    {
        let e = generate_embedding(def.description.as_str(), self.vectors.dim());
        let ghost ev = e@;
        let r = self.register_agent_with_embedding(def, Some(e));
        proof {
            assert(ev == crate::embedding::stub_embedding(def.description@, old(self)@.dim));
        }
        r
    }

    /// Deregisters an agent by ID: removes it from the registry, the skill
    /// index and the vector index. A no-op — still a success — when the ID
    /// is not registered; deregistering twice is therefore harmless.
    pub fn deregister_agent(&mut self, id: &String) -> (r: Result<(), DiscoveryError>)
        requires
            inv(old(self)@),
        ensures
            inv(final(self)@),
            r == Ok::<(), DiscoveryError>(()),
            final(self)@.tasks == old(self)@.tasks,
            final(self)@.tools == old(self)@.tools,
            final(self)@.dim == old(self)@.dim,
            !key_in(final(self)@.agents, id@),
            !key_in(old(self)@.agents, id@) ==> final(self)@ == old(self)@,
            key_in(old(self)@.agents, id@) ==> {
                &&& final(self)@.agents == old(self)@.agents.remove(
                    key_idx(old(self)@.agents, id@),
                )
                &&& forall|k: Seq<char>, i: Seq<char>|
                    #[trigger] skill_contains(final(self)@.skills, k, i) <==> (skill_contains(
                        old(self)@.skills,
                        k,
                        i,
                    ) && i != id@)
                &&& if rec_in(old(self)@.vectors, id@) {
                    final(self)@.vectors == old(self)@.vectors.remove(
                        rec_idx(old(self)@.vectors, id@),
                    )
                } else {
                    final(self)@.vectors == old(self)@.vectors
                }
            },
    {
        let ghost old_agents = self.agents@;
        let ghost old_skills = self.skills@;
        let ghost old_vectors = self.vectors@;
        match self.agents.remove(id) {
            None => Ok(()),
            Some(def) => {
                proof {
                    lemma_remove_frame(old_agents, self.agents@, id@);
                    assert(def == val_of(old_agents, id@));
                    assert(def.id@ == id@);
                }
                self.skills.deindex(id, &def.skills);
                proof {
                    assert forall|k: Seq<char>, i: Seq<char>|
                        #[trigger] skill_contains(self.skills@, k, i) <==> (skill_contains(
                            old_skills,
                            k,
                            i,
                        ) && i != id@) by {
                        if i == id@ && skill_contains(old_skills, k, i) {
                            assert(has_skill_key(val_of(old_agents, id@).skills@, k));
                        }
                    }
                }
                self.vectors.remove(id);
                proof {
                    // the registry is keyed as before, minus the ID
                    assert forall|i: int| 0 <= i < self.agents@.len() implies (
                    #[trigger] self.agents@[i]).1.id@ == self.agents@[i].0 by {
                        let ci = key_idx(old_agents, id@);
                        let i0 = if i < ci { i } else { i + 1 };
                        assert(self.agents@[i] == old_agents[i0]);
                    }
                    // consistency
                    assert forall|k: Seq<char>, i: Seq<char>|
                        #[trigger] skill_contains(self.skills@, k, i) <==> (key_in(
                            self.agents@,
                            i,
                        ) && has_skill_key(val_of(self.agents@, i).skills@, k)) by {
                        if i != id@ {
                            if skill_contains(self.skills@, k, i) {
                                assert(skill_contains(old_skills, k, i));
                                assert(key_in(old_agents, i));
                                assert(val_of(self.agents@, i) == val_of(old_agents, i));
                            }
                            if key_in(self.agents@, i) && has_skill_key(
                                val_of(self.agents@, i).skills@,
                                k,
                            ) {
                                assert(key_in(old_agents, i));
                                assert(val_of(self.agents@, i) == val_of(old_agents, i));
                                assert(skill_contains(old_skills, k, i));
                            }
                        }
                    }
                    // vector records still belong to registered agents
                    if rec_in(old_vectors, id@) {
                        let ci = rec_idx(old_vectors, id@);
                        assert forall|j: int| 0 <= j < self.vectors@.len() implies key_in(
                            self.agents@,
                            (#[trigger] self.vectors@[j]).id@,
                        ) by {
                            let j0 = if j < ci { j } else { j + 1 };
                            assert(self.vectors@[j] == old_vectors[j0]);
                            assert(key_in(old_agents, old_vectors[j0].id@));
                            lemma_rec_idx_unique(old_vectors, j0);
                            if old_vectors[j0].id@ == id@ {
                                assert(rec_idx(old_vectors, id@) == j0);
                            }
                            assert(old_vectors[j0].id@ != id@);
                        }
                    } else {
                        assert forall|j: int| 0 <= j < self.vectors@.len() implies key_in(
                            self.agents@,
                            (#[trigger] self.vectors@[j]).id@,
                        ) by {
                            assert(self.vectors@[j] == old_vectors[j]);
                            assert(key_in(old_agents, old_vectors[j].id@));
                            assert(old_vectors[j].id@ != id@);
                        }
                    }
                }
                Ok(())
            },
        }
    }

    /// All registered agent definitions, in insertion order.
    pub fn list_agents(&self) -> (r: Vec<AgentDefinition>)
        ensures
            r@.len() == self@.agents.len(),
            forall|i: int| 0 <= i < r@.len() ==> (#[trigger] r@[i])@ == self@.agents[i].1@,
    {
        let mut r: Vec<AgentDefinition> = Vec::new();
        let mut i: usize = 0;
        let n = self.agents.len();
        while i < n
            invariant
                i <= n,
                n == self@.agents.len(),
                r@.len() == i,
                forall|j: int| 0 <= j < i ==> (#[trigger] r@[j])@ == self@.agents[j].1@,
            decreases n - i,
        {
            r.push(self.agents.value_at(i).clone());
            i += 1;
        }
        r
    }

    /// All registered task definitions, in insertion order.
    pub fn list_tasks(&self) -> (r: Vec<TaskDefinition>)
        ensures
            r@.len() == self@.tasks.len(),
            forall|i: int| 0 <= i < r@.len() ==> #[trigger] r@[i] == self@.tasks[i].1,
    {
        let mut r: Vec<TaskDefinition> = Vec::new();
        let mut i: usize = 0;
        let n = self.tasks.len();
        while i < n
            invariant
                i <= n,
                n == self@.tasks.len(),
                r@.len() == i,
                forall|j: int| 0 <= j < i ==> #[trigger] r@[j] == self@.tasks[j].1,
            decreases n - i,
        {
            r.push(self.tasks.value_at(i).clone());
            i += 1;
        }
        r
    }

    /// All registered tool definitions, in insertion order.
    pub fn list_tools(&self) -> (r: Vec<ToolDefinition>)
        ensures
            r@.len() == self@.tools.len(),
            forall|i: int| 0 <= i < r@.len() ==> #[trigger] r@[i] == self@.tools[i].1,
    {
        let mut r: Vec<ToolDefinition> = Vec::new();
        let mut i: usize = 0;
        let n = self.tools.len();
        while i < n
            invariant
                i <= n,
                n == self@.tools.len(),
                r@.len() == i,
                forall|j: int| 0 <= j < i ==> #[trigger] r@[j] == self@.tools[j].1,
            decreases n - i,
        {
            r.push(self.tools.value_at(i).clone());
            i += 1;
        }
        r
    }

    /// Registers a task definition: inserts or replaces by ID, rejecting an
    /// empty ID before any mutation.
    pub fn register_task(&mut self, def: TaskDefinition) -> (r: Result<(), DiscoveryError>)
        requires
            inv(old(self)@),
        ensures
            inv(final(self)@),
            final(self)@.agents == old(self)@.agents,
            final(self)@.skills == old(self)@.skills,
            final(self)@.tools == old(self)@.tools,
            final(self)@.vectors == old(self)@.vectors,
            final(self)@.dim == old(self)@.dim,
            def.id@.len() == 0 ==> r == Err::<(), DiscoveryError>(DiscoveryError::InvalidInput)
                && final(self)@ == old(self)@,
            def.id@.len() > 0 ==> {
                &&& r == Ok::<(), DiscoveryError>(())
                &&& if key_in(old(self)@.tasks, def.id@) {
                    final(self)@.tasks == old(self)@.tasks.update(
                        key_idx(old(self)@.tasks, def.id@),
                        (def.id@, def),
                    )
                } else {
                    final(self)@.tasks == old(self)@.tasks.push((def.id@, def))
                }
            },
    {
        if def.id.as_str().is_empty() {
            return Err(DiscoveryError::InvalidInput);
        }
        let id = def.id.clone();
        let _ = self.tasks.put(id, def);
        Ok(())
    }

    /// Registers a tool definition: inserts or replaces by ID, rejecting an
    /// empty ID before any mutation.
    pub fn register_tool(&mut self, def: ToolDefinition) -> (r: Result<(), DiscoveryError>)
        requires
            inv(old(self)@),
        ensures
            inv(final(self)@),
            final(self)@.agents == old(self)@.agents,
            final(self)@.skills == old(self)@.skills,
            final(self)@.tasks == old(self)@.tasks,
            final(self)@.vectors == old(self)@.vectors,
            final(self)@.dim == old(self)@.dim,
            def.id@.len() == 0 ==> r == Err::<(), DiscoveryError>(DiscoveryError::InvalidInput)
                && final(self)@ == old(self)@,
            def.id@.len() > 0 ==> {
                &&& r == Ok::<(), DiscoveryError>(())
                &&& if key_in(old(self)@.tools, def.id@) {
                    final(self)@.tools == old(self)@.tools.update(
                        key_idx(old(self)@.tools, def.id@),
                        (def.id@, def),
                    )
                } else {
                    final(self)@.tools == old(self)@.tools.push((def.id@, def))
                }
            },
    {
        if def.id.as_str().is_empty() {
            return Err(DiscoveryError::InvalidInput);
        }
        let id = def.id.clone();
        let _ = self.tools.put(id, def);
        Ok(())
    }

    /// The agents holding the given skill, matched case-insensitively: the
    /// IDs under the normalized key, each re-validated against the registry
    /// (an ID without a definition is silently dropped). An unknown skill
    /// gives an empty list — never an error.
    pub fn search_by_skill(&self, name: &str) -> (r: Vec<AgentDefinition>)
        requires
            inv(self@),
        ensures
            r@.map_values(|d: AgentDefinition| d@) == spec_search_by_skill(self@, name@),
            !key_in(self@.skills, norm_of(name@)) ==> r@.len() == 0,
    {
        let ghost av = self@.agents;
        let ids = self.skills.lookup(name);
        let ghost idsv = crate::skill_index::ids_view(ids@);
        proof {
            assert(idsv == lookup_ids(self@.skills, norm_of(name@)));
        }
        let mut r: Vec<AgentDefinition> = Vec::new();
        let mut i: usize = 0;
        while i < ids.len()
            invariant
                i <= ids@.len(),
                idsv.len() == ids@.len(),
                forall|j: int| 0 <= j < ids@.len() ==> idsv[j] == (#[trigger] ids@[j])@,
                av == self@.agents,
                inv(self@),
                r@.map_values(|d: AgentDefinition| d@) == resolve_ids(av, idsv.take(i as int)),
            decreases ids@.len() - i,
        {
            let ghost r_old = r@.map_values(|d: AgentDefinition| d@);
            match self.agents.get(&ids[i]) {
                Some(d) => {
                    let c = d.clone();
                    let ghost cv = c@;
                    r.push(c);
                    proof {
                        assert(r@.map_values(|d: AgentDefinition| d@) =~= r_old.push(cv));
                    }
                },
                None => {},
            }
            proof {
                let t = idsv.take(i + 1);
                assert(t.drop_last() =~= idsv.take(i as int));
                assert(t.last() == idsv[i as int]);
                if key_in(av, idsv[i as int]) {
                    assert(resolve_ids(av, t) == resolve_ids(av, idsv.take(i as int)) + seq![
                        val_of(av, idsv[i as int])@,
                    ]);
                    assert(r@.map_values(|d: AgentDefinition| d@) =~= resolve_ids(av, t));
                } else {
                    assert(resolve_ids(av, t) =~= resolve_ids(av, idsv.take(i as int)));
                }
            }
            i += 1;
        }
        proof {
            assert(idsv.take(idsv.len() as int) =~= idsv);
        }
        r
    }

    /// The `min(k, population)` registered agents most similar to the given
    /// query embedding, by non-increasing score, each re-validated against
    /// the registry. `None` means the embedder failed: the error is
    /// `EmbeddingUnavailable`; an embedding of the wrong dimension gives
    /// `DimensionMismatch`.
    pub fn search_by_similarity_with_embedding(&self, emb: Option<Embedding>, k: usize) -> (r:
        Result<Vec<(Score, AgentDefinition)>, DiscoveryError>)
        requires
            inv(self@),
            emb matches Some(e) ==> e.wf(),
        ensures
            emb is None ==> r == Err::<Vec<(Score, AgentDefinition)>, DiscoveryError>(
                DiscoveryError::EmbeddingUnavailable,
            ),
            emb matches Some(e) && e@.len() != self@.dim ==> r == Err::<
                Vec<(Score, AgentDefinition)>,
                DiscoveryError,
            >(DiscoveryError::DimensionMismatch),
            emb matches Some(e) ==> (e@.len() == self@.dim ==> (r matches Ok(out)
                && similarity_results_ok(self@, e@, k as int, out@))),
    {
        let e = match emb {
            None => {
                return Err(DiscoveryError::EmbeddingUnavailable);
            },
            Some(e) => e,
        };
        if e.len() != self.vectors.dim() {
            return Err(DiscoveryError::DimensionMismatch);
        }
        let tk = self.vectors.top_k(&e, k);
        let ghost tkv = scored_views(tk@);
        let ghost ord = choose|order: Seq<int>|
            {
                &&& #[trigger] crate::vector_index::is_ranking(self@.vectors, e@, order)
                &&& tkv.len() == if k as int <= self@.vectors.len() {
                    k as int
                } else {
                    self@.vectors.len() as int
                }
                &&& forall|i: int|
                    0 <= i < tkv.len() ==> #[trigger] tkv[i].1 == self@.vectors[order[i]]@ && tkv[
                    i].0 == crate::embedding::spec_score_of(
                        self@.vectors[order[i]].embedding@,
                        e@,
                    )
            };
        proof {
            assert(is_top_k(self@.vectors, e@, k as int, tkv));
            assert forall|t: int| 0 <= t < tkv.len() implies #[trigger] from_population(
                self@.vectors,
                tkv[t],
            ) by {
                assert(tkv[t].1 == self@.vectors[ord[t]]@);
                assert(0 <= ord[t] < self@.vectors.len());
            }
        }
        let mut out: Vec<(Score, AgentDefinition)> = Vec::new();
        let mut i: usize = 0;
        while i < tk.len()
            invariant
                i <= tk@.len(),
                inv(self@),
                tkv == scored_views(tk@),
                tkv.len() == tk@.len(),
                forall|t: int|
                    0 <= t < tkv.len() ==> #[trigger] from_population(self@.vectors, tkv[t]),
                forall|t: int|
                    0 <= t < tk@.len() - 1 ==> score_ge((#[trigger] tk@[t]).0, tk@[t + 1].0),
                forall|t: int|
                    0 <= t < tk@.len() ==> score_wf((#[trigger] tk@[t]).0) && tk@[t].0.query_norm2
                        == norm2(e@),
                out@.len() == i,
                forall|t: int|
                    0 <= t < i ==> (#[trigger] out@[t]).0 == tk@[t].0 && key_in(
                        self@.agents,
                        out@[t].1.id@,
                    ) && out@[t].1@ == val_of(self@.agents, tk@[t].1.id@)@ && out@[t].1.id@ == tk@[
                    t].1.id@,
            decreases tk@.len() - i,
        {
            let sc = tk[i].0;
            match self.agents.get(&tk[i].1.id) {
                Some(d) => {
                    let c = d.clone();
                    out.push((sc, c));
                },
                None => {
                    proof {
                        assert(from_population(self@.vectors, tkv[i as int]));
                        let j = choose|j: int|
                            0 <= j < self@.vectors.len() && tkv[i as int].1 == self@.vectors[j]@;
                        assert(key_in(self@.agents, self@.vectors[j].id@));
                        assert(tk@[i as int].1.id@ == self@.vectors[j].id@);
                        assert(false);
                    }
                },
            }
            i += 1;
        }
        proof {
            assert(similarity_results_ok(self@, e@, k as int, out@)) by {
                assert(is_top_k(self@.vectors, e@, k as int, tkv));
                assert forall|t: int| 0 <= t < out@.len() - 1 implies score_ge(
                    (#[trigger] out@[t]).0,
                    out@[t + 1].0,
                ) by {
                    assert(out@[t].0 == tk@[t].0);
                    assert(out@[t + 1].0 == tk@[t + 1].0);
                }
            }
        }
        Ok(out)
    }

    /// The `min(k, population)` registered agents most similar to the query
    /// text, using the built-in deterministic embedder.
    pub fn search_by_similarity(&self, query: &str, k: usize) -> (r: Vec<(Score, AgentDefinition)>)
        requires
            inv(self@),
        ensures
            similarity_results_ok(
                self@,
                crate::embedding::stub_embedding(query@, self@.dim),
                k as int,
                r@,
            ),
    {
        let e = generate_embedding(query, self.vectors.dim());
        let ghost ev = e@;
        match self.search_by_similarity_with_embedding(Some(e), k) {
            Ok(out) => out,
            Err(_) => {
                proof {
                    assert(false);
                }
                Vec::new()
            },
        }
    }
}

/// The scored view names a record of the population.
pub open spec fn from_population(vecs: Seq<SearchableRecord>, rv: (Score, RecordView)) -> bool {
    exists|j: int| 0 <= j < vecs.len() && rv.1 == vecs[j]@
}

/// The IDs the skill index holds under a key; empty when the key is
/// unknown.
pub open spec fn lookup_ids(
    skills: Seq<(Seq<char>, Seq<Seq<char>>)>,
    key: Seq<char>,
) -> Seq<Seq<char>> {
    if key_in(skills, key) {
        val_of(skills, key)
    } else {
        Seq::empty()
    }
}

/// Resolves IDs through the agent registry, in order, silently dropping
/// any ID without a definition.
pub open spec fn resolve_ids(
    agents: Seq<(Seq<char>, AgentDefinition)>,
    ids: Seq<Seq<char>>,
) -> Seq<AgentDefView>
    decreases ids.len(),
{
    if ids.len() == 0 {
        Seq::empty()
    } else {
        resolve_ids(agents, ids.drop_last()) + if key_in(agents, ids.last()) {
            seq![val_of(agents, ids.last())@]
        } else {
            Seq::empty()
        }
    }
}

/// What a skill search returns: the definitions of the IDs indexed under
/// the normalized skill name, re-validated against the registry.
pub open spec fn spec_search_by_skill(v: EngineView, name: Seq<char>) -> Seq<AgentDefView> {
    resolve_ids(v.agents, lookup_ids(v.skills, norm_of(name)))
}

/// What a similarity search returns: scores and definitions positionally
/// matching a top-k of the vector index — at most `k` of them, sorted by
/// non-increasing score, every definition registered under the record's ID.
pub open spec fn similarity_results_ok(
    v: EngineView,
    q: Seq<i64>,
    k: int,
    out: Seq<(Score, AgentDefinition)>,
) -> bool {
    &&& out.len() == if k <= v.vectors.len() {
        k
    } else {
        v.vectors.len() as int
    }
    &&& forall|t: int| 0 <= t < out.len() - 1 ==> score_ge((#[trigger] out[t]).0, out[t + 1].0)
    &&& forall|t: int|
        0 <= t < out.len() ==> score_wf((#[trigger] out[t]).0) && out[t].0.query_norm2 == norm2(q)
    &&& forall|t: int|
        0 <= t < out.len() ==> key_in(v.agents, (#[trigger] out[t]).1.id@) && out[t].1@ == val_of(
            v.agents,
            out[t].1.id@,
        )@
    &&& exists|tk: Seq<(Score, RecordView)>|
        #[trigger] is_top_k(v.vectors, q, k, tk) && tk.len() == out.len() && forall|t: int|
            0 <= t < out.len() ==> (#[trigger] out[t]).0 == tk[t].0 && out[t].1.id@ == tk[t].1.id@
}

/// A resolved definition keeps its position's value: resolving preserves
/// membership of every ID that is registered.
proof fn lemma_resolve_contains(
    agents: Seq<(Seq<char>, AgentDefinition)>,
    ids: Seq<Seq<char>>,
    b: int,
)
    requires
        0 <= b < ids.len(),
        key_in(agents, ids[b]),
    ensures
        resolve_ids(agents, ids).contains(val_of(agents, ids[b])@),
    decreases ids.len(),
{
    let r = resolve_ids(agents, ids);
    if b == ids.len() - 1 {
        let front = resolve_ids(agents, ids.drop_last());
        assert(r == front + seq![val_of(agents, ids.last())@]);
        assert(r[front.len() as int] == val_of(agents, ids[b])@);
    } else {
        lemma_resolve_contains(agents, ids.drop_last(), b);
        let front = resolve_ids(agents, ids.drop_last());
        let t = choose|t: int| 0 <= t < front.len() && front[t] == val_of(agents, ids.drop_last()[b])@;
        assert(r[t] == val_of(agents, ids[b])@);
    }
}

/// No resolved definition carries the ID `id` when `id` is unregistered,
/// or when `id` is not among the resolved IDs.
proof fn lemma_resolve_excludes(
    agents: Seq<(Seq<char>, AgentDefinition)>,
    ids: Seq<Seq<char>>,
    id: Seq<char>,
)
    requires
        keys_distinct(agents),
        forall|i: int| 0 <= i < agents.len() ==> (#[trigger] agents[i]).1.id@ == agents[i].0,
        !key_in(agents, id) || forall|b: int| 0 <= b < ids.len() ==> ids[b] != id,
    ensures
        forall|t: int|
            0 <= t < resolve_ids(agents, ids).len() ==> (#[trigger] resolve_ids(agents, ids)[
            t]).id@ != id,
    decreases ids.len(),
{
    if ids.len() > 0 {
        lemma_resolve_excludes(agents, ids.drop_last(), id);
        let r = resolve_ids(agents, ids);
        let front = resolve_ids(agents, ids.drop_last());
        assert forall|t: int| 0 <= t < r.len() implies (#[trigger] r[t]).id@ != id by {
            if t < front.len() {
                assert(r[t] == front[t]);
            } else {
                assert(key_in(agents, ids.last()));
                assert(r[t] == val_of(agents, ids.last())@);
                let ci = key_idx(agents, ids.last());
                assert(agents[ci].1.id@ == agents[ci].0);
                assert(val_of(agents, ids.last()).id@ == ids.last());
                if ids.last() == id {
                    assert(key_in(agents, id));
                    assert(!(forall|b: int| 0 <= b < ids.len() ==> ids[b] != id)) by {
                        assert(ids[ids.len() - 1] == id);
                    }
                }
            }
        }
    }
}

/// Every registered agent is found under each of its skills: when the
/// agent `id` holds a skill whose normalized name equals the query's, the
/// skill search for that query includes its definition.
pub proof fn lemma_registered_agent_is_found(v: EngineView, id: Seq<char>, j: int, name: Seq<char>)
    requires
        inv(v),
        key_in(v.agents, id),
        0 <= j < val_of(v.agents, id).skills@.len(),
        norm_of(val_of(v.agents, id).skills@[j].name@) == norm_of(name),
    ensures
        spec_search_by_skill(v, name).contains(val_of(v.agents, id)@),
{
    let key = norm_of(name);
    let skills = val_of(v.agents, id).skills@;
    assert(has_skill_key(skills, key)) by {
        assert(norm_of(skills[j].name@) == key);
    }
    assert(skill_contains(v.skills, key, id));
    let (a, b): (int, int) = choose|a: int, b: int|
        0 <= a < v.skills.len() && 0 <= b < v.skills[a].1.len() && v.skills[a].0 == key
            && v.skills[a].1[b] == id;
    lemma_key_idx_unique(v.skills, a);
    let ids = lookup_ids(v.skills, key);
    assert(ids == v.skills[a].1);
    assert(ids[b] == id);
    lemma_resolve_contains(v.agents, ids, b);
}

/// After deregistering an agent, no skill search finds it: an unregistered
/// ID never appears in a search result.
pub proof fn lemma_unregistered_agent_not_found(v: EngineView, id: Seq<char>, name: Seq<char>)
    requires
        inv(v),
        !key_in(v.agents, id),
    ensures
        forall|t: int|
            0 <= t < spec_search_by_skill(v, name).len() ==> (#[trigger] spec_search_by_skill(
                v,
                name,
            )[t]).id@ != id,
{
    lemma_resolve_excludes(v.agents, lookup_ids(v.skills, norm_of(name)), id);
}

/// No stale associations: an agent whose current skill set does not carry
/// the query's normalized name — after a re-registration that dropped the
/// skill, say — is not found under it.
pub proof fn lemma_dropped_skill_not_found(v: EngineView, id: Seq<char>, name: Seq<char>)
    requires
        inv(v),
        key_in(v.agents, id),
        !has_skill_key(val_of(v.agents, id).skills@, norm_of(name)),
    ensures
        forall|t: int|
            0 <= t < spec_search_by_skill(v, name).len() ==> (#[trigger] spec_search_by_skill(
                v,
                name,
            )[t]).id@ != id,
{
    let key = norm_of(name);
    let ids = lookup_ids(v.skills, key);
    assert forall|b: int| 0 <= b < ids.len() implies ids[b] != id by {
        if key_in(v.skills, key) && ids[b] == id {
            let a = key_idx(v.skills, key);
            assert(0 <= a < v.skills.len() && v.skills[a].0 == key);
            assert(v.skills[a].1[b] == id);
            assert(skill_contains(v.skills, key, id));
            assert(has_skill_key(val_of(v.agents, id).skills@, key));
        }
    }
    lemma_resolve_excludes(v.agents, ids, id);
}

/// The summary line of a tool.
pub open spec fn tool_line(t: ToolDefinition) -> Seq<char> {
    "* tool_id : "@ + t.id@ + " -- description : "@ + t.description@ + " -- arguments : "@
        + t.input_schema@
}

/// The summary line of a task.
pub open spec fn task_line(t: TaskDefinition) -> Seq<char> {
    "* task_id :  "@ + t.id@ + " -- description : "@ + t.description@
}

/// The summary line of an agent.
pub open spec fn agent_line(a: AgentDefinition) -> Seq<char> {
    "* agent_id : "@ + a.id@ + " -- description :"@ + a.description@ + " -- "@
}

/// Lines joined by a newline between each pair.
pub open spec fn joined(lines: Seq<Seq<char>>) -> Seq<char>
    decreases lines.len(),
{
    if lines.len() == 0 {
        Seq::empty()
    } else if lines.len() == 1 {
        lines[0]
    } else {
        joined(lines.drop_last()) + "\n"@ + lines.last()
    }
}

/// A non-empty block of lines ends in a newline; an empty one is omitted.
pub open spec fn block(lines: Seq<Seq<char>>) -> Seq<char> {
    if lines.len() == 0 {
        Seq::empty()
    } else {
        joined(lines) + "\n"@
    }
}

/// The plain-text inventory of everything registered: the tools, the
/// tasks, then the agents, one summary line each.
pub open spec fn resources_text(v: EngineView) -> Seq<char> {
    block(v.tools.map_values(|p: (Seq<char>, ToolDefinition)| tool_line(p.1))) + block(
        v.tasks.map_values(|p: (Seq<char>, TaskDefinition)| task_line(p.1)),
    ) + block(v.agents.map_values(|p: (Seq<char>, AgentDefinition)| agent_line(p.1)))
}

impl DiscoveryEngine {
    /// Renders the plain-text inventory of all registered tools, tasks and
    /// agents.
    pub fn list_available_resources(&self) -> (r: String)
        ensures
            r@ == resources_text(self@),
    {
        let ghost tool_lines = self@.tools.map_values(
            |p: (Seq<char>, ToolDefinition)| tool_line(p.1),
        );
        let ghost task_lines = self@.tasks.map_values(
            |p: (Seq<char>, TaskDefinition)| task_line(p.1),
        );
        let ghost agent_lines = self@.agents.map_values(
            |p: (Seq<char>, AgentDefinition)| agent_line(p.1),
        );
        let mut s = String::new();

        let n_tools = self.tools.len();
        let mut i: usize = 0;
        while i < n_tools
            invariant
                i <= n_tools,
                n_tools == self@.tools.len(),
                tool_lines == self@.tools.map_values(
                    |p: (Seq<char>, ToolDefinition)| tool_line(p.1),
                ),
                i == 0 ==> s@ == Seq::<char>::empty(),
                i > 0 ==> s@ == joined(tool_lines.take(i as int)),
            decreases n_tools - i,
        {
            let ghost base = s@;
            if i > 0 {
                s.append("\n");
            }
            let ghost mid = s@;
            let t = self.tools.value_at(i);
            s.append("* tool_id : ");
            s.append(t.id.as_str());
            s.append(" -- description : ");
            s.append(t.description.as_str());
            s.append(" -- arguments : ");
            s.append(t.input_schema.as_str());
            proof {
                assert(s@ =~= mid + tool_line(self@.tools[i as int].1));
                let t1 = tool_lines.take(i + 1);
                assert(t1.drop_last() =~= tool_lines.take(i as int));
                assert(t1.last() == tool_lines[i as int]);
                if i == 0 {
                    assert(s@ =~= joined(t1));
                } else {
                    assert(s@ =~= joined(t1));
                }
            }
            i += 1;
        }
        if n_tools > 0 {
            s.append("\n");
        }
        proof {
            assert(tool_lines.take(tool_lines.len() as int) =~= tool_lines);
            assert(s@ =~= block(tool_lines));
        }
        let ghost done_tools = s@;

        let n_tasks = self.tasks.len();
        let mut i: usize = 0;
        while i < n_tasks
            invariant
                i <= n_tasks,
                n_tasks == self@.tasks.len(),
                task_lines == self@.tasks.map_values(
                    |p: (Seq<char>, TaskDefinition)| task_line(p.1),
                ),
                done_tools == block(tool_lines),
                i == 0 ==> s@ == done_tools,
                i > 0 ==> s@ == done_tools + joined(task_lines.take(i as int)),
            decreases n_tasks - i,
        {
            if i > 0 {
                s.append("\n");
            }
            let ghost mid = s@;
            let t = self.tasks.value_at(i);
            s.append("* task_id :  ");
            s.append(t.id.as_str());
            s.append(" -- description : ");
            s.append(t.description.as_str());
            proof {
                assert(s@ =~= mid + task_line(self@.tasks[i as int].1));
                let t1 = task_lines.take(i + 1);
                assert(t1.drop_last() =~= task_lines.take(i as int));
                assert(t1.last() == task_lines[i as int]);
                assert(s@ =~= done_tools + joined(t1));
            }
            i += 1;
        }
        if n_tasks > 0 {
            s.append("\n");
        }
        proof {
            assert(task_lines.take(task_lines.len() as int) =~= task_lines);
            assert(s@ =~= done_tools + block(task_lines));
        }
        let ghost done_tasks = s@;

        let n_agents = self.agents.len();
        let mut i: usize = 0;
        while i < n_agents
            invariant
                i <= n_agents,
                n_agents == self@.agents.len(),
                agent_lines == self@.agents.map_values(
                    |p: (Seq<char>, AgentDefinition)| agent_line(p.1),
                ),
                done_tasks == block(tool_lines) + block(task_lines),
                i == 0 ==> s@ == done_tasks,
                i > 0 ==> s@ == done_tasks + joined(agent_lines.take(i as int)),
            decreases n_agents - i,
        {
            if i > 0 {
                s.append("\n");
            }
            let ghost mid = s@;
            let a = self.agents.value_at(i);
            s.append("* agent_id : ");
            s.append(a.id.as_str());
            s.append(" -- description :");
            s.append(a.description.as_str());
            s.append(" -- ");
            proof {
                assert(s@ =~= mid + agent_line(self@.agents[i as int].1));
                let t1 = agent_lines.take(i + 1);
                assert(t1.drop_last() =~= agent_lines.take(i as int));
                assert(t1.last() == agent_lines[i as int]);
                assert(s@ =~= done_tasks + joined(t1));
            }
            i += 1;
        }
        if n_agents > 0 {
            s.append("\n");
        }
        proof {
            assert(agent_lines.take(agent_lines.len() as int) =~= agent_lines);
            assert(s@ =~= done_tasks + block(agent_lines));
            assert(s@ =~= resources_text(self@));
        }
        s
    }
}

/// The definition stands for one of the resolved IDs.
pub open spec fn resolved_from(
    agents: Seq<(Seq<char>, AgentDefinition)>,
    ids: Seq<Seq<char>>,
    x: AgentDefView,
) -> bool {
    exists|b: int| 0 <= b < ids.len() && key_in(agents, ids[b]) && x == val_of(agents, ids[b])@
}

/// Everything `resolve_ids` emits stands for one of the given IDs.
proof fn lemma_resolve_sound(agents: Seq<(Seq<char>, AgentDefinition)>, ids: Seq<Seq<char>>)
    ensures
        forall|t: int|
            0 <= t < resolve_ids(agents, ids).len() ==> #[trigger] resolved_from(
                agents,
                ids,
                resolve_ids(agents, ids)[t],
            ),
    decreases ids.len(),
{
    if ids.len() > 0 {
        lemma_resolve_sound(agents, ids.drop_last());
        let r = resolve_ids(agents, ids);
        let front = resolve_ids(agents, ids.drop_last());
        assert forall|t: int| 0 <= t < r.len() implies #[trigger] resolved_from(
            agents,
            ids,
            r[t],
        ) by {
            if t < front.len() {
                assert(r[t] == front[t]);
                assert(resolved_from(agents, ids.drop_last(), front[t]));
                let b = choose|b: int|
                    0 <= b < ids.drop_last().len() && key_in(agents, ids.drop_last()[b]) && front[t]
                        == val_of(agents, ids.drop_last()[b])@;
                assert(ids[b] == ids.drop_last()[b]);
                assert(key_in(agents, ids[b]) && r[t] == val_of(agents, ids[b])@);
            } else {
                assert(key_in(agents, ids.last()));
                assert(r[t] == val_of(agents, ids.last())@);
                assert(ids[ids.len() - 1] == ids.last());
                assert(key_in(agents, ids[ids.len() - 1]) && r[t] == val_of(
                    agents,
                    ids[ids.len() - 1],
                )@);
            }
        }
    }
}

/// The definition is the registry's record of some agent whose current
/// skill set carries the query's normalized name.
pub open spec fn found_is_holder(v: EngineView, name: Seq<char>, x: AgentDefView) -> bool {
    exists|id: Seq<char>|
        key_in(v.agents, id) && x == val_of(v.agents, id)@ && has_skill_key(
            val_of(v.agents, id).skills@,
            norm_of(name),
        )
}

/// Only registered holders of the skill are found: every definition a
/// skill search returns is the registry's definition of some agent whose
/// current skill set carries the query's normalized name.
pub proof fn lemma_search_result_sound(v: EngineView, name: Seq<char>)
    requires
        inv(v),
    ensures
        forall|t: int|
            0 <= t < spec_search_by_skill(v, name).len() ==> #[trigger] found_is_holder(
                v,
                name,
                spec_search_by_skill(v, name)[t],
            ),
{
    let key = norm_of(name);
    let ids = lookup_ids(v.skills, key);
    lemma_resolve_sound(v.agents, ids);
    assert forall|t: int| 0 <= t < spec_search_by_skill(v, name).len() implies
        #[trigger] found_is_holder(v, name, spec_search_by_skill(v, name)[t]) by {
        let r = spec_search_by_skill(v, name);
        assert(resolved_from(v.agents, ids, r[t]));
        let b = choose|b: int|
            0 <= b < ids.len() && key_in(v.agents, ids[b]) && r[t] == val_of(v.agents, ids[b])@;
        let id = ids[b];
        assert(key_in(v.skills, key)) by {
            if ids.len() > 0 && !key_in(v.skills, key) {
                assert(ids == Seq::<Seq<char>>::empty());
            }
        }
        let a = key_idx(v.skills, key);
        assert(0 <= a < v.skills.len() && v.skills[a].0 == key);
        assert(v.skills[a].1 == ids);
        assert(v.skills[a].1[b] == id);
        assert(skill_contains(v.skills, key, id));
        assert(has_skill_key(val_of(v.agents, id).skills@, key));
        assert(key_in(v.agents, id) && r[t] == val_of(v.agents, id)@ && has_skill_key(
            val_of(v.agents, id).skills@,
            norm_of(name),
        ));
        assert(found_is_holder(v, name, r[t]));
    }
}

} // verus!
