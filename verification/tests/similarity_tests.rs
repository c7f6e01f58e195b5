use agent_directory::embedding::{generate_embedding, Embedding, Score};
use agent_directory::engine::DiscoveryEngine;
use agent_directory::models::{AgentDefinition, DiscoveryError, Skill};
use agent_directory::vector_index::{SearchableRecord, VectorIndex};

fn agent(id: &str, description: &str) -> AgentDefinition {
    AgentDefinition {
        id: id.to_string(),
        name: id.to_string(),
        description: description.to_string(),
        skills: Vec::<Skill>::new(),
    }
}

fn embedding(coords: &[i64]) -> Embedding {
    Embedding::new(coords.to_vec()).unwrap()
}

/// The similarity a score represents, with the zero-norm guard.
fn sim_value(s: &Score) -> f64 {
    if s.rec_norm2 == 0 || s.query_norm2 == 0 {
        0.0
    } else {
        s.dot as f64 / ((s.rec_norm2 as f64).sqrt() * (s.query_norm2 as f64).sqrt())
    }
}

#[test]
fn similarity_scenario_ranks_closer_description_first() {
    let mut eng = DiscoveryEngine::new(128);
    eng.register_agent(agent("a1", "solves equations")).unwrap();
    eng.register_agent(agent("a2", "writes poetry")).unwrap();
    let results = eng.search_by_similarity("solve an equation", 1);
    assert_eq!(results.len(), 1);
    assert_eq!(results[0].1.id, "a1");
}

#[test]
fn top_k_is_sorted_and_capped() {
    let mut eng = DiscoveryEngine::new(2);
    eng.register_agent_with_embedding(agent("b", "b"), Some(embedding(&[0, 1]))).unwrap();
    eng.register_agent_with_embedding(agent("a", "a"), Some(embedding(&[1, 0]))).unwrap();
    eng.register_agent_with_embedding(agent("c", "c"), Some(embedding(&[1, 1]))).unwrap();

    let q = embedding(&[1, 0]);
    let results = eng.search_by_similarity_with_embedding(Some(q), 10).unwrap();
    assert_eq!(results.len(), 3);
    let ids: Vec<&str> = results.iter().map(|p| p.1.id.as_str()).collect();
    assert_eq!(ids, vec!["a", "c", "b"]);
    for w in results.windows(2) {
        assert!(sim_value(&w[0].0) >= sim_value(&w[1].0));
    }
    assert!((sim_value(&results[0].0) - 1.0).abs() < 1e-9);
    assert!((sim_value(&results[1].0) - std::f64::consts::FRAC_1_SQRT_2).abs() < 1e-9);
    assert_eq!(sim_value(&results[2].0), 0.0);

    let q = embedding(&[1, 0]);
    let capped = eng.search_by_similarity_with_embedding(Some(q), 2).unwrap();
    assert_eq!(capped.len(), 2);
    let q = embedding(&[1, 0]);
    let none = eng.search_by_similarity_with_embedding(Some(q), 0).unwrap();
    assert!(none.is_empty());
}

#[test]
fn self_similarity_is_one() {
    let mut eng = DiscoveryEngine::new(2);
    eng.register_agent_with_embedding(agent("a", "a"), Some(embedding(&[3, 4]))).unwrap();
    let results = eng.search_by_similarity_with_embedding(Some(embedding(&[3, 4])), 1).unwrap();
    assert_eq!(results.len(), 1);
    let s = &results[0].0;
    assert_eq!(s.dot, 25);
    assert_eq!(s.rec_norm2, 25);
    assert_eq!(s.query_norm2, 25);
    assert!((sim_value(s) - 1.0).abs() < 1e-12);
}

#[test]
fn zero_vector_similarity_is_zero_not_nan() {
    let mut eng = DiscoveryEngine::new(2);
    eng.register_agent_with_embedding(agent("a", "a"), Some(embedding(&[3, 4]))).unwrap();
    let results = eng.search_by_similarity_with_embedding(Some(embedding(&[0, 0])), 1).unwrap();
    assert_eq!(results.len(), 1);
    let s = &results[0].0;
    assert_eq!(s.dot, 0);
    assert_eq!(s.query_norm2, 0);
    let v = sim_value(s);
    assert!(!v.is_nan());
    assert_eq!(v, 0.0);
}

#[test]
fn missing_embedding_degrades_to_exact_match_only() {
    let mut eng = DiscoveryEngine::new(2);
    let mut with_skill = agent("a1", "described");
    with_skill.skills.push(Skill { name: "Math".to_string(), description: String::new() });
    assert!(eng.register_agent_with_embedding(with_skill, None).is_ok());
    // exact-match discovery still works...
    assert_eq!(eng.search_by_skill("math").len(), 1);
    // ...but semantic search has no record of it
    let q = embedding(&[1, 0]);
    let results = eng.search_by_similarity_with_embedding(Some(q), 5).unwrap();
    assert!(results.is_empty());
}

#[test]
fn mismatched_embedding_degrades_like_a_missing_one() {
    let mut eng = DiscoveryEngine::new(2);
    let r = eng.register_agent_with_embedding(agent("a1", "d"), Some(embedding(&[1, 2, 3])));
    assert!(r.is_ok());
    let q = embedding(&[1, 0]);
    assert!(eng.search_by_similarity_with_embedding(Some(q), 5).unwrap().is_empty());
}

#[test]
fn similarity_error_kinds() {
    let eng = DiscoveryEngine::new(2);
    assert_eq!(
        eng.search_by_similarity_with_embedding(None, 3).unwrap_err(),
        DiscoveryError::EmbeddingUnavailable
    );
    assert_eq!(
        eng.search_by_similarity_with_embedding(Some(embedding(&[1, 2, 3])), 3).unwrap_err(),
        DiscoveryError::DimensionMismatch
    );
}

#[test]
fn vector_index_upsert_replaces_and_checks_dimension() {
    let mut idx = VectorIndex::new(2);
    let rec = SearchableRecord {
        id: "r1".to_string(),
        name: "n".to_string(),
        description: "d".to_string(),
        embedding: embedding(&[1, 0]),
    };
    assert!(idx.upsert(rec).is_ok());
    assert_eq!(idx.len(), 1);
    let replacement = SearchableRecord {
        id: "r1".to_string(),
        name: "n2".to_string(),
        description: "d2".to_string(),
        embedding: embedding(&[0, 1]),
    };
    assert!(idx.upsert(replacement).is_ok());
    assert_eq!(idx.len(), 1);
    let bad = SearchableRecord {
        id: "r2".to_string(),
        name: "n".to_string(),
        description: "d".to_string(),
        embedding: embedding(&[1, 2, 3]),
    };
    assert_eq!(idx.upsert(bad), Err(DiscoveryError::DimensionMismatch));
    assert_eq!(idx.len(), 1);
    idx.remove(&"r1".to_string());
    assert_eq!(idx.len(), 0);
    idx.remove(&"r1".to_string());
    assert_eq!(idx.len(), 0);
}

#[test]
fn embedding_constructor_checks_coordinate_bounds() {
    assert!(Embedding::new(vec![4096, -4096, 0]).is_ok());
    assert_eq!(Embedding::new(vec![4097]).unwrap_err(), DiscoveryError::InvalidInput);
    assert_eq!(Embedding::new(vec![-4097]).unwrap_err(), DiscoveryError::InvalidInput);
    let e = Embedding::new(vec![1, 2, 3]).unwrap();
    assert_eq!(e.len(), 3);
    assert_eq!(e.coords().as_slice(), &[1, 2, 3]);
    assert_eq!(e.duplicate().coords().as_slice(), &[1, 2, 3]);
}

#[test]
fn generated_embedding_is_keyed_on_text_length() {
    let e = generate_embedding("hello", 128);
    assert_eq!(e.len(), 128);
    assert_eq!(e.coords()[0], 5);
    assert!(e.coords()[1..].iter().all(|c| *c == 0));
    let e = generate_embedding("", 4);
    assert_eq!(e.coords()[0], 0);
}
