//! A verified capability directory for autonomous software agents.
//!
//! Agents, tasks and tools register their definitions; callers discover
//! agents either by exact (case-insensitive) skill match or by cosine
//! similarity of a query embedding against registered description
//! embeddings. The discovery engine keeps a derived skill index and a
//! vector index consistent with the authoritative registry.

pub mod address;
pub mod embedding;
pub mod engine;
pub mod memory;
pub mod models;
pub mod normalize;
pub mod registry;
pub mod skill_index;
pub mod vector_index;
