//! The research log: what was searched, where, and what came of it.
use crate::types::EntityId;
use vstd::prelude::*;

verus! {

#[derive(Debug, Clone, Copy, PartialEq, Eq, Default, Structural)]
pub enum SearchResult {
    #[default]
    Found,
    NotFound,
    PartiallyFound,
    Inconclusive,
}

/// One entry of a research log.
#[derive(Debug, Clone, PartialEq, Eq)]
pub struct ResearchLogEntry {
    pub id: EntityId,
    /// When the search was made, in milliseconds since the Unix epoch.
    pub date: i64,
    pub objective: String,
    pub repository: Option<EntityId>,
    pub repository_name: Option<String>,
    pub search_terms: Vec<String>,
    pub source_searched: Option<EntityId>,
    pub result: SearchResult,
    pub findings: Option<String>,
    pub citations_created: Vec<EntityId>,
    pub next_steps: Option<String>,
    pub person_refs: Vec<EntityId>,
    pub tags: Vec<String>,
}

} // verus!
