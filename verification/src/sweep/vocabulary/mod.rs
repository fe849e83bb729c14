//! The vocabulary pass: a sweep phase that runs after every file has landed
//! and before folders, reads the store and never a host, and does what
//! needs the whole corpus in view: mine the candidates the statistics name,
//! match them across all the text, cluster the rows by co-occurrence, embed
//! the clusters, and ground the changed ones with the model once each.
//! Per-source planners stay functions of their text; this is the
//! corpus-level step.

pub mod candidates;
pub mod cluster;
pub mod config;
pub mod facets;
pub mod ground;
pub mod matcher;
pub mod matching;
pub mod mine;
pub mod mining;
pub mod pass;
pub mod planting;
pub mod rows;
pub mod runs;
pub mod scan;
pub mod table;

use vstd::prelude::*;

verus! {

/// The meter the cluster grounding calls are charged to.
pub const LLM_CONSUMER: &'static str = "vocabulary";

} // verus!
