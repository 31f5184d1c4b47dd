//! Local, no-API risk heuristics. Each submodule produces risk signals from
//! cheap local computation, so the agent never has to phone home to classify
//! a domain.

pub mod context;
pub mod levenshtein;
