//! Extraction of a language-neutral module and dependency graph.

pub mod builder;
pub mod corpus;
pub mod dump;
pub mod extract_api;
pub mod indexers;
pub mod ir;
pub mod paths;
pub mod ra;
pub mod ra_builder;
pub mod ra_targets;
pub mod rank;
pub mod scip;
pub mod scip_lower;
pub mod text;
pub mod ts;
