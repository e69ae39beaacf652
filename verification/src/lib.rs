//! Provenance-tracked definition tree for overlapping content packages.
//!
//! Content packages ("mods") for a rule-based strategy game override one
//! another by load order.  This crate parses each package's script and
//! localization files into typed nodes, folds them into one arena-backed
//! tree, and records every place two packages supplied distinct content
//! for the same key.

pub mod arena;
pub mod imaps;
pub mod laws;
pub mod loc;
pub mod mods;
pub mod node_type;
pub mod ordered_map;
pub mod path;
pub mod pipeline;
pub mod script;
pub mod tree;
