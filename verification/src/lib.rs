//! Cargo-compatible planning of Rust workspaces, and the content store
//! behind it.

use vstd::prelude::*;

pub mod action_cache;
pub mod action_laws;
pub mod actions;
pub mod assemble;
pub mod canonical;
pub mod canonical_laws;
pub mod capture;
pub mod cas;
pub mod dep_laws;
pub mod deps;
pub mod digest;
pub mod directive_laws;
pub mod directives;
pub mod disk;
pub mod encode;
pub mod env_laws;
pub mod feature_laws;
pub mod feature_reasons;
pub mod features;
pub mod gc;
pub mod graph;
pub mod graph_laws;
pub mod import;
pub mod import_cycles;
pub mod import_laws;
pub mod link_walk;
pub mod manifest;
pub mod manifest_laws;
pub mod materialize;
pub mod model;
pub mod model_laws;
pub mod path_laws;
pub mod paths;
pub mod plan;
pub mod plan_laws;
pub mod profile_laws;
pub mod profiles;
pub mod reference_laws;
pub mod resolution;
pub mod source_laws;
pub mod sources;
pub mod state;
pub mod store_laws;
pub mod strmap;
pub mod sweep;
pub mod target_laws;
pub mod targets;
pub mod text;
pub mod text_laws;
pub mod tokens;
pub mod toolchain;
pub mod toolchain_dist;
pub mod toolchain_laws;
pub mod unit_laws;
pub mod units;
pub mod version;
pub mod workspace;
pub mod workspace_laws;

verus! {

} // verus!
