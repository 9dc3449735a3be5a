//! Dependency resolution for Elm test runs.
//!
//! The crate models semantic versions and version ranges, an in-memory
//! package registry fed by a local cache or a remote registry, and a
//! conflict-driven dependency resolver in the PubGrub style, together with
//! the project-level glue that turns an `elm.json` configuration into a
//! resolved set of exact package versions.

pub mod adapter;
pub mod deps;
pub mod elm_json;
pub mod elmi;
pub mod logger;
pub mod parse;
pub mod make;
pub mod maps;
pub mod project_config;
pub mod provider;
pub mod pkg;
pub mod range;
pub mod report;
pub mod run;
pub mod solution;
pub mod solver;
pub mod term;
pub mod version;

use vstd::prelude::*;

verus! {

} // verus!
