//! Project-level configuration: the resolved form of an `elm.json`, with
//! versions, ranges and package identifiers in the resolver's own model.

use vstd::prelude::*;
use crate::maps::{DepMap, VersionMap};
use crate::pkg::Pkg;
use crate::version::Version;

verus! {

/// Application dependencies: direct and indirect exact pins.
#[derive(Debug)]
pub struct AppDependencies {
    pub direct: VersionMap,
    pub indirect: VersionMap,
}

impl AppDependencies {
    /// Well formed: unique keys, and room for a successor on every pin (so
    /// an exact singleton range around it exists).
    pub open spec fn wf(self) -> bool {
        &&& self.direct.wf()
        &&& self.indirect.wf()
        &&& forall|k: crate::pkg::PkgKey|
            #[trigger] crate::maps::key_contains(self.direct@, k) ==> crate::maps::key_value(
                self.direct@,
                k,
            ).patch < u64::MAX
        &&& forall|k: crate::pkg::PkgKey|
            #[trigger] crate::maps::key_contains(self.indirect@, k) ==> crate::maps::key_value(
                self.indirect@,
                k,
            ).patch < u64::MAX
    }

    pub fn new() -> (r: AppDependencies)
        ensures
            r.wf(),
            r.direct@.len() == 0,
            r.indirect@.len() == 0,
    {
        AppDependencies { direct: VersionMap::new(), indirect: VersionMap::new() }
    }
}

/// The configuration of an Elm application project.
#[derive(Debug)]
pub struct ApplicationConfig {
    pub source_directories: Vec<String>,
    pub elm_version: Version,
    pub dependencies: AppDependencies,
    pub test_dependencies: AppDependencies,
}

impl ApplicationConfig {
    pub open spec fn wf(self) -> bool {
        self.dependencies.wf() && self.test_dependencies.wf()
    }
}

/// The configuration of an Elm package project.
#[derive(Debug)]
pub struct PackageConfig {
    pub name: Pkg,
    pub version: Version,
    pub dependencies: DepMap,
    pub test_dependencies: DepMap,
}

impl PackageConfig {
    pub open spec fn wf(self) -> bool {
        &&& self.version.patch < u64::MAX
        &&& self.dependencies.wf()
        &&& self.test_dependencies.wf()
    }
}

/// A project is either an application or a package.
#[derive(Debug)]
pub enum ProjectConfig {
    Application(ApplicationConfig),
    Package(PackageConfig),
}

impl ProjectConfig {
    pub open spec fn wf(self) -> bool {
        match self {
            ProjectConfig::Application(a) => a.wf(),
            ProjectConfig::Package(p) => p.wf(),
        }
    }
}

} // verus!
