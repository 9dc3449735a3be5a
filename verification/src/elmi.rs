//! The result of test discovery: for each test file, the exposed
//! top-level values that may be tests. The source-file parsing that fills
//! this in is an external collaborator of the resolution core.

use vstd::prelude::*;

verus! {

/// All potential tests of one module.
#[derive(Debug)]
pub struct TestModule {
    pub path: String,
    pub tests: Vec<String>,
}

} // verus!
