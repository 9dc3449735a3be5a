//! Options for generating and compiling the test runner module. The
//! compiler invocation and file generation themselves are external
//! collaborators of the resolution core; these are the plain values they
//! are driven by.

use vstd::prelude::*;
use crate::deps::ConnectivityStrategy;

verus! {

/// Options passed as arguments to the compilation step.
#[derive(Debug)]
pub struct Options {
    pub verbosity: u64,
    pub watch: bool,
    pub compiler: String,
    pub connectivity: ConnectivityStrategy,
    pub files: Vec<String>,
    pub report: String,
}

} // verus!
