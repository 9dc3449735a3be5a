//! Options for running the compiled tests. The processes that execute
//! them live outside this crate; these are the plain values they take.

use vstd::prelude::*;

verus! {

/// The JavaScript runtime used to execute the compiled test code.
#[derive(Debug, Clone, Copy, PartialEq, Eq, Structural)]
pub enum Runtime {
    /// Node is the default runtime.
    Node,
    /// Deno is an alternative runtime.
    Deno,
}

/// Options passed as arguments to a test run.
#[derive(Debug)]
pub struct Options {
    pub seed: u32,
    pub fuzz: u32,
    pub workers: u32,
    pub filter: Option<String>,
    pub reporter: String,
    pub runtime: Runtime,
}

} // verus!
