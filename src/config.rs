//! Where the compiler finds its sources and puts its output.
use vstd::prelude::*;

verus! {

/// The folders and names a run works with.
#[derive(Debug, Clone, PartialEq, Eq)]
pub struct Config {
    /// The folder searched for source files.
    pub source_folder: String,
    /// The folder that mirrors it with the generated files.
    pub target_folder: String,
    /// The file that collects one trigger line per animation.
    pub tick_function: String,
    /// The namespace the generated functions are called under.
    pub namespace: String,
}

} // verus!
