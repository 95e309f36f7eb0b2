use vstd::prelude::*;

pub mod graph;
pub mod orchestrator;
pub mod patch;
pub mod paths;
pub mod progress;
pub mod staleness;
pub mod strutil;
pub mod toposort;

verus! {

/// A package to be built: its unique name and the names of the
/// packages it depends on.
pub struct PackageDescriptor {
    pub name: String,
    pub dependency_names: Vec<String>,
}

} // verus!
