//! Analysis of genome-assembly graphs in GFA form: strongly connected
//! components to find tangled regions, enumeration of the paths between two
//! segments (optionally bounded by per-segment visit quotas), selection of the
//! path of highest edge coverage, induced subgraphs, and per-subgraph
//! statistics filtered to find organelle-genome candidates.
use vstd::prelude::*;

pub mod gfa;
pub mod graph;
pub mod paths;
pub mod scc;
pub mod select;
pub mod stats;
pub mod subgraph;

verus! {

} // verus!
