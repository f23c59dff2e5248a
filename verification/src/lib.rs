//! A decompose-solve-reassemble pipeline for capacitated vehicle routing:
//! capacity-aware clustering of customer nodes, sub-instance construction
//! with dense re-indexing, tour aggregation and scoring, and the text
//! formats the pipeline reads and writes.
pub mod args;
pub mod clustering;
pub mod hybrid;
pub mod instance;
pub mod num;
pub mod reindex;
pub mod serializer;
pub mod solver;
pub mod solvers;
pub mod text;
pub mod tsp_util;

use vstd::prelude::*;

verus! {

/// Errors the pipeline reports, by the stage that detects them.
#[derive(Debug, PartialEq, Eq, Structural, Clone, Copy)]
pub enum VrpError {
    /// The instance is not a capacitated vehicle routing problem.
    WrongKind,
    /// A customer node cannot be placed in any cluster, or a supplied
    /// grouping does not cover the customers exactly once.
    Infeasible,
    /// A supplied cluster-assignment text or assignment vector is malformed.
    BadClusterInput,
    /// An external solver's output cannot be interpreted.
    ExternalTool,
    /// An instance lacks the nodes or depots a text section needs.
    EmptyInstance,
}

} // verus!
