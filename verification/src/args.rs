//! The command surface of the solver, as plain data: what to solve,
//! how to cluster, which backend to hand sub-instances to, and where
//! the working files go. Reading these from a command line happens
//! outside the library.
use vstd::prelude::*;

verus! {

/// The solver's invocation: one command.
#[derive(Debug)]
pub struct VRPSolverArgs {
    pub command: VRPCommand,
}

/// Solve an instance end to end, or run one part of the pipeline.
#[derive(Debug)]
pub enum VRPCommand {
    Solve(SolveCommand),
    Partial(PartialSolveCommand),
}

/// A full solve: the instance, the clustering and solving choices, and
/// the working directory.
#[derive(Debug)]
pub struct SolveCommand {
    pub path: String,
    pub cluster: ClusterOption,
    pub cluster_number: usize,
    pub solver: SolverOption,
    pub build_dir: String,
}

/// One part of the solving step.
#[derive(Debug)]
pub struct PartialSolveCommand {
    pub subcommand: PartialSolveSubCommand,
}

/// Which part of the pipeline to run.
#[derive(Debug)]
pub enum PartialSolveSubCommand {
    Cluster(OnlyClusterCommand),
    Solve(OnlySolveCommand),
}

/// Cluster an instance and persist the sub-instances, without solving.
#[derive(Debug)]
pub struct OnlyClusterCommand {
    pub path: String,
    pub cluster: ClusterOption,
    pub cluster_number: usize,
    pub build_dir: String,
}

/// Solve one persisted sub-instance.
#[derive(Debug)]
pub struct OnlySolveCommand {
    pub path: String,
    pub solver: SolverOption,
    pub transform_only: bool,
    pub build_dir: String,
}

/// The clustering strategies the command line offers.
#[derive(Debug, Clone, Copy, PartialEq, Eq, Structural)]
pub enum ClusterOption {
    Kmeans,
    Tsp,
}

/// The solving backends the command line offers.
#[derive(Debug, Clone, Copy, PartialEq, Eq, Structural)]
pub enum SolverOption {
    Lkh,
    Simulated,
    LeapHybrid,
    QbSolv,
    Direct,
}

} // verus!
