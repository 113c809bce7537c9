//! Typed failures of admission control and of a scheduling run.
use vstd::prelude::*;

verus! {

/// Why a task was refused by a node.
#[derive(Debug, Clone, PartialEq)]
pub enum AdmissionReason {
    /// The node is not in the configuration.
    NodeNotFound { node: String },
    /// The task needs more memory than the node allows.
    InsufficientMemory { required_mb: u64, available_mb: u64 },
    /// The CPU a pinned task asks for is not one of the node's CPUs.
    CpuAffinityUnavailable { requested_cpu: u32 },
    /// The CPU's utilization would exceed the threshold; all values in parts
    /// per billion.
    CpuUtilizationExceeded { cpu: u32, current: u128, added: u128, threshold: u128 },
    /// No CPU of the node has room for the task.
    NoAvailableCpu,
}

/// Why a scheduling run failed; no partial result is ever returned.
#[derive(Debug, Clone, PartialEq)]
pub enum SchedulerError {
    /// The task list is empty.
    NoTasks,
    /// No node configuration has been loaded.
    ConfigNotLoaded,
    /// The algorithm name is not one of the three known ones.
    UnknownAlgorithm(String),
    /// A task has no workload id.
    MissingWorkloadId { task: String },
    /// A task has no target node, which `target_node_priority` needs.
    MissingTargetNode { task: String },
    /// The task's node refused it.
    AdmissionRejected { task: String, node: String, reason: AdmissionReason },
    /// No node can take the task.
    NoSchedulableNode { task: String },
}

} // verus!
