//! Placement core of a distributed real-time task scheduler.
//!
//! Periodic tasks are assigned to compute nodes and CPUs under per-node
//! resource limits, a per-CPU utilization cap and optional CPU pinning.
//! Utilization is tracked as an integer number of parts per billion, rounded
//! up, so the tracked load of a CPU never understates the real one.
pub mod task;
pub mod text;
pub mod hyperperiod;
pub mod config;
pub mod scheduler;
