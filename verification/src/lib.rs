//! A partitioned, append-only message broker core.
//!
//! Clients create named topics, each split into a fixed number of partitions,
//! and publish keyed messages that are routed deterministically to a partition
//! and appended to an on-disk log segment. This crate holds the verified core:
//! the binary batch codec, the deterministic partition routing, the topics
//! manager's catalog and routing table, and the per-partition writer's
//! batching and drain logic. The asynchronous shell (channels, tasks, file
//! and network I/O) lives outside the library and drives these state machines.

pub mod codec;
pub mod manager;
pub mod models;
pub mod routing;
pub mod writer;
