//! Distributing a map over machines reached through pipes and ssh.
pub mod agent;
pub mod bundle;
pub mod capability;
pub mod cells;
pub mod control;
pub mod coordinator;
pub mod fleet;
pub mod framing;
pub mod graph;
pub mod heartbeat;
pub mod job;
pub mod names;
pub mod node;
pub mod observability;
pub mod panels;
pub mod paths;
pub mod probe;
pub mod protocol;
pub mod provisioning;
pub mod reach;
pub mod relay;
pub mod relay_loop;
pub mod ssh;
pub mod tasks;
pub mod testing;
pub mod text;
pub mod tui;
pub mod views;
pub mod workloads;
