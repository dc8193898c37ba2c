//! Raft consensus: types, the replicated log, elections, replication,
//! snapshots, cluster membership and peer health.

pub mod types;
pub mod cluster_command;
pub mod driver;
pub mod election;
pub mod health;
pub mod log;
pub mod membership;
pub mod node;
pub mod node_set;
pub mod peer_map;
pub mod replication;
pub mod rpc;
pub mod snapshot;
pub mod state_machine;
pub mod state;
pub mod storage;
pub mod file_storage;
