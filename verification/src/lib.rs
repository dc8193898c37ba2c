//! Verified core of the pirc cluster server: the Raft consensus state
//! machine (log, elections, replication, snapshots, membership), peer
//! health tracking, and the server-side stores built on top of it.

pub mod raft;
pub mod keyed;
pub mod migration;
pub mod offline_store;
pub mod oper;
pub mod prekey_store;
pub mod cluster_start;
pub mod keepalive;
