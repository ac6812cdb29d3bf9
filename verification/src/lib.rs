//! The deterministic core of a runtime for durable, single-activation objects
//! ("grains"): record envelopes, facet folds, snapshots, routing decisions and
//! the per-command durability protocol, each with a machine-checked contract.
//!
//! Nothing in this crate performs I/O, reads a clock or spawns a task. The code
//! around it does that and hands plain values in.
pub mod alarm;
pub mod alarm_index;
pub mod blobs;
pub mod cdc;
pub mod config;
pub mod disk;
pub mod election;
pub mod error;
pub mod event;
pub mod facet;
pub mod facet_blobs;
pub mod file_store;
pub mod fs;
pub mod gateway;
pub mod grain;
pub mod grainref;
pub mod host;
pub mod journal;
pub mod key;
pub mod kv;
pub mod memory;
pub mod metrics;
pub mod node;
pub mod ordmap;
pub mod replica_store;
pub mod routing_cache;
pub mod segment;
pub mod snapshot;
pub mod stamp;
pub mod store;
pub mod store_files;
pub mod text;
pub mod wire;
