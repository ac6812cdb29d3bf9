//! Grain and shard lifecycle events.
use vstd::prelude::*;

use crate::error::NodeId;
use crate::grain::GrainName;

verus! {

/// One event of a node's stream. Every grain event carries the node that hosts the
/// activation, so an activation that moved is told apart from a second one.
#[derive(Clone, Debug, PartialEq, Eq)]
pub enum GrainEvent {
    /// An activation is about to serve its first command.
    Activated { node: NodeId, name: GrainName },
    /// An activation rebuilt its state: from a snapshot or not, and how many records
    /// it folded after it.
    Rehydrated { node: NodeId, name: GrainName, from_snapshot: bool, replayed: u64 },
    /// A command's records committed at the grain's new head.
    Committed { node: NodeId, name: GrainName, shard: u32, seq: u64 },
    /// A snapshot was persisted.
    Snapshotted { node: NodeId, name: GrainName, at: u64 },
    /// An activation dropped its in-memory state; the journal survives.
    Passivated { node: NodeId, name: GrainName },
    /// This node won a shard's election.
    LeaderChanged { node: NodeId, grain_type: String, shard: u32, term: u64 },
    /// A shard split was applied: the parent now ends just below `boundary`.
    ShardSplit { node: NodeId, grain_type: String, parent: u32, child: u32, boundary: u64 },
    /// A shard merge was applied: `left` absorbed `right`.
    ShardMerged { node: NodeId, grain_type: String, left: u32, right: u32 },
}

} // verus!
