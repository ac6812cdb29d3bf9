//! Leadership of a shard, as the journal sees it.
//!
//! A shard's election group holds no grain data. It answers who may write the
//! shard's grains, and under which term: the fencing token of every append.
use vstd::prelude::*;

use crate::error::NodeId;

verus! {

/// What a node knows of a shard's election group.
#[derive(Clone, Copy, Debug, PartialEq, Eq, Structural)]
pub struct LeaderElection {
    pub self_node: NodeId,
    /// The believed leader, if one is known.
    pub leader: Option<NodeId>,
    /// Whether this node leads.
    pub leads: bool,
    /// The group's current term; none on a node outside the group.
    pub term: Option<u64>,
}

impl LeaderElection {
    /// Whether this node currently leads the shard: only then does it append.
    pub fn is_leader(&self) -> (r: bool)
        ensures
            r == self.leads,
    {
        self.leads
    }

    /// The shard's current term.
    pub fn term(&self) -> (r: Option<u64>)
        ensures
            r == self.term,
    {
        self.term
    }

    /// Where to send a caller: the believed leader, or this node while none is known.
    pub fn leader_hint(&self) -> (r: NodeId)
        ensures
            r == match self.leader {
                Some(node) => node,
                None => self.self_node,
            },
    {
        match self.leader {
            Some(node) => node,
            None => self.self_node,
        }
    }
}

} // verus!
