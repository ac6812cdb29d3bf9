//! The failures of reaching a grain and committing its effects.
use vstd::prelude::*;
use vstd::string::*;

use crate::text::decimal;
use crate::text::joined;
use crate::text::labelled;

verus! {

/// A node of the cluster.
#[derive(Clone, Copy, Debug, PartialEq, Eq, PartialOrd, Ord, Hash, Structural)]
pub struct NodeId(pub u64);

/// A transport failure of a call.
#[derive(Clone, Debug, PartialEq, Eq)]
pub enum CallError {
    /// The target had stopped: the command reached no handler.
    DeadLetter,
    /// The target's node could not be reached. The command may have run.
    Unreachable,
    /// No reply in time. The command may have run.
    Timeout,
    /// The target accepts no such command.
    Unhandled,
    /// A value did not encode or decode.
    Serialization(String),
}

/// A failure to reach a grain's activation or to commit its effects. What the
/// application refuses lives in its reply, never here.
#[derive(Clone, Debug, PartialEq, Eq)]
pub enum GrainError {
    Call(CallError),
    /// Leadership moved off the contacted node, to this one as far as is known.
    NotLeader(NodeId),
    /// The shard could not reach a quorum; the write did not commit.
    Unavailable(String),
}

impl GrainError {
    /// The error's text; `call` is the text of the transport failure, where there
    /// is one.
    pub fn to_text(&self, call: &str) -> (r: String)
        ensures
            r@ == match *self {
                GrainError::Call(_) => "grain call failed: "@ + call@,
                GrainError::NotLeader(node) => "grain shard leadership moved to "@ + decimal(
                    node.0 as nat,
                ),
                GrainError::Unavailable(why) => "grain shard unavailable: "@ + why@,
            },
    {
        match self {
            GrainError::Call(_) => joined("grain call failed: ", call),
            GrainError::NotLeader(node) => labelled("grain shard leadership moved to ", node.0),
            GrainError::Unavailable(why) => joined("grain shard unavailable: ", why.as_str()),
        }
    }
}

} // verus!
