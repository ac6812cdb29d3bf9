//! Journal positions, terms, and the outcomes of the journal seam.
use vstd::prelude::*;
use vstd::string::*;

use crate::error::NodeId;
use crate::text::decimal;
use crate::text::joined;
use crate::text::labelled;

verus! {

/// A position in a grain's log. Zero is the position before the first record;
/// the first record commits at 1.
#[derive(Clone, Copy, Debug, PartialEq, Eq, PartialOrd, Ord, Hash, Structural)]
pub struct SeqNo(pub u64);

/// A leadership term, the fencing token of a shard's single writer.
#[derive(Clone, Copy, Debug, PartialEq, Eq, PartialOrd, Ord, Hash, Structural)]
pub struct Term(pub u64);

impl DeepView for SeqNo {
    type V = SeqNo;

    open spec fn deep_view(&self) -> SeqNo {
        *self
    }
}

impl DeepView for Term {
    type V = Term;

    open spec fn deep_view(&self) -> Term {
        *self
    }
}

impl SeqNo {
    /// The empty head.
    pub fn zero() -> (r: SeqNo)
        ensures
            r.0 == 0,
    {
        SeqNo(0)
    }

    pub fn new(value: u64) -> (r: SeqNo)
        ensures
            r.0 == value,
    {
        SeqNo(value)
    }

    pub fn value(&self) -> (r: u64)
        ensures
            r == self.0,
    {
        self.0
    }

    /// `seq-` and the position.
    pub fn to_text(&self) -> (r: String)
        ensures
            r@ == "seq-"@ + decimal(self.0 as nat),
    {
        labelled("seq-", self.0)
    }
}

impl Term {
    /// The first term.
    pub fn zero() -> (r: Term)
        ensures
            r.0 == 0,
    {
        Term(0)
    }

    pub fn new(value: u64) -> (r: Term)
        ensures
            r.0 == value,
    {
        Term(value)
    }

    pub fn value(&self) -> (r: u64)
        ensures
            r == self.0,
    {
        self.0
    }

    /// `term-` and the number.
    pub fn to_text(&self) -> (r: String)
        ensures
            r@ == "term-"@ + decimal(self.0 as nat),
    {
        labelled("term-", self.0)
    }
}

/// How an append (or a snapshot save) ended.
#[derive(Clone, Debug, PartialEq, Eq)]
pub enum AppendOutcome {
    /// Durable; the grain's new head.
    Committed(SeqNo),
    /// Leadership moved; the node to try instead.
    NotLeader(NodeId),
    /// No quorum, or the append timed out: it may still commit later.
    Unavailable(String),
}

/// Why a journal read failed.
#[derive(Clone, Debug, PartialEq, Eq)]
pub enum GrainJournalError {
    Unavailable(String),
}

impl GrainJournalError {
    pub fn to_text(&self) -> (r: String)
        ensures
            r@ == "journal read failed: "@ + self->Unavailable_0@,
    {
        match self {
            GrainJournalError::Unavailable(why) => joined("journal read failed: ", why.as_str()),
        }
    }
}

} // verus!
