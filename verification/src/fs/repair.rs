//! Repairing the replication of live blocks.
//!
//! Records heal when they are read back by a quorum; blocks do not. Because the
//! workspace knows which blocks it refers to, repair copies exactly those: each is
//! read and verified, and stored again on the current replicas. A block that no
//! replica can serve is skipped.
use vstd::prelude::*;

use crate::blobs::BlobId;
use crate::error::GrainError;
use crate::ordmap::OrdSet;

verus! {

/// A repair under way: the blocks in order, and how many are done.
pub struct RepairRun {
    live: OrdSet<BlobId>,
    done: usize,
}

impl RepairRun {
    pub closed spec fn wf(&self) -> bool {
        self.live.wf() && self.done <= self.live.members().len()
    }

    /// The blocks not yet asked for, in ascending order.
    pub closed spec fn left(&self) -> Seq<Seq<u8>> {
        self.live.members().skip(self.done as int)
    }

    /// Start over all of `live`.
    pub fn new(live: OrdSet<BlobId>) -> (r: RepairRun)
        requires
            live.wf(),
        ensures
            r.wf(),
            r.left() == live.members(),
    {
        let r = RepairRun { live, done: 0 };
        assert(r.left() =~= live.members());
        r
    }

    /// The next block to read, if one is left.
    pub fn next(&mut self) -> (r: Option<BlobId>)
        requires
            old(self).wf(),
        ensures
            final(self).wf(),
            match r {
                Some(id) => old(self).left().len() > 0 && id@ == old(self).left()[0]
                    && final(self).left() == old(self).left().skip(1),
                None => old(self).left().len() == 0 && final(self).left() == old(self).left(),
            },
    {
        if self.done < self.live.len() {
            let id = *self.live.at(self.done);
            let ghost before = self.left();
            self.done = self.done + 1;
            assert(self.left() =~= before.skip(1));
            Some(id)
        } else {
            None
        }
    }
}

/// What to store again after a block was read: its bytes, or nothing if it could
/// not be read.
pub fn to_store(read: Result<Vec<u8>, GrainError>) -> (r: Option<Vec<u8>>)
    ensures
        match read {
            Ok(bytes) => r == Some(bytes),
            Err(_) => r is None,
        },
{
    match read {
        Ok(bytes) => Some(bytes),
        Err(_) => None,
    }
}

} // verus!
