//! What a replica stores of a grain, and the promises it makes about what it will
//! store: records, the snapshot they are compacted into, fences and append bounds.
use vstd::prelude::*;

use crate::grain::GrainName;
use crate::grain::NameModel;
use crate::journal::SeqNo;
use crate::journal::Term;
use crate::key::OrdKey;
use crate::key::Rank;
use crate::ordmap::OrdMap;

verus! {

/// How a write to a replica ended.
#[derive(Clone, Copy, Debug, PartialEq, Eq, Structural)]
pub enum StoreAck {
    /// Stored; the head it leads to.
    Stored(SeqNo),
    /// Refused: a later term was promised.
    Fenced(Term),
    /// Refused: it does not continue the records held; their head.
    Stale(SeqNo),
    /// Refused: the grain's range has been closed to appends.
    Sealed,
    /// The store could not make it durable.
    Failed,
}

/// Whether a write is a grain's own, or copies what was committed elsewhere.
#[derive(Clone, Copy, Debug, PartialEq, Eq, Structural)]
pub enum WriteKind {
    /// A grain's own write: it must continue the log.
    Append,
    /// A leader's write-back of what recovery found. It may overwrite.
    Repair,
    /// A moved grain landing under another shard's keys. It may overwrite, and the
    /// destination's fence does not bind it.
    Transfer,
}

/// How storing a blob ended.
#[derive(Clone, Copy, Debug, PartialEq, Eq, Structural)]
pub enum BlobAck {
    Stored,
    Failed,
}

/// Why a fence did not move.
#[derive(Clone, Copy, Debug, PartialEq, Eq, Structural)]
pub enum BumpRefusal {
    /// A later term was promised.
    Fenced(Term),
    /// The promise could not be made durable.
    Failed,
}

// ---- Records ----

/// One grain's records: those above its snapshot, and the snapshot.
#[derive(Clone, Debug, PartialEq, Eq)]
pub struct GrainRecords {
    /// The position before the first retained record: the snapshot's, if there is one.
    start: u64,
    slots: Vec<(Term, Vec<u8>)>,
    snapshot: Option<(Term, Vec<u8>)>,
}

#[verifier::ext_equal]
pub struct RecordsModel {
    pub start: u64,
    pub slots: Seq<(Term, Seq<u8>)>,
    pub snapshot: Option<(Term, Seq<u8>)>,
}

impl DeepView for GrainRecords {
    type V = RecordsModel;

    closed spec fn deep_view(&self) -> RecordsModel {
        RecordsModel {
            start: self.start,
            slots: self.slots.deep_view(),
            snapshot: self.snapshot.deep_view(),
        }
    }
}

/// A grain's whole state, as a compacted log holds it.
#[derive(Clone, Debug, PartialEq, Eq)]
pub struct GrainCheckpoint {
    /// The position before the first record.
    pub start: u64,
    pub slots: Vec<(Term, Vec<u8>)>,
    /// The snapshot at `start`.
    pub snapshot: Option<(Term, Vec<u8>)>,
}

impl DeepView for GrainCheckpoint {
    type V = RecordsModel;

    open spec fn deep_view(&self) -> RecordsModel {
        RecordsModel {
            start: self.start,
            slots: self.slots.deep_view(),
            snapshot: self.snapshot.deep_view(),
        }
    }
}

impl GrainCheckpoint {
    /// The positions fit, and without a snapshot the records begin at the beginning.
    pub open spec fn wf(&self) -> bool {
        &&& self.start + self.slots@.len() <= u64::MAX
        &&& self.snapshot is None ==> self.start == 0
    }

    /// Whether this is a state that records can have.
    pub fn is_sound(&self) -> (r: bool)
        ensures
            r == self.wf(),
    {
        self.slots.len() as u64 <= u64::MAX - self.start && (self.snapshot.is_some() || self.start
            == 0)
    }
}

/// The last position.
pub open spec fn head_of(r: RecordsModel) -> int {
    r.start + r.slots.len()
}

pub open spec fn no_records() -> RecordsModel {
    RecordsModel { start: 0, slots: seq![], snapshot: None }
}

/// A batch that begins behind `after` can be written: an append continues the log; a
/// copy may also overwrite, but leaves no gap.
pub open spec fn takes(r: RecordsModel, after: SeqNo, kind: WriteKind) -> bool {
    if kind == WriteKind::Append {
        after.0 == head_of(r)
    } else {
        after.0 <= head_of(r)
    }
}

/// The records with a batch in the positions behind `after`. What a snapshot has
/// subsumed stays subsumed.
pub open spec fn written(
    r: RecordsModel,
    after: SeqNo,
    term: Term,
    batch: Seq<Seq<u8>>,
) -> RecordsModel {
    let off = after.0 - r.start;
    let len = if off + batch.len() > r.slots.len() {
        off + batch.len()
    } else {
        r.slots.len() as int
    };
    RecordsModel {
        slots: Seq::new(
            len as nat,
            |k: int|
                if off <= k < off + batch.len() {
                    (term, batch[k - off])
                } else {
                    r.slots[k]
                },
        ),
        ..r
    }
}

/// A snapshot at `at` moves the records on: it is newer than the one there is.
pub open spec fn advances(r: RecordsModel, at: SeqNo) -> bool {
    r.snapshot is None || at.0 > r.start
}

/// The records compacted under a snapshot at `at`.
pub open spec fn compacted(r: RecordsModel, at: SeqNo, term: Term, state: Seq<u8>) -> RecordsModel {
    if advances(r, at) {
        RecordsModel {
            start: at.0,
            slots: if at.0 >= head_of(r) {
                seq![]
            } else {
                r.slots.skip(at.0 - r.start)
            },
            snapshot: Some((term, state)),
        }
    } else {
        r
    }
}

/// The records without the tail above `after` that `term` wrote.
pub open spec fn rolled_back(r: RecordsModel, after: SeqNo, term: Term) -> RecordsModel
    decreases r.slots.len(),
{
    if r.slots.len() > 0 && head_of(r) > after.0 && r.slots.last().0 == term {
        rolled_back(RecordsModel { slots: r.slots.drop_last(), ..r }, after, term)
    } else {
        r
    }
}

/// The records from `from` (exclusive) on, at most `limit`, each with its position.
pub open spec fn records_from(r: RecordsModel, from: SeqNo, limit: nat) -> Seq<(SeqNo, Seq<u8>)> {
    let skipped: int = if from.0 <= r.start {
        0
    } else if from.0 >= head_of(r) {
        r.slots.len() as int
    } else {
        from.0 - r.start
    };
    let left = r.slots.len() - skipped;
    let n: int = if left <= limit {
        left
    } else {
        limit as int
    };
    Seq::new(
        n as nat,
        |i: int| (SeqNo((r.start + skipped + i + 1) as u64), r.slots[skipped + i].1),
    )
}

/// A replica's view of a grain, as a recovering leader reads it.
#[derive(Clone, Debug, PartialEq, Eq)]
pub struct ReadReply {
    pub slots: Vec<(SeqNo, Term, Vec<u8>)>,
    pub snapshot: Option<(SeqNo, Term, Vec<u8>)>,
}

#[verifier::ext_equal]
pub struct ReplyModel {
    pub slots: Seq<(SeqNo, Term, Seq<u8>)>,
    pub snapshot: Option<(SeqNo, Term, Seq<u8>)>,
}

impl DeepView for ReadReply {
    type V = ReplyModel;

    open spec fn deep_view(&self) -> ReplyModel {
        ReplyModel { slots: self.slots.deep_view(), snapshot: self.snapshot.deep_view() }
    }
}

/// What a replica shows of its records.
pub open spec fn view_of(r: RecordsModel) -> ReplyModel {
    ReplyModel {
        slots: Seq::new(
            r.slots.len(),
            |i: int| (SeqNo((r.start + i + 1) as u64), r.slots[i].0, r.slots[i].1),
        ),
        snapshot: match r.snapshot {
            Some((term, state)) => Some((SeqNo(r.start), term, state)),
            None => None,
        },
    }
}

/// The last position in a view: that of the last record, or else of the snapshot.
pub open spec fn reply_head(r: ReplyModel) -> SeqNo {
    if r.slots.len() > 0 {
        r.slots.last().0
    } else {
        match r.snapshot {
            Some((at, _, _)) => at,
            None => SeqNo(0),
        }
    }
}

impl ReadReply {
    /// The last position in this view.
    pub fn head(&self) -> (r: SeqNo)
        ensures
            r == reply_head(self.deep_view()),
    {
        let n: usize = self.slots.len();
        if n > 0 {
            let last = &self.slots[n - 1];
            assert(self.slots.deep_view().last() == last.deep_view());
            return last.0;
        }
        match &self.snapshot {
            Some((at, _, _)) => *at,
            None => SeqNo(0),
        }
    }
}

/// How a recovery read ended.
#[derive(Clone, Debug, PartialEq, Eq)]
pub enum ReadOutcome {
    /// The term is promised; what the replica holds.
    Prepared(ReadReply),
    /// A later term was promised.
    Fenced(Term),
    /// The promise could not be made durable.
    Failed,
}

impl GrainRecords {
    /// The positions fit, and without a snapshot the records begin at the beginning.
    pub closed spec fn wf(&self) -> bool {
        &&& self.start + self.slots@.len() <= u64::MAX
        &&& self.snapshot is None ==> self.start == 0
    }

    pub fn new() -> (r: GrainRecords)
        ensures
            r.wf(),
            r.deep_view() == no_records(),
    {
        let r = GrainRecords { start: 0, slots: Vec::new(), snapshot: None };
        assert(r.slots.deep_view() =~= seq![]);
        r
    }

    /// The last position.
    pub fn head(&self) -> (r: SeqNo)
        requires
            self.wf(),
        ensures
            r.0 == head_of(self.deep_view()),
    {
        SeqNo(self.start + self.slots.len() as u64)
    }

    /// Write a batch into the positions behind `after`.
    pub fn store_record(
        &mut self,
        after: SeqNo,
        term: Term,
        batch: Vec<Vec<u8>>,
        kind: WriteKind,
    ) -> (r: StoreAck)
        requires
            old(self).wf(),
            after.0 + batch@.len() <= u64::MAX,
        ensures
            final(self).wf(),
            if takes(old(self).deep_view(), after, kind) {
                &&& final(self).deep_view() == written(
                    old(self).deep_view(),
                    after,
                    term,
                    batch.deep_view(),
                )
                &&& r == StoreAck::Stored(SeqNo((after.0 + batch@.len()) as u64))
            } else {
                &&& final(self).deep_view() == old(self).deep_view()
                &&& r == StoreAck::Stale(SeqNo(head_of(old(self).deep_view()) as u64))
            },
    {
        let head = self.head();
        let fits = match kind {
            WriteKind::Append => after.0 == head.0,
            _ => after.0 <= head.0,
        };
        if !fits {
            return StoreAck::Stale(head);
        }
        let n: u64 = batch.len() as u64;
        let ghost before = self.deep_view();
        let ghost all = batch.deep_view();
        let ghost items = batch@;
        let start: u64 = self.start;
        let mut at: u64 = after.0;
        assert(self.slots.deep_view() =~= written(before, after, term, all.take(0)).slots);
        for bytes in it: batch
            invariant
                it.seq() == items,
                all.len() == items.len(),
                forall|i: int| 0 <= i < items.len() ==> all[i] == (#[trigger] items[i]).deep_view(),
                after.0 <= head_of(before),
                after.0 + items.len() <= u64::MAX,
                at == after.0 + it.index(),
                start == self.start,
                before.start == start,
                self.start == old(self).start,
                self.snapshot == old(self).snapshot,
                self.start + self.slots@.len() <= u64::MAX,
                self.slots@.len() >= before.slots.len(),
                self.slots.deep_view() == written(
                    before,
                    after,
                    term,
                    all.take(it.index() as int),
                ).slots,
        {
            let ghost i = it.index() as int;
            let ghost was = self.slots.deep_view();
            let ghost next = written(before, after, term, all.take(i + 1)).slots;
            assert(bytes == items[i]);
            at = at + 1;
            if at > start {
                let k: u64 = at - start - 1;
                if k < self.slots.len() as u64 {
                    let k: usize = k as usize;
                    self.slots.set(k, (term, bytes));
                    assert(self.slots.deep_view() =~= was.update(k as int, (term, all[i])));
                } else {
                    self.slots.push((term, bytes));
                    assert(self.slots.deep_view() =~= was.push((term, all[i])));
                }
            }
            assert(self.slots.deep_view() =~= next);
        }
        assert(all.take(items.len() as int) =~= all);
        StoreAck::Stored(SeqNo(after.0 + n))
    }

    /// Keep a snapshot, and compact the records it subsumes; whether it was newer than
    /// the one there is. One that is not changes nothing.
    pub fn store_snapshot(&mut self, at: SeqNo, term: Term, state: Vec<u8>) -> (r: (StoreAck, bool))
        requires
            old(self).wf(),
        ensures
            final(self).wf(),
            final(self).deep_view() == compacted(old(self).deep_view(), at, term, state@),
            r.0 == StoreAck::Stored(at),
            r.1 == advances(old(self).deep_view(), at),
    {
        let ghost before = self.deep_view();
        if self.snapshot.is_some() && at.0 <= self.start {
            return (StoreAck::Stored(at), false);
        }
        assert(state.deep_view() =~= state@);
        let head: u64 = self.start + self.slots.len() as u64;
        if at.0 >= head {
            self.slots = Vec::new();
            assert(self.slots.deep_view() =~= seq![]);
        } else {
            let n: usize = (at.0 - self.start) as usize;
            let tail = self.slots.split_off(n);
            let ghost kept = tail.deep_view();
            self.slots = tail;
            assert(kept =~= before.slots.skip(n as int));
        }
        self.start = at.0;
        self.snapshot = Some((term, state));
        assert(self.deep_view() =~= compacted(before, at, term, state@));
        (StoreAck::Stored(at), true)
    }

    /// Drop the tail above `after` that `term` wrote.
    pub fn truncate(&mut self, after: SeqNo, term: Term)
        requires
            old(self).wf(),
        ensures
            final(self).wf(),
            final(self).deep_view() == rolled_back(old(self).deep_view(), after, term),
    {
        loop
            invariant
                self.wf(),
                rolled_back(self.deep_view(), after, term) == rolled_back(
                    old(self).deep_view(),
                    after,
                    term,
                ),
            ensures
                self.wf(),
                rolled_back(self.deep_view(), after, term) == self.deep_view(),
                rolled_back(self.deep_view(), after, term) == rolled_back(
                    old(self).deep_view(),
                    after,
                    term,
                ),
            decreases self.slots@.len(),
        {
            let n: usize = self.slots.len();
            if n == 0 {
                break;
            }
            let head: u64 = self.start + n as u64;
            let last: Term = self.slots[n - 1].0;
            assert(self.deep_view().slots.last().0 == last);
            if head <= after.0 || last != term {
                break;
            }
            let ghost was = self.deep_view();
            let _dropped = self.slots.pop();
            assert(self.slots.deep_view() =~= was.slots.drop_last());
        }
    }

    /// The records above `from`, at most `limit`.
    pub fn read_from(&self, from: SeqNo, limit: usize) -> (r: Vec<(SeqNo, Vec<u8>)>)
        requires
            self.wf(),
        ensures
            r.deep_view() == records_from(self.deep_view(), from, limit as nat),
    {
        let ghost m = self.deep_view();
        let ghost want = records_from(m, from, limit as nat);
        let count: usize = self.slots.len();
        let head: u64 = self.start + count as u64;
        let skipped: usize = if from.0 <= self.start {
            0
        } else if from.0 >= head {
            count
        } else {
            (from.0 - self.start) as usize
        };
        let left: usize = count - skipped;
        let n: usize = if left <= limit {
            left
        } else {
            limit
        };
        let mut out: Vec<(SeqNo, Vec<u8>)> = Vec::new();
        let mut i: usize = 0;
        assert(out.deep_view() =~= want.take(0));
        while i < n
            invariant
                self.wf(),
                m == self.deep_view(),
                want == records_from(m, from, limit as nat),
                count == self.slots@.len(),
                skipped + n <= count,
                want.len() == n,
                forall|j: int|
                    0 <= j < n ==> want[j] == (
                        SeqNo((m.start + skipped + j + 1) as u64),
                        m.slots[skipped + j].1,
                    ),
                i <= n,
                out.deep_view() == want.take(i as int),
            decreases n - i,
        {
            let at: usize = skipped + i;
            let bytes = vstd::slice::slice_to_vec(self.slots[at].1.as_slice());
            let seq = SeqNo(self.start + at as u64 + 1);
            let ghost was = out.deep_view();
            proof {
                assert(m.slots[at as int].1 == self.slots@[at as int].1.deep_view());
                assert(bytes.deep_view() =~= m.slots[at as int].1);
            }
            out.push((seq, bytes));
            proof {
                assert(out.deep_view() =~= was.push(want[i as int]));
                assert(want.take(i + 1) =~= want.take(i as int).push(want[i as int]));
            }
            i = i + 1;
        }
        assert(want.take(i as int) =~= want);
        out
    }

    /// The snapshot and its position.
    pub fn snapshot(&self) -> (r: Option<(SeqNo, Vec<u8>)>)
        requires
            self.wf(),
        ensures
            match self.deep_view().snapshot {
                Some((_, state)) => r.deep_view() == Some((SeqNo(self.deep_view().start), state)),
                None => r is None,
            },
    {
        match &self.snapshot {
            Some((_, state)) => {
                let copy = vstd::slice::slice_to_vec(state.as_slice());
                assert(copy.deep_view() =~= state.deep_view());
                Some((SeqNo(self.start), copy))
            },
            None => None,
        }
    }

    /// Every record held, and the snapshot, each with the term that wrote it.
    pub fn read(&self) -> (r: ReadReply)
        requires
            self.wf(),
        ensures
            r.deep_view() == view_of(self.deep_view()),
    {
        let ghost m = self.deep_view();
        let ghost want = view_of(m).slots;
        let mut slots: Vec<(SeqNo, Term, Vec<u8>)> = Vec::new();
        let mut i: usize = 0;
        assert(slots.deep_view() =~= want.take(0));
        while i < self.slots.len()
            invariant
                self.wf(),
                m == self.deep_view(),
                want == view_of(m).slots,
                want.len() == self.slots@.len(),
                i <= self.slots@.len(),
                slots.deep_view() == want.take(i as int),
            decreases self.slots@.len() - i,
        {
            let bytes = vstd::slice::slice_to_vec(self.slots[i].1.as_slice());
            let ghost was = slots.deep_view();
            proof {
                assert(m.slots[i as int].1 == self.slots@[i as int].1.deep_view());
                assert(bytes.deep_view() =~= m.slots[i as int].1);
            }
            slots.push((SeqNo(self.start + i as u64 + 1), self.slots[i].0, bytes));
            proof {
                assert(slots.deep_view() =~= was.push(want[i as int]));
                assert(want.take(i + 1) =~= want.take(i as int).push(want[i as int]));
            }
            i = i + 1;
        }
        assert(want.take(i as int) =~= want);
        let snapshot = match &self.snapshot {
            Some((term, state)) => {
                let copy = vstd::slice::slice_to_vec(state.as_slice());
                assert(copy.deep_view() =~= state.deep_view());
                Some((SeqNo(self.start), *term, copy))
            },
            None => None,
        };
        ReadReply { slots, snapshot }
    }

    /// A copy of the whole state: what a compacted log holds.
    pub fn export(&self) -> (r: GrainCheckpoint)
        requires
            self.wf(),
        ensures
            r.wf(),
            r.deep_view() == self.deep_view(),
    {
        let ghost all = self.slots.deep_view();
        let mut slots: Vec<(Term, Vec<u8>)> = Vec::new();
        let mut i: usize = 0;
        assert(slots.deep_view() =~= all.take(0));
        while i < self.slots.len()
            invariant
                i <= self.slots@.len(),
                slots@.len() == i,
                all == self.slots.deep_view(),
                slots.deep_view() == all.take(i as int),
            decreases self.slots@.len() - i,
        {
            let bytes = vstd::slice::slice_to_vec(self.slots[i].1.as_slice());
            let ghost was = slots.deep_view();
            assert(bytes.deep_view() =~= self.slots@[i as int].1.deep_view());
            slots.push((self.slots[i].0, bytes));
            assert(slots.deep_view() =~= was.push(all[i as int]));
            i = i + 1;
            assert(slots.deep_view() =~= all.take(i as int));
        }
        assert(all.take(i as int) =~= all);
        let snapshot = match &self.snapshot {
            Some((term, state)) => {
                let copy = vstd::slice::slice_to_vec(state.as_slice());
                assert(copy.deep_view() =~= state.deep_view());
                Some((*term, copy))
            },
            None => None,
        };
        GrainCheckpoint { start: self.start, slots, snapshot }
    }

    /// The records that a checkpoint holds.
    pub fn from_checkpoint(checkpoint: GrainCheckpoint) -> (r: GrainRecords)
        requires
            checkpoint.wf(),
        ensures
            r.wf(),
            r.deep_view() == checkpoint.deep_view(),
    {
        GrainRecords {
            start: checkpoint.start,
            slots: checkpoint.slots,
            snapshot: checkpoint.snapshot,
        }
    }
}

/// What is written is read back, each record at its position.
pub proof fn law_written_records_read_back(
    r: RecordsModel,
    after: SeqNo,
    term: Term,
    batch: Seq<Seq<u8>>,
)
    requires
        r.start <= after.0 <= head_of(r),
        head_of(r) <= u64::MAX,
        after.0 + batch.len() <= u64::MAX,
    ensures
        records_from(written(r, after, term, batch), after, batch.len()) == Seq::new(
            batch.len(),
            |i: int| (SeqNo((after.0 + i + 1) as u64), batch[i]),
        ),
{
    let done = written(r, after, term, batch);
    let got = records_from(done, after, batch.len());
    let want = Seq::new(batch.len(), |i: int| (SeqNo((after.0 + i + 1) as u64), batch[i]));
    let off = after.0 - r.start;
    assert forall|i: int| 0 <= i < batch.len() implies got[i] == want[i] by {
        assert(done.slots[off + i] == (term, batch[i]));
    }
    assert(got =~= want);
}

/// A write leaves the records before it as they were.
pub proof fn law_a_write_keeps_what_precedes_it(
    r: RecordsModel,
    after: SeqNo,
    term: Term,
    batch: Seq<Seq<u8>>,
)
    requires
        r.start <= after.0 <= head_of(r),
    ensures
        written(r, after, term, batch).slots.take(after.0 - r.start) == r.slots.take(
            after.0 - r.start,
        ),
        written(r, after, term, batch).snapshot == r.snapshot,
{
    let off = after.0 - r.start;
    assert(written(r, after, term, batch).slots.take(off) =~= r.slots.take(off));
}

/// Rolling back never reaches what another term wrote, nor what lies at or below the
/// position given.
pub proof fn law_a_roll_back_keeps_the_rest(r: RecordsModel, after: SeqNo, term: Term)
    ensures
        ({
            let back = rolled_back(r, after, term);
            let n = back.slots.len() as int;
            &&& n <= r.slots.len()
            &&& back.slots == r.slots.take(n)
            &&& back.start == r.start && back.snapshot == r.snapshot
            &&& forall|i: int|
                n <= i < r.slots.len() ==> (#[trigger] r.slots[i]).0 == term && r.start + i + 1
                    > after.0
        }),
    decreases r.slots.len(),
{
    if r.slots.len() > 0 && head_of(r) > after.0 && r.slots.last().0 == term {
        let less = RecordsModel { slots: r.slots.drop_last(), ..r };
        law_a_roll_back_keeps_the_rest(less, after, term);
        let n = rolled_back(r, after, term).slots.len() as int;
        assert(less.slots.take(n) =~= r.slots.take(n));
        assert forall|i: int| n <= i < r.slots.len() implies (#[trigger] r.slots[i]).0 == term
            && r.start + i + 1 > after.0 by {
            if i < less.slots.len() {
                assert(less.slots[i] == r.slots[i]);
            }
        }
    } else {
        assert(r.slots.take(r.slots.len() as int) =~= r.slots);
    }
}

/// What a replica shows of its records ends where they do.
pub proof fn law_a_view_ends_at_the_head(r: RecordsModel)
    requires
        head_of(r) <= u64::MAX,
        r.snapshot is None ==> r.start == 0,
    ensures
        reply_head(view_of(r)).0 == head_of(r),
{
}

/// Compacting under a snapshot keeps the head, unless the snapshot lies beyond it.
pub proof fn law_compaction_keeps_the_head(r: RecordsModel, at: SeqNo, term: Term, state: Seq<u8>)
    requires
        r.snapshot is None ==> r.start == 0,
    ensures
        at.0 <= head_of(r) ==> head_of(compacted(r, at, term, state)) == head_of(r),
{
}

// ---- Promises ----

/// A shard and a grain in it.
#[derive(Clone, Debug, PartialEq, Eq)]
pub struct StoreKey {
    pub shard: u32,
    pub grain: GrainName,
}

pub struct StoreKeyModel {
    pub shard: u32,
    pub grain: NameModel,
}

impl DeepView for StoreKey {
    type V = StoreKeyModel;

    open spec fn deep_view(&self) -> StoreKeyModel {
        StoreKeyModel { shard: self.shard, grain: self.grain.deep_view() }
    }
}

impl OrdKey for StoreKey {
    open spec fn lt(a: StoreKeyModel, b: StoreKeyModel) -> bool {
        a.shard < b.shard || a.shard == b.shard && crate::grain::name_lt(a.grain, b.grain)
    }

    proof fn lt_irreflexive(a: StoreKeyModel) {
        GrainName::lt_irreflexive(a.grain);
    }

    proof fn lt_transitive(a: StoreKeyModel, b: StoreKeyModel, c: StoreKeyModel) {
        if a.shard == b.shard && b.shard == c.shard {
            GrainName::lt_transitive(a.grain, b.grain, c.grain);
        }
    }

    proof fn lt_total(a: StoreKeyModel, b: StoreKeyModel) {
        GrainName::lt_total(a.grain, b.grain);
    }

    fn rank(&self, other: &StoreKey) -> (r: Rank) {
        proof {
            GrainName::lt_irreflexive(self.grain.deep_view());
        }
        if self.shard < other.shard {
            Rank::Below
        } else if self.shard > other.shard {
            Rank::Above
        } else {
            self.grain.rank(&other.grain)
        }
    }

    fn dup(&self) -> (r: StoreKey) {
        StoreKey { shard: self.shard, grain: self.grain.dup() }
    }
}

/// A replica's promises, by shard: the lowest term it still accepts, and the name hash
/// from which on it refuses appends.
#[derive(Clone, Debug, PartialEq, Eq)]
pub struct Guards {
    fences: OrdMap<u32, Term>,
    seals: OrdMap<u32, u64>,
}

#[verifier::ext_equal]
pub struct GuardsModel {
    pub fences: Map<u32, Term>,
    pub seals: Map<u32, u64>,
}

impl View for Guards {
    type V = GuardsModel;

    closed spec fn view(&self) -> GuardsModel {
        GuardsModel { fences: self.fences@, seals: self.seals@ }
    }
}

/// The term promised for a shard.
pub open spec fn fence_of(g: GuardsModel, shard: u32) -> Term {
    if g.fences.contains_key(shard) {
        g.fences[shard]
    } else {
        Term(0)
    }
}

/// Appends to a grain are refused.
pub open spec fn is_sealed(g: GuardsModel, shard: u32, name_hash: u64) -> bool {
    g.seals.contains_key(shard) && name_hash >= g.seals[shard]
}

/// The bound after a further range is closed: it only tightens.
pub open spec fn tightened(g: GuardsModel, shard: u32, from: u64) -> u64 {
    if g.seals.contains_key(shard) && g.seals[shard] <= from {
        g.seals[shard]
    } else {
        from
    }
}

/// What a promise of a term needs.
#[derive(Clone, Copy, Debug, PartialEq, Eq, Structural)]
pub enum FenceStep {
    /// A later term was promised.
    Refuse(Term),
    /// The term is new: it must be durable before it is promised.
    Persist,
    /// The term is promised already.
    Hold,
}

/// What a write needs before it is made.
#[derive(Clone, Copy, Debug, PartialEq, Eq, Structural)]
pub enum Admission {
    /// It is refused.
    Refuse(StoreAck),
    /// Its term is new: it must be durable first.
    Persist,
    /// It may be made.
    Admit,
}

/// Whether a snapshot may be stored: its term must not be below the fence. A transfer
/// is not bound by it.
pub open spec fn snapshot_admission(
    g: GuardsModel,
    shard: u32,
    term: Term,
    kind: WriteKind,
) -> Admission {
    let fence = fence_of(g, shard);
    if kind == WriteKind::Transfer || term.0 == fence.0 {
        Admission::Admit
    } else if term.0 < fence.0 {
        Admission::Refuse(StoreAck::Fenced(fence))
    } else {
        Admission::Persist
    }
}

/// Whether records may be stored: an append must not fall in a closed range, and then
/// as for a snapshot.
pub open spec fn record_admission(
    g: GuardsModel,
    shard: u32,
    name_hash: u64,
    term: Term,
    kind: WriteKind,
) -> Admission {
    if kind == WriteKind::Append && is_sealed(g, shard, name_hash) {
        Admission::Refuse(StoreAck::Sealed)
    } else {
        snapshot_admission(g, shard, term, kind)
    }
}

/// The promises once a write of `term` has been admitted.
pub open spec fn raised(g: GuardsModel, shard: u32, term: Term, kind: WriteKind) -> GuardsModel {
    if kind != WriteKind::Transfer && term.0 > fence_of(g, shard).0 {
        GuardsModel { fences: g.fences.insert(shard, term), ..g }
    } else {
        g
    }
}

impl Guards {
    pub closed spec fn wf(&self) -> bool {
        self.fences.wf() && self.seals.wf()
    }

    pub fn new() -> (r: Guards)
        ensures
            r.wf(),
            r@.fences == Map::<u32, Term>::empty(),
            r@.seals == Map::<u32, u64>::empty(),
    {
        Guards { fences: OrdMap::new(), seals: OrdMap::new() }
    }

    /// Take in a promise that was found on disk.
    pub fn loaded_fence(&mut self, shard: u32, term: Term)
        requires
            old(self).wf(),
        ensures
            final(self).wf(),
            final(self)@ == (GuardsModel {
                fences: old(self)@.fences.insert(shard, term),
                ..old(self)@
            }),
    {
        self.fences.insert(shard, term);
    }

    /// Take in a bound that was found on disk.
    pub fn loaded_seal(&mut self, shard: u32, bound: u64)
        requires
            old(self).wf(),
        ensures
            final(self).wf(),
            final(self)@ == (GuardsModel {
                seals: old(self)@.seals.insert(shard, bound),
                ..old(self)@
            }),
    {
        self.seals.insert(shard, bound);
    }

    /// What promising `term` needs.
    pub fn fence_step(&self, shard: u32, term: Term) -> (r: FenceStep)
        requires
            self.wf(),
        ensures
            r == if term.0 < fence_of(self@, shard).0 {
                FenceStep::Refuse(fence_of(self@, shard))
            } else if term.0 > fence_of(self@, shard).0 {
                FenceStep::Persist
            } else {
                FenceStep::Hold
            },
    {
        let fence = match self.fences.get(&shard) {
            Some(fence) => *fence,
            None => Term(0),
        };
        if term.0 < fence.0 {
            FenceStep::Refuse(fence)
        } else if term.0 > fence.0 {
            FenceStep::Persist
        } else {
            FenceStep::Hold
        }
    }

    /// Promise `term` for a shard. `durable`: a new term has been persisted (it matters
    /// only where [`fence_step`](Guards::fence_step) says so). A promise that is not
    /// durable is not made.
    pub fn bump_fence(&mut self, shard: u32, term: Term, durable: bool) -> (r: Result<
        (),
        BumpRefusal,
    >)
        requires
            old(self).wf(),
        ensures
            final(self).wf(),
            ({
                let fence = fence_of(old(self)@, shard);
                if term.0 < fence.0 {
                    r == Err::<(), BumpRefusal>(BumpRefusal::Fenced(fence)) && final(self)@ == old(
                        self,
                    )@
                } else if term.0 == fence.0 {
                    r is Ok && final(self)@ == old(self)@
                } else if durable {
                    r is Ok && final(self)@ == (GuardsModel {
                        fences: old(self)@.fences.insert(shard, term),
                        ..old(self)@
                    })
                } else {
                    r == Err::<(), BumpRefusal>(BumpRefusal::Failed) && final(self)@ == old(self)@
                }
            }),
    {
        match self.fence_step(shard, term) {
            FenceStep::Refuse(fence) => Err(BumpRefusal::Fenced(fence)),
            FenceStep::Hold => Ok(()),
            FenceStep::Persist => if durable {
                self.fences.insert(shard, term);
                Ok(())
            } else {
                Err(BumpRefusal::Failed)
            },
        }
    }

    /// Whether appends to a grain, by the hash of its name, are refused.
    pub fn sealed(&self, shard: u32, name_hash: u64) -> (r: bool)
        requires
            self.wf(),
        ensures
            r == is_sealed(self@, shard, name_hash),
    {
        match self.seals.get(&shard) {
            Some(from) => name_hash >= *from,
            None => false,
        }
    }

    /// Whether a snapshot may be stored.
    pub fn guard_snapshot(&self, shard: u32, term: Term, kind: WriteKind) -> (r: Admission)
        requires
            self.wf(),
        ensures
            r == snapshot_admission(self@, shard, term, kind),
    {
        match kind {
            WriteKind::Transfer => Admission::Admit,
            _ => match self.fence_step(shard, term) {
                FenceStep::Refuse(fence) => Admission::Refuse(StoreAck::Fenced(fence)),
                FenceStep::Persist => Admission::Persist,
                FenceStep::Hold => Admission::Admit,
            },
        }
    }

    /// Whether records may be stored.
    pub fn guard_record(&self, shard: u32, name_hash: u64, term: Term, kind: WriteKind) -> (r:
        Admission)
        requires
            self.wf(),
        ensures
            r == record_admission(self@, shard, name_hash, term, kind),
    {
        if let WriteKind::Append = kind {
            if self.sealed(shard, name_hash) {
                return Admission::Refuse(StoreAck::Sealed);
            }
        }
        self.guard_snapshot(shard, term, kind)
    }

    /// The bound to persist before a range is closed from `from` on; none if it is
    /// closed already.
    pub fn seal_step(&self, shard: u32, from: u64) -> (r: Option<u64>)
        requires
            self.wf(),
        ensures
            r == if self@.seals.contains_key(shard) && self@.seals[shard] == tightened(
                self@,
                shard,
                from,
            ) {
                None
            } else {
                Some(tightened(self@, shard, from))
            },
    {
        match self.seals.get(&shard) {
            Some(bound) => if *bound <= from {
                None
            } else {
                Some(from)
            },
            None => Some(from),
        }
    }

    /// Close a range once its bound is durable.
    pub fn seal_range(&mut self, shard: u32, from: u64)
        requires
            old(self).wf(),
        ensures
            final(self).wf(),
            final(self)@ == (GuardsModel {
                seals: old(self)@.seals.insert(shard, tightened(old(self)@, shard, from)),
                ..old(self)@
            }),
    {
        let ghost before = self@;
        match self.seal_step(shard, from) {
            Some(bound) => {
                self.seals.insert(shard, bound);
            },
            None => {
                assert(before.seals.insert(shard, tightened(before, shard, from)) =~= before.seals);
            },
        }
    }

    /// Open a shard's range again; whether it was bounded.
    pub fn unseal(&mut self, shard: u32) -> (r: bool)
        requires
            old(self).wf(),
        ensures
            final(self).wf(),
            final(self)@ == (GuardsModel {
                seals: old(self)@.seals.remove(shard),
                ..old(self)@
            }),
            r == old(self)@.seals.contains_key(shard),
    {
        self.seals.remove(&shard).is_some()
    }

    /// Forget a shard's promises with its data.
    pub fn drop_shard(&mut self, shard: u32)
        requires
            old(self).wf(),
        ensures
            final(self).wf(),
            final(self)@ == (GuardsModel {
                fences: old(self)@.fences.remove(shard),
                seals: old(self)@.seals.remove(shard),
            }),
    {
        self.fences.remove(&shard);
        self.seals.remove(&shard);
    }
}

/// Admitting a write never lowers a fence, here or elsewhere.
pub proof fn law_a_fence_only_rises(
    g: GuardsModel,
    shard: u32,
    term: Term,
    kind: WriteKind,
    other: u32,
)
    ensures
        fence_of(raised(g, shard, term, kind), other).0 >= fence_of(g, other).0,
        other != shard ==> fence_of(raised(g, shard, term, kind), other) == fence_of(g, other),
{
}

/// Once a term is promised, a write below it is refused, unless it is a transfer.
pub proof fn law_a_promise_fences_lower_terms(
    g: GuardsModel,
    shard: u32,
    term: Term,
    kind: WriteKind,
    lower: Term,
    other: WriteKind,
)
    requires
        kind != WriteKind::Transfer,
        term.0 >= fence_of(g, shard).0,
        lower.0 < term.0,
        other != WriteKind::Transfer,
    ensures
        snapshot_admission(raised(g, shard, term, kind), shard, lower, other) == Admission::Refuse(
            StoreAck::Fenced(term),
        ),
{
}

/// Closing a range opens nothing: what was refused before is refused still.
pub proof fn law_closing_a_range_opens_nothing(
    g: GuardsModel,
    shard: u32,
    from: u64,
    other: u32,
    hash: u64,
)
    requires
        is_sealed(g, other, hash),
    ensures
        is_sealed(
            GuardsModel { seals: g.seals.insert(shard, tightened(g, shard, from)), ..g },
            other,
            hash,
        ),
{
}

// ---- What each operation leaves at each position ----

/// An append must continue the log exactly; any other write may overwrite, but leaves no
/// gap.
pub proof fn law_writes_leave_no_gap(r: RecordsModel, after: SeqNo, kind: WriteKind)
    ensures
        kind == WriteKind::Append ==> (takes(r, after, kind) <==> after.0 == r.start
            + r.slots.len()),
        kind != WriteKind::Append ==> (takes(r, after, kind) <==> after.0 <= r.start
            + r.slots.len()),
        head_of(r) == r.start + r.slots.len(),
        head_of(no_records()) == 0,
        no_records().snapshot is None,
{
}

/// A write puts each record of its batch, with its term, at its own position behind
/// `after`, and changes no other position; the head is then the end of the batch, unless
/// there was more behind it.
pub proof fn law_a_write_fills_its_positions(
    r: RecordsModel,
    after: SeqNo,
    term: Term,
    batch: Seq<Seq<u8>>,
    i: int,
)
    requires
        r.start <= after.0 <= head_of(r),
    ensures
        ({
            let w = written(r, after, term, batch);
            &&& w.start == r.start
            &&& w.snapshot == r.snapshot
            &&& head_of(w) == if after.0 + batch.len() > head_of(r) {
                after.0 + batch.len()
            } else {
                head_of(r)
            }
            &&& 0 <= i < batch.len() ==> w.slots[after.0 - r.start + i] == (term, batch[i])
            &&& 0 <= i < after.0 - r.start ==> w.slots[i] == r.slots[i]
            &&& after.0 - r.start + batch.len() <= i < r.slots.len() ==> w.slots[i] == r.slots[i]
        }),
{
}

/// A roll-back stops only where nothing is left, at the position given, or at a record of
/// another term.
pub proof fn law_a_roll_back_goes_all_the_way(r: RecordsModel, after: SeqNo, term: Term)
    ensures
        ({
            let back = rolled_back(r, after, term);
            back.slots.len() == 0 || head_of(back) <= after.0 || back.slots.last().0 != term
        }),
    decreases r.slots.len(),
{
    if r.slots.len() > 0 && head_of(r) > after.0 && r.slots.last().0 == term {
        law_a_roll_back_goes_all_the_way(
            RecordsModel { slots: r.slots.drop_last(), ..r },
            after,
            term,
        );
    }
}

/// A snapshot takes the place of the records up to its position, and of no others; one that
/// is not newer than the one there is changes nothing.
pub proof fn law_a_snapshot_subsumes_what_is_below_it(
    r: RecordsModel,
    at: SeqNo,
    term: Term,
    state: Seq<u8>,
    p: int,
)
    requires
        r.snapshot is None ==> r.start == 0,
        at.0 >= r.start,
    ensures
        ({
            let c = compacted(r, at, term, state);
            &&& advances(r, at) <==> r.snapshot is None || at.0 > r.start
            &&& !advances(r, at) ==> c == r
            &&& advances(r, at) ==> {
                &&& c.start == at.0
                &&& c.snapshot == Some((term, state))
                &&& at.0 >= head_of(r) ==> c.slots.len() == 0
                &&& at.0 < head_of(r) ==> head_of(c) == head_of(r)
                &&& at.0 < p <= head_of(r) ==> c.slots[p - at.0 - 1] == r.slots[p - r.start - 1]
            }
        }),
{
}

/// A read from a position answers the records above it that are still there, from the
/// first on, each at its own position, up to the limit.
pub proof fn law_a_read_starts_behind_its_position(r: RecordsModel, from: SeqNo, limit: nat, i: int)
    requires
        head_of(r) <= u64::MAX,
    ensures
        ({
            let got = records_from(r, from, limit);
            let first: int = if from.0 < r.start {
                r.start as int
            } else {
                from.0 as int
            };
            let left: int = if first < head_of(r) {
                head_of(r) - first
            } else {
                0
            };
            &&& left <= limit ==> got.len() == left
            &&& left > limit ==> got.len() == limit
            &&& 0 <= i < got.len() ==> got[i] == (
                SeqNo((first + 1 + i) as u64),
                r.slots[first + i - r.start].1,
            )
        }),
{
}

/// A replica shows every record it holds, with its position and its term, and its snapshot
/// at its own.
pub proof fn law_a_view_shows_everything(r: RecordsModel, i: int)
    requires
        head_of(r) <= u64::MAX,
    ensures
        view_of(r).slots.len() == r.slots.len(),
        0 <= i < r.slots.len() ==> view_of(r).slots[i] == (
            SeqNo((r.start + 1 + i) as u64),
            r.slots[i].0,
            r.slots[i].1,
        ),
        r.snapshot is None ==> view_of(r).snapshot is None,
        r.snapshot matches Some((term, state)) ==> view_of(r).snapshot == Some(
            (SeqNo(r.start), term, state),
        ),
{
}

/// A shard's fence is the term promised for it, zero before any promise; a write below it
/// is refused with it, one at it is admitted, one above it must be made durable first; and
/// a transfer is bound by none of this.
pub proof fn law_a_fence_decides_by_terms(g: GuardsModel, shard: u32, term: Term, kind: WriteKind)
    ensures
        ({
            let fence = if g.fences.contains_key(shard) {
                g.fences[shard]
            } else {
                Term(0)
            };
            &&& fence_of(g, shard) == fence
            &&& kind == WriteKind::Transfer ==> snapshot_admission(g, shard, term, kind)
                == Admission::Admit
            &&& kind != WriteKind::Transfer ==> snapshot_admission(g, shard, term, kind) == if
                term.0 < fence.0 {
                Admission::Refuse(StoreAck::Fenced(fence))
            } else if term.0 == fence.0 {
                Admission::Admit
            } else {
                Admission::Persist
            }
            &&& kind != WriteKind::Transfer && term.0 > fence.0 ==> fence_of(
                raised(g, shard, term, kind),
                shard,
            ) == term
            &&& (kind == WriteKind::Transfer || term.0 <= fence.0) ==> raised(g, shard, term, kind)
                == g
            &&& raised(g, shard, term, kind).seals == g.seals
        }),
{
}

/// A closed range refuses appends at or above its bound, to its shard alone; other writes
/// are not bound by it. A further bound closes what either closes.
pub proof fn law_a_bound_closes_its_range(
    g: GuardsModel,
    shard: u32,
    hash: u64,
    term: Term,
    kind: WriteKind,
    from: u64,
)
    ensures
        is_sealed(g, shard, hash) <==> g.seals.contains_key(shard) && g.seals[shard] <= hash,
        record_admission(g, shard, hash, term, kind) == Admission::Refuse(StoreAck::Sealed) <==> kind
            == WriteKind::Append && is_sealed(g, shard, hash),
        !(kind == WriteKind::Append && is_sealed(g, shard, hash)) ==> record_admission(
            g,
            shard,
            hash,
            term,
            kind,
        ) == snapshot_admission(g, shard, term, kind),
        tightened(g, shard, from) <= from,
        is_sealed(
            GuardsModel { seals: g.seals.insert(shard, tightened(g, shard, from)), ..g },
            shard,
            hash,
        ) <==> hash >= from || is_sealed(g, shard, hash),
{
}

} // verus!
