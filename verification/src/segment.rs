//! One grain's operation log: what is logged, and what replaying it gives.
use vstd::prelude::*;

use crate::journal::SeqNo;
use crate::journal::Term;
use crate::store::advances;
use crate::store::compacted;
use crate::store::no_records;
use crate::store::rolled_back;
use crate::store::takes;
use crate::store::written;
use crate::store::GrainCheckpoint;
use crate::store::GrainRecords;
use crate::store::RecordsModel;
use crate::store::WriteKind;

verus! {

/// One mutating call on a grain's records, as it is logged.
#[derive(Debug, PartialEq, Eq)]
pub enum SegOp {
    /// The whole state: the sole entry of a compacted log.
    Checkpoint(GrainCheckpoint),
    Record { after: SeqNo, term: Term, records: Vec<Vec<u8>>, kind: WriteKind },
    Snapshot { at: SeqNo, term: Term, state: Vec<u8> },
    Truncate { after: SeqNo, term: Term },
}

pub enum OpModel {
    Checkpoint(RecordsModel),
    Record { after: SeqNo, term: Term, records: Seq<Seq<u8>>, kind: WriteKind },
    Snapshot { at: SeqNo, term: Term, state: Seq<u8> },
    Truncate { after: SeqNo, term: Term },
}

impl DeepView for SegOp {
    type V = OpModel;

    open spec fn deep_view(&self) -> OpModel {
        match *self {
            SegOp::Checkpoint(state) => OpModel::Checkpoint(state.deep_view()),
            SegOp::Record { after, term, records, kind } => OpModel::Record {
                after,
                term,
                records: records.deep_view(),
                kind,
            },
            SegOp::Snapshot { at, term, state } => OpModel::Snapshot { at, term, state: state@ },
            SegOp::Truncate { after, term } => OpModel::Truncate { after, term },
        }
    }
}

impl SegOp {
    /// The operation can be replayed: its positions fit.
    pub open spec fn wf(&self) -> bool {
        match *self {
            SegOp::Checkpoint(state) => state.wf(),
            SegOp::Record { after, records, .. } => after.0 + records@.len() <= u64::MAX,
            _ => true,
        }
    }
}

/// The records after one operation.
pub open spec fn applied(r: RecordsModel, op: OpModel) -> RecordsModel {
    match op {
        OpModel::Checkpoint(state) => state,
        OpModel::Record { after, term, records, kind } => if takes(r, after, kind) {
            written(r, after, term, records)
        } else {
            r
        },
        OpModel::Snapshot { at, term, state } => compacted(r, at, term, state),
        OpModel::Truncate { after, term } => rolled_back(r, after, term),
    }
}

/// What a log says: its operations applied in order, from nothing.
pub open spec fn replayed(ops: Seq<OpModel>) -> RecordsModel {
    ops.fold_left(no_records(), |r: RecordsModel, op: OpModel| applied(r, op))
}

/// Apply one logged operation.
pub fn apply(records: &mut GrainRecords, op: SegOp)
    requires
        old(records).wf(),
        op.wf(),
    ensures
        final(records).wf(),
        final(records).deep_view() == applied(old(records).deep_view(), op.deep_view()),
{
    match op {
        SegOp::Checkpoint(state) => {
            *records = GrainRecords::from_checkpoint(state);
        },
        SegOp::Record { after, term, records: batch, kind } => {
            let _ack = records.store_record(after, term, batch, kind);
        },
        SegOp::Snapshot { at, term, state } => {
            let _ack = records.store_snapshot(at, term, state);
        },
        SegOp::Truncate { after, term } => {
            records.truncate(after, term);
        },
    }
}

/// Replay a log.
pub fn replay(ops: Vec<SegOp>) -> (r: GrainRecords)
    requires
        forall|i: int| 0 <= i < ops@.len() ==> (#[trigger] ops@[i]).wf(),
    ensures
        r.wf(),
        r.deep_view() == replayed(ops.deep_view()),
{
    let mut records = GrainRecords::new();
    let ghost items = ops@;
    let ghost all = ops.deep_view();
    let ghost f = |r: RecordsModel, op: OpModel| applied(r, op);
    for op in it: ops
        invariant
            it.seq() == items,
            all.len() == items.len(),
            forall|i: int| 0 <= i < items.len() ==> (#[trigger] items[i]).wf(),
            forall|i: int| 0 <= i < items.len() ==> all[i] == (#[trigger] items[i]).deep_view(),
            f == (|r: RecordsModel, op: OpModel| applied(r, op)),
            records.wf(),
            records.deep_view() == all.take(it.index() as int).fold_left(no_records(), f),
    {
        let ghost i = it.index() as int;
        assert(op == items[i]);
        assert(all.take(i + 1).drop_last() =~= all.take(i));
        assert(all.take(i + 1).last() == all[i]);
        apply(&mut records, op);
    }
    assert(all.take(items.len() as int) =~= all);
    records
}

/// The log after an operation on records that stand at `live`. An advancing snapshot
/// rewrites it to a checkpoint; one that does not advance is not logged; anything else
/// is appended.
pub open spec fn logged(log: Seq<OpModel>, live: RecordsModel, op: OpModel) -> Seq<OpModel> {
    match op {
        OpModel::Snapshot { at, .. } => if advances(live, at) {
            seq![OpModel::Checkpoint(applied(live, op))]
        } else {
            log
        },
        _ => log.push(op),
    }
}

/// Whatever is done to a grain, replaying its log gives what is in memory: a segment
/// that is closed and opened again holds what it held.
pub proof fn law_a_reopened_segment_is_the_live_one(
    log: Seq<OpModel>,
    live: RecordsModel,
    op: OpModel,
)
    requires
        replayed(log) == live,
    ensures
        replayed(logged(log, live, op)) == applied(live, op),
{
    let f = |r: RecordsModel, op: OpModel| applied(r, op);
    let after = logged(log, live, op);
    match op {
        OpModel::Snapshot { at, .. } if !advances(live, at) => {},
        OpModel::Snapshot { .. } => {
            assert(after.drop_last() =~= Seq::<OpModel>::empty());
            assert(after.drop_last().fold_left(no_records(), f) == no_records());
        },
        _ => {
            assert(after.drop_last() =~= log);
        },
    }
}

/// A snapshot that is not newer than the one there is leaves records and log alone.
pub proof fn law_a_redundant_snapshot_writes_nothing(
    log: Seq<OpModel>,
    live: RecordsModel,
    at: SeqNo,
    term: Term,
    state: Seq<u8>,
)
    requires
        live.snapshot is Some,
        at.0 <= live.start,
    ensures
        ({
            let op = OpModel::Snapshot { at, term, state };
            applied(live, op) == live && logged(log, live, op) == log
        }),
{
}

/// A replay takes each operation in turn, from nothing: a checkpoint replaces what was
/// there, a record that fits is written, a snapshot compacts, a roll-back cuts.
pub proof fn law_a_replay_takes_each_operation(log: Seq<OpModel>, op: OpModel)
    ensures
        replayed(seq![]) == no_records(),
        replayed(log.push(op)) == match op {
            OpModel::Checkpoint(state) => state,
            OpModel::Record { after, term, records, kind } => if takes(
                replayed(log),
                after,
                kind,
            ) {
                written(replayed(log), after, term, records)
            } else {
                replayed(log)
            },
            OpModel::Snapshot { at, term, state } => compacted(replayed(log), at, term, state),
            OpModel::Truncate { after, term } => rolled_back(replayed(log), after, term),
        },
{
    assert(log.push(op).drop_last() =~= log);
}

} // verus!
