//! A store that lives in memory, and the single-node journal over it.
//!
//! On a single node an append commits as soon as the one store has taken it: there is
//! always a leader and always a quorum.
use vstd::prelude::*;
use vstd::string::*;

use crate::blobs::blake3_digest;
use crate::blobs::BlobId;
use crate::grain::GrainName;
use crate::journal::AppendOutcome;
use crate::journal::GrainJournalError;
use crate::journal::SeqNo;
use crate::journal::Term;
use crate::key::OrdKey;
use crate::ordmap::OrdMap;
use crate::ordmap::OrdSet;
use crate::store::advances;
use crate::store::compacted;
use crate::store::fence_of;
use crate::store::head_of;
use crate::store::is_sealed;
use crate::store::law_written_records_read_back;
use crate::store::no_records;
use crate::store::raised;
use crate::store::record_admission;
use crate::store::records_from;
use crate::store::rolled_back;
use crate::store::snapshot_admission;
use crate::store::takes;
use crate::store::view_of;
use crate::store::written;
use crate::store::Admission;
use crate::store::BlobAck;
use crate::store::BumpRefusal;
use crate::store::GrainRecords;
use crate::store::Guards;
use crate::store::GuardsModel;
use crate::store::ReadOutcome;
use crate::store::ReadReply;
use crate::store::RecordsModel;
use crate::store::StoreAck;
use crate::store::StoreKey;
use crate::store::StoreKeyModel;
use crate::store::WriteKind;
use crate::text::decimal;
use crate::text::hex;
use crate::text::joined;
use crate::text::push_decimal;

verus! {

/// A node's grain records and blobs, in memory.
#[derive(Debug, PartialEq, Eq)]
pub struct MemoryGrainStore {
    guards: Guards,
    grains: OrdMap<StoreKey, GrainRecords>,
    blobs: OrdMap<StoreKey, OrdMap<BlobId, Vec<u8>>>,
}

#[verifier::ext_equal]
pub struct StoreModel {
    pub guards: GuardsModel,
    pub grains: Map<StoreKeyModel, RecordsModel>,
    pub blobs: Map<StoreKeyModel, Map<Seq<u8>, Seq<u8>>>,
}

impl View for MemoryGrainStore {
    type V = StoreModel;

    closed spec fn view(&self) -> StoreModel {
        StoreModel {
            guards: self.guards@,
            grains: self.grains.deep_view(),
            blobs: self.blobs.deep_view(),
        }
    }
}

/// A grain's records; one never written to has none.
pub open spec fn records_of(m: StoreModel, key: StoreKeyModel) -> RecordsModel {
    if m.grains.contains_key(key) {
        m.grains[key]
    } else {
        no_records()
    }
}

/// A grain's blobs.
pub open spec fn blobs_of(m: StoreModel, key: StoreKeyModel) -> Map<Seq<u8>, Seq<u8>> {
    if m.blobs.contains_key(key) {
        m.blobs[key]
    } else {
        Map::empty()
    }
}

/// The key a grain is stored under.
pub open spec fn key_of(shard: u32, grain: &GrainName) -> StoreKeyModel {
    StoreKeyModel { shard, grain: grain.deep_view() }
}

fn make_key(shard: u32, grain: &GrainName) -> (r: StoreKey)
    ensures
        r.deep_view() == key_of(shard, grain),
{
    StoreKey { shard, grain: grain.dup() }
}

/// The store after records were offered to it.
pub open spec fn recorded(
    m: StoreModel,
    key: StoreKeyModel,
    after: SeqNo,
    term: Term,
    batch: Seq<Seq<u8>>,
    kind: WriteKind,
) -> StoreModel {
    StoreModel {
        guards: raised(m.guards, key.shard, term, kind),
        grains: if takes(records_of(m, key), after, kind) {
            m.grains.insert(key, written(records_of(m, key), after, term, batch))
        } else {
            m.grains
        },
        ..m
    }
}

/// What a store that takes the write answers to it.
pub open spec fn record_ack(r: RecordsModel, after: SeqNo, n: nat, kind: WriteKind) -> StoreAck {
    if takes(r, after, kind) {
        StoreAck::Stored(SeqNo((after.0 + n) as u64))
    } else {
        StoreAck::Stale(SeqNo(head_of(r) as u64))
    }
}

impl MemoryGrainStore {
    pub closed spec fn wf(&self) -> bool {
        &&& self.guards.wf()
        &&& self.grains.wf()
        &&& self.blobs.wf()
        &&& forall|k: StoreKeyModel| #[trigger]
            self.grains@.contains_key(k) ==> self.grains@[k].wf()
        &&& forall|k: StoreKeyModel| #[trigger] self.blobs@.contains_key(k) ==> self.blobs@[k].wf()
    }

    pub fn new() -> (r: MemoryGrainStore)
        ensures
            r.wf(),
            r@.grains == Map::<StoreKeyModel, RecordsModel>::empty(),
            r@.blobs == Map::<StoreKeyModel, Map<Seq<u8>, Seq<u8>>>::empty(),
            r@.guards.fences == Map::<u32, Term>::empty(),
            r@.guards.seals == Map::<u32, u64>::empty(),
    {
        let r = MemoryGrainStore {
            guards: Guards::new(),
            grains: OrdMap::new(),
            blobs: OrdMap::new(),
        };
        assert(r.grains.deep_view() =~= Map::<StoreKeyModel, RecordsModel>::empty());
        assert(r.blobs.deep_view() =~= Map::<StoreKeyModel, Map<Seq<u8>, Seq<u8>>>::empty());
        r
    }

    /// Offer a batch of records behind `after`. `name_hash`: where the grain's name
    /// falls in the range that a bound may close.
    pub fn store_record(
        &mut self,
        shard: u32,
        grain: &GrainName,
        name_hash: u64,
        after: SeqNo,
        term: Term,
        batch: Vec<Vec<u8>>,
        kind: WriteKind,
    ) -> (r: StoreAck)
        requires
            old(self).wf(),
            after.0 + batch@.len() <= u64::MAX,
        ensures
            final(self).wf(),
            match record_admission(old(self)@.guards, shard, name_hash, term, kind) {
                Admission::Refuse(ack) => r == ack && final(self)@ == old(self)@,
                _ => {
                    &&& final(self)@ == recorded(
                        old(self)@,
                        key_of(shard, grain),
                        after,
                        term,
                        batch.deep_view(),
                        kind,
                    )
                    &&& r == record_ack(
                        records_of(old(self)@, key_of(shard, grain)),
                        after,
                        batch@.len(),
                        kind,
                    )
                },
            },
    {
        let ghost before = *self;
        let ghost k = key_of(shard, grain);
        let ghost want = recorded(self@, k, after, term, batch.deep_view(), kind);
        match self.guards.guard_record(shard, name_hash, term, kind) {
            Admission::Refuse(ack) => {
                return ack;
            },
            Admission::Persist => {
                let _raised = self.guards.bump_fence(shard, term, true);
            },
            Admission::Admit => {},
        }
        let key = make_key(shard, grain);
        let ack = match self.grains.get_mut(&key) {
            Some(records) => {
                let ack = records.store_record(after, term, batch, kind);
                ack
            },
            None => {
                let mut records = GrainRecords::new();
                let ack = records.store_record(after, term, batch, kind);
                if let StoreAck::Stored(_) = ack {
                    self.grains.insert(key, records);
                }
                ack
            },
        };
        proof {
            assert(self.grains.deep_view() =~= want.grains);
            assert(self@ =~= want);
        }
        ack
    }

    /// The last position of a grain's records.
    pub fn head(&self, shard: u32, grain: &GrainName) -> (r: SeqNo)
        requires
            self.wf(),
        ensures
            r.0 == head_of(records_of(self@, key_of(shard, grain))),
    {
        match self.grains.get(&make_key(shard, grain)) {
            Some(records) => records.head(),
            None => SeqNo::zero(),
        }
    }

    /// A grain's snapshot and its position.
    pub fn snapshot(&self, shard: u32, grain: &GrainName) -> (r: Option<(SeqNo, Vec<u8>)>)
        requires
            self.wf(),
        ensures
            ({
                let records = records_of(self@, key_of(shard, grain));
                match records.snapshot {
                    Some((_, state)) => r.deep_view() == Some((SeqNo(records.start), state)),
                    None => r is None,
                }
            }),
    {
        match self.grains.get(&make_key(shard, grain)) {
            Some(records) => records.snapshot(),
            None => None,
        }
    }

    /// A grain's records above `from`, at most `limit`.
    pub fn read_from(&self, shard: u32, grain: &GrainName, from: SeqNo, limit: usize) -> (r: Vec<
        (SeqNo, Vec<u8>),
    >)
        requires
            self.wf(),
        ensures
            r.deep_view() == records_from(
                records_of(self@, key_of(shard, grain)),
                from,
                limit as nat,
            ),
    {
        match self.grains.get(&make_key(shard, grain)) {
            Some(records) => records.read_from(from, limit),
            None => {
                let out: Vec<(SeqNo, Vec<u8>)> = Vec::new();
                assert(out.deep_view() =~= records_from(no_records(), from, limit as nat));
                out
            },
        }
    }

    /// What the store holds of a grain.
    pub fn read(&self, shard: u32, grain: &GrainName) -> (r: ReadReply)
        requires
            self.wf(),
        ensures
            r.deep_view() == view_of(records_of(self@, key_of(shard, grain))),
    {
        match self.grains.get(&make_key(shard, grain)) {
            Some(records) => records.read(),
            None => {
                let r = ReadReply { slots: Vec::new(), snapshot: None };
                assert(r.slots.deep_view() =~= view_of(no_records()).slots);
                r
            },
        }
    }

    /// Promise a term, and read the grain under it.
    pub fn prepare(&mut self, shard: u32, grain: &GrainName, term: Term) -> (r: ReadOutcome)
        requires
            old(self).wf(),
        ensures
            final(self).wf(),
            ({
                let fence = fence_of(old(self)@.guards, shard);
                if term.0 < fence.0 {
                    r == ReadOutcome::Fenced(fence) && final(self)@ == old(self)@
                } else {
                    &&& r matches ReadOutcome::Prepared(reply)
                    &&& reply.deep_view() == view_of(
                        records_of(old(self)@, key_of(shard, grain)),
                    )
                    &&& final(self)@ == (StoreModel {
                        guards: raised(old(self)@.guards, shard, term, WriteKind::Repair),
                        ..old(self)@
                    })
                }
            }),
    {
        match self.guards.bump_fence(shard, term, true) {
            Ok(()) => ReadOutcome::Prepared(self.read(shard, grain)),
            Err(BumpRefusal::Fenced(fence)) => ReadOutcome::Fenced(fence),
            Err(BumpRefusal::Failed) => ReadOutcome::Failed,
        }
    }

    /// Keep a snapshot of a grain, and compact the records it subsumes.
    pub fn store_snapshot(
        &mut self,
        shard: u32,
        grain: &GrainName,
        at: SeqNo,
        term: Term,
        state: Vec<u8>,
        kind: WriteKind,
    ) -> (r: StoreAck)
        requires
            old(self).wf(),
        ensures
            final(self).wf(),
            match snapshot_admission(old(self)@.guards, shard, term, kind) {
                Admission::Refuse(ack) => r == ack && final(self)@ == old(self)@,
                _ => {
                    let k = key_of(shard, grain);
                    &&& r == StoreAck::Stored(at)
                    &&& final(self)@ == (StoreModel {
                        guards: raised(old(self)@.guards, shard, term, kind),
                        grains: old(self)@.grains.insert(
                            k,
                            compacted(records_of(old(self)@, k), at, term, state@),
                        ),
                        ..old(self)@
                    })
                },
            },
    {
        let ghost k = key_of(shard, grain);
        let ghost want = StoreModel {
            guards: raised(self@.guards, shard, term, kind),
            grains: self@.grains.insert(k, compacted(records_of(self@, k), at, term, state@)),
            ..self@
        };
        match self.guards.guard_snapshot(shard, term, kind) {
            Admission::Refuse(ack) => {
                return ack;
            },
            Admission::Persist => {
                let _raised = self.guards.bump_fence(shard, term, true);
            },
            Admission::Admit => {},
        }
        let key = make_key(shard, grain);
        let ack = match self.grains.get_mut(&key) {
            Some(records) => {
                let (ack, _) = records.store_snapshot(at, term, state);
                ack
            },
            None => {
                let mut records = GrainRecords::new();
                let (ack, _) = records.store_snapshot(at, term, state);
                self.grains.insert(key, records);
                ack
            },
        };
        proof {
            assert(self.grains.deep_view() =~= want.grains);
            assert(self@ =~= want);
        }
        ack
    }

    /// Drop the tail above `after` that `term` wrote.
    pub fn truncate(&mut self, shard: u32, grain: &GrainName, after: SeqNo, term: Term)
        requires
            old(self).wf(),
        ensures
            final(self).wf(),
            final(self)@.guards == old(self)@.guards,
            final(self)@.blobs == old(self)@.blobs,
            ({
                let k = key_of(shard, grain);
                final(self)@.grains == if old(self)@.grains.contains_key(k) {
                    old(self)@.grains.insert(k, rolled_back(old(self)@.grains[k], after, term))
                } else {
                    old(self)@.grains
                }
            }),
    {
        let ghost k = key_of(shard, grain);
        let ghost before = self@;
        let key = make_key(shard, grain);
        if let Some(records) = self.grains.get_mut(&key) {
            records.truncate(after, term);
        }
        proof {
            if before.grains.contains_key(k) {
                assert(self.grains.deep_view() =~= before.grains.insert(
                    k,
                    rolled_back(before.grains[k], after, term),
                ));
            } else {
                assert(self.grains.deep_view() =~= before.grains);
            }
        }
    }
}

impl MemoryGrainStore {
    /// Store a blob. One that is there already stays as it is: equal ids mean equal
    /// content.
    pub fn put_blob(&mut self, shard: u32, grain: &GrainName, id: &BlobId, bytes: Vec<u8>) -> (r:
        BlobAck)
        requires
            old(self).wf(),
        ensures
            final(self).wf(),
            r == BlobAck::Stored,
            final(self)@.guards == old(self)@.guards,
            final(self)@.grains == old(self)@.grains,
            ({
                let k = key_of(shard, grain);
                let held = blobs_of(old(self)@, k);
                final(self)@.blobs == if held.contains_key(id@) {
                    old(self)@.blobs
                } else {
                    old(self)@.blobs.insert(k, held.insert(id@, bytes@))
                }
            }),
    {
        let ghost k = key_of(shard, grain);
        let ghost before = self@;
        let ghost held = blobs_of(before, k);
        let key = make_key(shard, grain);
        if self.has_blob(shard, grain, id) {
            return BlobAck::Stored;
        }
        let ghost content = bytes@;
        assert(bytes.deep_view() =~= content);
        match self.blobs.get_mut(&key) {
            Some(blobs) => {
                let ghost was = *blobs;
                blobs.insert(id.dup(), bytes);
                assert(blobs.deep_view() =~= was.deep_view().insert(id@, content));
            },
            None => {
                let mut blobs: OrdMap<BlobId, Vec<u8>> = OrdMap::new();
                let ghost was = blobs;
                blobs.insert(id.dup(), bytes);
                assert(blobs.deep_view() =~= was.deep_view().insert(id@, content));
                assert(was.deep_view() =~= Map::<Seq<u8>, Seq<u8>>::empty());
                self.blobs.insert(key, blobs);
            },
        }
        assert(self.blobs.deep_view() =~= before.blobs.insert(k, held.insert(id@, content)));
        BlobAck::Stored
    }

    /// A blob's bytes, as they are held.
    pub fn get_blob(&self, shard: u32, grain: &GrainName, id: &BlobId) -> (r: Option<Vec<u8>>)
        requires
            self.wf(),
        ensures
            ({
                let held = blobs_of(self@, key_of(shard, grain));
                if held.contains_key(id@) {
                    r is Some && r->0@ == held[id@]
                } else {
                    r is None
                }
            }),
    {
        match self.blobs.get(&make_key(shard, grain)) {
            Some(blobs) => match blobs.get(id) {
                Some(bytes) => {
                    assert(bytes.deep_view() =~= bytes@);
                    Some(vstd::slice::slice_to_vec(bytes.as_slice()))
                },
                None => None,
            },
            None => None,
        }
    }

    /// Whether a blob is held.
    pub fn has_blob(&self, shard: u32, grain: &GrainName, id: &BlobId) -> (r: bool)
        requires
            self.wf(),
        ensures
            r == blobs_of(self@, key_of(shard, grain)).contains_key(id@),
    {
        match self.blobs.get(&make_key(shard, grain)) {
            Some(blobs) => blobs.contains_key(id),
            None => false,
        }
    }

    /// Drop all of a grain's blobs.
    pub fn delete_blobs(&mut self, shard: u32, grain: &GrainName)
        requires
            old(self).wf(),
        ensures
            final(self).wf(),
            final(self)@ == (StoreModel {
                blobs: old(self)@.blobs.remove(key_of(shard, grain)),
                ..old(self)@
            }),
    {
        let ghost before = self@;
        self.blobs.remove(&make_key(shard, grain));
        assert(self.blobs.deep_view() =~= before.blobs.remove(key_of(shard, grain)));
    }

    /// Drop a grain's blobs but for those in `retain`.
    pub fn retain_blobs(&mut self, shard: u32, grain: &GrainName, retain: &OrdSet<BlobId>)
        requires
            old(self).wf(),
            retain.wf(),
        ensures
            final(self).wf(),
            final(self)@.guards == old(self)@.guards,
            final(self)@.grains == old(self)@.grains,
            ({
                let k = key_of(shard, grain);
                final(self)@.blobs == if old(self)@.blobs.contains_key(k) {
                    old(self)@.blobs.insert(k, old(self)@.blobs[k].restrict(retain@))
                } else {
                    old(self)@.blobs
                }
            }),
    {
        let ghost k = key_of(shard, grain);
        let ghost before = self@;
        let key = make_key(shard, grain);
        let kept = match self.blobs.get(&key) {
            Some(blobs) => retained(blobs, retain),
            None => {
                return;
            },
        };
        self.blobs.insert(key, kept);
        assert(self.blobs.deep_view() =~= before.blobs.insert(k, before.blobs[k].restrict(retain@)));
    }
}

/// The blobs whose ids are in `retain`.
fn retained(blobs: &OrdMap<BlobId, Vec<u8>>, retain: &OrdSet<BlobId>) -> (r: OrdMap<
    BlobId,
    Vec<u8>,
>)
    requires
        blobs.wf(),
        retain.wf(),
    ensures
        r.wf(),
        r.deep_view() == blobs.deep_view().restrict(retain@),
{
    let mut kept: OrdMap<BlobId, Vec<u8>> = OrdMap::new();
    let mut i: usize = 0;
    let ghost keys = blobs.key_seq();
    proof {
        blobs.lemma_keys();
    }
    while i < blobs.len()
        invariant
            blobs.wf(),
            retain.wf(),
            kept.wf(),
            keys == blobs.key_seq(),
            keys.no_duplicates(),
            i <= keys.len(),
            forall|id: Seq<u8>| #[trigger]
                kept@.contains_key(id) <==> retain@.contains(id) && keys.take(i as int).contains(
                    id,
                ),
            forall|id: Seq<u8>| #[trigger]
                kept@.contains_key(id) ==> kept@[id].deep_view() == blobs.deep_view()[id],
            forall|id: Seq<u8>| keys.contains(id) <==> #[trigger] blobs@.contains_key(id),
        decreases keys.len() - i,
    {
        let id = blobs.key_at(i);
        let ghost was = kept@;
        if retain.contains(id) {
            let bytes = vstd::slice::slice_to_vec(blobs.value_at(i).as_slice());
            assert(bytes.deep_view() =~= blobs@[keys[i as int]].deep_view());
            kept.insert(id.dup(), bytes);
        }
        proof {
            assert(keys.take(i + 1) =~= keys.take(i as int).push(keys[i as int]));
            assert forall|k: Seq<u8>| keys.take(i + 1).contains(k) <==> keys.take(
                i as int,
            ).contains(k) || k == keys[i as int] by {
                if keys.take(i as int).contains(k) {
                    let j = keys.take(i as int).index_of(k);
                    assert(keys.take(i + 1)[j] == k);
                }
                if k == keys[i as int] {
                    assert(keys.take(i + 1)[i as int] == k);
                }
                if keys.take(i + 1).contains(k) {
                    let j = keys.take(i + 1).index_of(k);
                    if j < i {
                        assert(keys.take(i as int)[j] == k);
                    }
                }
            }
        }
        i = i + 1;
    }
    proof {
        assert(keys.take(i as int) =~= keys);
        assert(kept.deep_view() =~= blobs.deep_view().restrict(retain@));
    }
    kept
}

// ---- The single-node journal ----

/// An acknowledgement in words.
pub open spec fn ack_words(ack: StoreAck) -> Seq<char> {
    match ack {
        StoreAck::Stored(at) => "Stored(Seq("@ + decimal(at.0 as nat) + "))"@,
        StoreAck::Fenced(term) => "Fenced(Term("@ + decimal(term.0 as nat) + "))"@,
        StoreAck::Stale(head) => "Stale(Seq("@ + decimal(head.0 as nat) + "))"@,
        StoreAck::Sealed => "Sealed"@,
        StoreAck::Failed => "Failed"@,
    }
}

impl StoreAck {
    /// The acknowledgement in words.
    pub fn to_text(&self) -> (r: String)
        ensures
            r@ == ack_words(*self),
    {
        match self {
            StoreAck::Stored(at) => numbered("Stored(Seq(", at.0),
            StoreAck::Fenced(term) => numbered("Fenced(Term(", term.0),
            StoreAck::Stale(head) => numbered("Stale(Seq(", head.0),
            StoreAck::Sealed => "Sealed".to_owned(),
            StoreAck::Failed => "Failed".to_owned(),
        }
    }
}

fn numbered(label: &str, n: u64) -> (r: String)
    ensures
        r@ == label@ + decimal(n as nat) + "))"@,
{
    let mut out = label.to_owned();
    push_decimal(&mut out, n);
    out.append("))");
    out
}

/// How a write to the one store ends for the journal: what the store took is
/// committed; any refusal leaves it unavailable, saying `what` was refused.
pub open spec fn settles(ack: StoreAck, what: Seq<char>, out: AppendOutcome) -> bool {
    match ack {
        StoreAck::Stored(at) => out == AppendOutcome::Committed(at),
        _ => out matches AppendOutcome::Unavailable(why) && why@ == "local store rejected the "@
            + what + ": "@ + ack_words(ack),
    }
}

/// The outcome of a write, from the store's answer.
pub fn settle(ack: StoreAck, what: &str) -> (r: AppendOutcome)
    ensures
        settles(ack, what@, r),
{
    match ack {
        StoreAck::Stored(at) => AppendOutcome::Committed(at),
        other => {
            let mut why = joined("local store rejected the ", what);
            why.append(": ");
            why.append(other.to_text().as_str());
            AppendOutcome::Unavailable(why)
        },
    }
}

/// The outcome of storing a blob: the single store is all the durability there is.
pub fn settle_blob(ack: BlobAck) -> (r: Result<(), GrainJournalError>)
    ensures
        match ack {
            BlobAck::Stored => r is Ok,
            BlobAck::Failed => r matches Err(GrainJournalError::Unavailable(why)) && why@
                == "local store could not persist the blob"@,
        },
{
    match ack {
        BlobAck::Stored => Ok(()),
        BlobAck::Failed => Err(
            GrainJournalError::Unavailable("local store could not persist the blob".to_owned()),
        ),
    }
}

/// The outcome of reading a blob, from what the store holds: bytes that do not hash to
/// the id are an error, never handed out.
pub open spec fn verified(
    id: Seq<u8>,
    found: Option<Seq<u8>>,
    out: Result<Option<Vec<u8>>, GrainJournalError>,
) -> bool {
    match found {
        None => out == Ok::<Option<Vec<u8>>, GrainJournalError>(None),
        Some(bytes) => if blake3_digest(bytes) == id {
            out matches Ok(Some(got)) && got@ == bytes
        } else {
            out matches Err(GrainJournalError::Unavailable(why)) && why@ == "blob "@ + hex(id)
                + " failed verification"@
        },
    }
}

/// Check what the store holds of a blob against its id.
pub fn verify_blob(id: &BlobId, found: Option<Vec<u8>>) -> (r: Result<
    Option<Vec<u8>>,
    GrainJournalError,
>)
    ensures
        verified(
            id@,
            match found {
                Some(bytes) => Some(bytes@),
                None => None,
            },
            r,
        ),
{
    match found {
        None => Ok(None),
        Some(bytes) => if id.verifies(bytes.as_slice()) {
            Ok(Some(bytes))
        } else {
            let mut why = joined("blob ", id.to_hex().as_str());
            why.append(" failed verification");
            Err(GrainJournalError::Unavailable(why))
        },
    }
}

/// The single-node journal: records live in this node's store, keyed under one shard.
#[derive(Debug, PartialEq, Eq)]
pub struct LocalGrainJournal {
    store: MemoryGrainStore,
    shard: u32,
}

impl View for LocalGrainJournal {
    type V = StoreModel;

    closed spec fn view(&self) -> StoreModel {
        self.store@
    }
}

impl LocalGrainJournal {
    pub closed spec fn wf(&self) -> bool {
        self.store.wf()
    }

    /// The shard its records are keyed under.
    pub closed spec fn shard(&self) -> u32 {
        self.shard
    }

    /// A journal over a fresh, empty store, for shard 0.
    pub fn new() -> (r: LocalGrainJournal)
        ensures
            r.wf(),
            r.shard() == 0,
            r@.grains == Map::<StoreKeyModel, RecordsModel>::empty(),
            r@.blobs == Map::<StoreKeyModel, Map<Seq<u8>, Seq<u8>>>::empty(),
            r@.guards.fences == Map::<u32, Term>::empty(),
            r@.guards.seals == Map::<u32, u64>::empty(),
    {
        LocalGrainJournal::over(MemoryGrainStore::new(), 0)
    }

    /// A journal over `store`, keying its records under `shard`.
    pub fn over(store: MemoryGrainStore, shard: u32) -> (r: LocalGrainJournal)
        requires
            store.wf(),
        ensures
            r.wf(),
            r.shard() == shard,
            r@ == store@,
    {
        LocalGrainJournal { store, shard }
    }

    /// Append behind `after`: it commits at once.
    pub fn append(
        &mut self,
        grain: &GrainName,
        name_hash: u64,
        after: SeqNo,
        events: Vec<Vec<u8>>,
    ) -> (r: AppendOutcome)
        requires
            old(self).wf(),
            after.0 + events@.len() <= u64::MAX,
        ensures
            final(self).wf(),
            final(self).shard() == old(self).shard(),
            ({
                let k = key_of(old(self).shard(), grain);
                match record_admission(
                    old(self)@.guards,
                    old(self).shard(),
                    name_hash,
                    Term(0),
                    WriteKind::Append,
                ) {
                    Admission::Refuse(ack) => settles(ack, "append"@, r) && final(self)@ == old(
                        self,
                    )@,
                    _ => {
                        &&& final(self)@ == recorded(
                            old(self)@,
                            k,
                            after,
                            Term(0),
                            events.deep_view(),
                            WriteKind::Append,
                        )
                        &&& settles(
                            record_ack(
                                records_of(old(self)@, k),
                                after,
                                events@.len(),
                                WriteKind::Append,
                            ),
                            "append"@,
                            r,
                        )
                    },
                }
            }),
    {
        let ack = self.store.store_record(
            self.shard,
            grain,
            name_hash,
            after,
            Term(0),
            events,
            WriteKind::Append,
        );
        settle(ack, "append")
    }

    /// The committed records above `from`, at most `limit`.
    pub fn load(&self, grain: &GrainName, from: SeqNo, limit: usize) -> (r: Result<
        Vec<(SeqNo, Vec<u8>)>,
        GrainJournalError,
    >)
        requires
            self.wf(),
        ensures
            r matches Ok(page) && page.deep_view() == records_from(
                records_of(self@, key_of(self.shard(), grain)),
                from,
                limit as nat,
            ),
    {
        Ok(self.store.read_from(self.shard, grain, from, limit))
    }

    /// The committed head.
    pub fn head(&self, grain: &GrainName) -> (r: Result<SeqNo, GrainJournalError>)
        requires
            self.wf(),
        ensures
            r matches Ok(head) && head.0 == head_of(
                records_of(self@, key_of(self.shard(), grain)),
            ),
    {
        Ok(self.store.head(self.shard, grain))
    }

    /// The term this node leads under: a single node always leads, under the first one.
    pub fn term(&self) -> (r: Option<Term>)
        ensures
            r == Some(Term(0)),
    {
        Some(Term(0))
    }

    /// Keep a snapshot.
    pub fn save_snapshot(&mut self, grain: &GrainName, at: SeqNo, state: Vec<u8>) -> (r:
        AppendOutcome)
        requires
            old(self).wf(),
        ensures
            final(self).wf(),
            final(self).shard() == old(self).shard(),
            ({
                let shard = old(self).shard();
                let k = key_of(shard, grain);
                match snapshot_admission(old(self)@.guards, shard, Term(0), WriteKind::Append) {
                    Admission::Refuse(ack) => settles(ack, "snapshot"@, r) && final(self)@ == old(
                        self,
                    )@,
                    _ => {
                        &&& r == AppendOutcome::Committed(at)
                        &&& final(self)@ == (StoreModel {
                            guards: raised(old(self)@.guards, shard, Term(0), WriteKind::Append),
                            grains: old(self)@.grains.insert(
                                k,
                                compacted(records_of(old(self)@, k), at, Term(0), state@),
                            ),
                            ..old(self)@
                        })
                    },
                }
            }),
    {
        let ack = self.store.store_snapshot(
            self.shard,
            grain,
            at,
            Term(0),
            state,
            WriteKind::Append,
        );
        settle(ack, "snapshot")
    }

    /// The latest snapshot and its position.
    pub fn load_snapshot(&self, grain: &GrainName) -> (r: Result<
        Option<(SeqNo, Vec<u8>)>,
        GrainJournalError,
    >)
        requires
            self.wf(),
        ensures
            ({
                let records = records_of(self@, key_of(self.shard(), grain));
                r matches Ok(found) && match records.snapshot {
                    Some((_, state)) => found.deep_view() == Some((SeqNo(records.start), state)),
                    None => found is None,
                }
            }),
    {
        Ok(self.store.snapshot(self.shard, grain))
    }

    /// Store a blob.
    pub fn put_blob(&mut self, grain: &GrainName, id: &BlobId, bytes: Vec<u8>) -> (r: Result<
        (),
        GrainJournalError,
    >)
        requires
            old(self).wf(),
        ensures
            final(self).wf(),
            final(self).shard() == old(self).shard(),
            r is Ok,
            final(self)@.guards == old(self)@.guards,
            final(self)@.grains == old(self)@.grains,
            ({
                let k = key_of(old(self).shard(), grain);
                let held = blobs_of(old(self)@, k);
                final(self)@.blobs == if held.contains_key(id@) {
                    old(self)@.blobs
                } else {
                    old(self)@.blobs.insert(k, held.insert(id@, bytes@))
                }
            }),
    {
        settle_blob(self.store.put_blob(self.shard, grain, id, bytes))
    }

    /// A blob's bytes, checked against its id.
    pub fn get_blob(&self, grain: &GrainName, id: &BlobId) -> (r: Result<
        Option<Vec<u8>>,
        GrainJournalError,
    >)
        requires
            self.wf(),
        ensures
            ({
                let held = blobs_of(self@, key_of(self.shard(), grain));
                verified(
                    id@,
                    if held.contains_key(id@) {
                        Some(held[id@])
                    } else {
                        None
                    },
                    r,
                )
            }),
    {
        verify_blob(id, self.store.get_blob(self.shard, grain, id))
    }

    /// Whether a blob is held.
    pub fn has_blob(&self, grain: &GrainName, id: &BlobId) -> (r: Result<bool, GrainJournalError>)
        requires
            self.wf(),
        ensures
            r == Ok::<bool, GrainJournalError>(
                blobs_of(self@, key_of(self.shard(), grain)).contains_key(id@),
            ),
    {
        Ok(self.store.has_blob(self.shard, grain, id))
    }

    /// Drop a grain's blobs but for those named.
    pub fn retain_blobs(&mut self, grain: &GrainName, retain: &OrdSet<BlobId>)
        requires
            old(self).wf(),
            retain.wf(),
        ensures
            final(self).wf(),
            final(self).shard() == old(self).shard(),
            final(self)@.guards == old(self)@.guards,
            final(self)@.grains == old(self)@.grains,
            ({
                let k = key_of(old(self).shard(), grain);
                final(self)@.blobs == if old(self)@.blobs.contains_key(k) {
                    old(self)@.blobs.insert(k, old(self)@.blobs[k].restrict(retain@))
                } else {
                    old(self)@.blobs
                }
            }),
    {
        self.store.retain_blobs(self.shard, grain, retain)
    }

    /// Drop all of a grain's blobs.
    pub fn delete_blobs(&mut self, grain: &GrainName)
        requires
            old(self).wf(),
        ensures
            final(self).wf(),
            final(self).shard() == old(self).shard(),
            final(self)@ == (StoreModel {
                blobs: old(self)@.blobs.remove(key_of(old(self).shard(), grain)),
                ..old(self)@
            }),
    {
        self.store.delete_blobs(self.shard, grain)
    }
}

impl Default for LocalGrainJournal {
    fn default() -> (r: LocalGrainJournal)
        ensures
            r.wf(),
            r.shard() == 0,
            r@.grains == Map::<StoreKeyModel, RecordsModel>::empty(),
            r@.blobs == Map::<StoreKeyModel, Map<Seq<u8>, Seq<u8>>>::empty(),
    {
        LocalGrainJournal::new()
    }
}

/// On a store whose fences stand at the first term and whose bounds do not reach the
/// grain, an append behind the head always commits, one position per event.
pub proof fn law_a_local_append_always_commits(
    m: StoreModel,
    shard: u32,
    grain: &GrainName,
    name_hash: u64,
    n: nat,
)
    requires
        fence_of(m.guards, shard) == Term(0),
        !is_sealed(m.guards, shard, name_hash),
        head_of(records_of(m, key_of(shard, grain))) + n <= u64::MAX,
    ensures
        ({
            let records = records_of(m, key_of(shard, grain));
            let head = SeqNo(head_of(records) as u64);
            &&& record_admission(m.guards, shard, name_hash, Term(0), WriteKind::Append)
                == Admission::Admit
            &&& record_ack(records, head, n, WriteKind::Append) == StoreAck::Stored(
                SeqNo((head.0 + n) as u64),
            )
        }),
{
}

/// What is written to one grain leaves every other grain's records as they were.
pub proof fn law_grains_are_independent(
    m: StoreModel,
    key: StoreKeyModel,
    other: StoreKeyModel,
    after: SeqNo,
    term: Term,
    batch: Seq<Seq<u8>>,
    kind: WriteKind,
)
    requires
        other != key,
    ensures
        records_of(recorded(m, key, after, term, batch, kind), other) == records_of(m, other),
        blobs_of(recorded(m, key, after, term, batch, kind), other) == blobs_of(m, other),
{
}

/// A blob stored under its content id is read back as it was stored.
pub proof fn law_a_stored_blob_reads_back(
    held: Map<Seq<u8>, Seq<u8>>,
    bytes: Seq<u8>,
    out: Result<Option<Vec<u8>>, GrainJournalError>,
)
    requires
        verified(
            blake3_digest(bytes),
            Some(held.insert(blake3_digest(bytes), bytes)[blake3_digest(bytes)]),
            out,
        ),
    ensures
        out matches Ok(Some(got)) && got@ == bytes,
{
}

/// What was appended behind the head is loaded back from there, each record at its
/// position.
pub proof fn law_an_appended_batch_loads_back(
    m: StoreModel,
    key: StoreKeyModel,
    term: Term,
    batch: Seq<Seq<u8>>,
)
    requires
        head_of(records_of(m, key)) + batch.len() <= u64::MAX,
    ensures
        ({
            let head = SeqNo(head_of(records_of(m, key)) as u64);
            records_from(
                records_of(recorded(m, key, head, term, batch, WriteKind::Append), key),
                head,
                batch.len(),
            ) == Seq::new(batch.len(), |i: int| (SeqNo((head.0 + i + 1) as u64), batch[i]))
        }),
{
    let r = records_of(m, key);
    let head = SeqNo(head_of(r) as u64);
    law_written_records_read_back(r, head, term, batch);
}

/// A snapshot that is newer than the one there is is the one that is loaded.
pub proof fn law_a_newer_snapshot_is_the_one_loaded(
    m: StoreModel,
    key: StoreKeyModel,
    at: SeqNo,
    term: Term,
    state: Seq<u8>,
)
    requires
        advances(records_of(m, key), at),
    ensures
        ({
            let after = compacted(records_of(m, key), at, term, state);
            after.start == at.0 && after.snapshot == Some((term, state))
        }),
{
}

/// A store that takes a write says where its batch ends; one that does not says where its
/// records end, and keeps them.
pub proof fn law_a_store_says_what_it_took(
    m: StoreModel,
    key: StoreKeyModel,
    after: SeqNo,
    term: Term,
    batch: Seq<Seq<u8>>,
    kind: WriteKind,
)
    requires
        after.0 + batch.len() <= u64::MAX,
        head_of(records_of(m, key)) <= u64::MAX,
    ensures
        ({
            let r = records_of(m, key);
            let ack = record_ack(r, after, batch.len(), kind);
            let after_it = recorded(m, key, after, term, batch, kind);
            &&& takes(r, after, kind) ==> ack == StoreAck::Stored(
                SeqNo((after.0 + batch.len()) as u64),
            ) && records_of(after_it, key) == written(r, after, term, batch)
            &&& !takes(r, after, kind) ==> ack == StoreAck::Stale(SeqNo(head_of(r) as u64))
                && after_it.grains == m.grains
            &&& after_it.blobs == m.blobs
            &&& after_it.guards == raised(m.guards, key.shard, term, kind)
        }),
{
}

/// A grain's records and blobs are those under its own key; one that was never written to
/// has none.
pub proof fn law_a_grain_has_what_is_under_its_key(m: StoreModel, key: StoreKeyModel)
    ensures
        m.grains.contains_key(key) ==> records_of(m, key) == m.grains[key],
        !m.grains.contains_key(key) ==> head_of(records_of(m, key)) == 0 && records_of(
            m,
            key,
        ).snapshot is None,
        m.blobs.contains_key(key) ==> blobs_of(m, key) == m.blobs[key],
        !m.blobs.contains_key(key) ==> blobs_of(m, key) == Map::<Seq<u8>, Seq<u8>>::empty(),
{
}

/// A write commits exactly if the store took it, where the store says; and a blob is handed
/// out exactly if its bytes hash to the id they were asked under.
pub proof fn law_only_what_the_store_took_commits(
    ack: StoreAck,
    what: Seq<char>,
    out: AppendOutcome,
    id: Seq<u8>,
    bytes: Seq<u8>,
    got: Result<Option<Vec<u8>>, GrainJournalError>,
)
    requires
        settles(ack, what, out),
        verified(id, Some(bytes), got),
    ensures
        out is Committed <==> ack is Stored,
        ack matches StoreAck::Stored(at) ==> out == AppendOutcome::Committed(at),
        !(ack is Stored) ==> out is Unavailable,
        got is Ok <==> blake3_digest(bytes) == id,
        got matches Ok(found) ==> found is Some && found->0@ == bytes,
{
}

/// A grain is stored under its own shard and name, and under no other's.
pub proof fn law_a_grains_key_is_its_own(shard: u32, grain: &GrainName, other: u32, name: &GrainName)
    ensures
        key_of(shard, grain).shard == shard,
        key_of(shard, grain).grain == grain.deep_view(),
        key_of(shard, grain) == key_of(other, name) <==> shard == other && grain.deep_view()
            == name.deep_view(),
{
}

} // verus!
