//! The in-memory store and journal, and the decisions of the file store.
use granary::blobs::BlobId;
use granary::error::CallError;
use granary::error::NodeId;
use granary::facet_blobs::set_of;
use granary::file_store::grains_above;
use granary::file_store::store_dir;
use granary::file_store::Access;
use granary::file_store::BlobRead;
use granary::file_store::BlobWrite;
use granary::file_store::FileGrainStore;
use granary::file_store::ManifestEntry;
use granary::file_store::StoreFactory;
use granary::grain::GrainName;
use granary::journal::AppendOutcome;
use granary::journal::GrainJournalError;
use granary::journal::SeqNo;
use granary::journal::Term;
use granary::memory::settle;
use granary::memory::settle_blob;
use granary::memory::verify_blob;
use granary::memory::LocalGrainJournal;
use granary::memory::MemoryGrainStore;
use granary::ordmap::OrdSet;
use granary::replica_store::reach;
use granary::replica_store::replica_store_key_id;
use granary::replica_store::sweep_blobs;
use granary::segment::replay;
use granary::segment::SegOp;
use granary::store::Admission;
use granary::store::BlobAck;
use granary::store::BumpRefusal;
use granary::store::FenceStep;
use granary::store::GrainCheckpoint;
use granary::store::GrainRecords;
use granary::store::Guards;
use granary::store::ReadOutcome;
use granary::store::StoreAck;
use granary::store::WriteKind;
use granary::store_files::admit_store_stamp;
use granary::store_files::parse_shard;
use granary::store_files::read_checksummed_u64;
use granary::store_files::shard_bytes;
use granary::store_files::to_sweep;
use granary::store_files::write_checksummed_u64;
use granary::wire::from_bytes;
use granary::wire::to_bytes;
use std::collections::BTreeMap;

fn name(key: &str) -> GrainName {
    GrainName::new("test.Grain", key)
}

// ---- The single-node journal ----

#[test]
fn append_commits_at_sequential_heads() {
    let mut j = LocalGrainJournal::new();
    let n = name("a");
    assert_eq!(j.head(&n), Ok(SeqNo::zero()));
    assert_eq!(
        j.append(&n, 0, SeqNo::zero(), vec![b"e1".to_vec()]),
        AppendOutcome::Committed(SeqNo::new(1))
    );
    // A two-event batch is one atomic entry; the head jumps by the batch size.
    assert_eq!(
        j.append(&n, 0, SeqNo::new(1), vec![b"e2".to_vec(), b"e3".to_vec()]),
        AppendOutcome::Committed(SeqNo::new(3))
    );
    assert_eq!(j.head(&n), Ok(SeqNo::new(3)));
}

#[test]
fn load_is_exclusive_of_from_and_bounded_by_limit() {
    let mut j = LocalGrainJournal::new();
    let n = name("a");
    j.append(&n, 0, SeqNo::zero(), vec![b"e1".to_vec(), b"e2".to_vec(), b"e3".to_vec()]);
    assert_eq!(
        j.load(&n, SeqNo::zero(), 10),
        Ok(vec![
            (SeqNo::new(1), b"e1".to_vec()),
            (SeqNo::new(2), b"e2".to_vec()),
            (SeqNo::new(3), b"e3".to_vec()),
        ])
    );
    assert_eq!(j.load(&n, SeqNo::new(1), 1), Ok(vec![(SeqNo::new(2), b"e2".to_vec())]));
    assert_eq!(j.load(&n, SeqNo::new(3), 10), Ok(Vec::new()));
}

#[test]
fn snapshot_round_trips_and_grains_are_independent() {
    let mut j = LocalGrainJournal::new();
    let a = name("a");
    let b = name("b");
    assert_eq!(j.load_snapshot(&a), Ok(None));
    j.save_snapshot(&a, SeqNo::new(2), b"state-a".to_vec());
    assert_eq!(j.load_snapshot(&a), Ok(Some((SeqNo::new(2), b"state-a".to_vec()))));
    assert_eq!(j.head(&b), Ok(SeqNo::zero()));
    assert_eq!(j.load_snapshot(&b), Ok(None));
}

#[test]
fn a_local_blob_is_verified_on_read() {
    let mut j = LocalGrainJournal::default();
    let n = name("a");
    let id = BlobId::of(b"good");
    assert_eq!(j.get_blob(&n, &id), Ok(None));
    assert_eq!(j.put_blob(&n, &id, b"good".to_vec()), Ok(()));
    assert_eq!(j.get_blob(&n, &id), Ok(Some(b"good".to_vec())));
    assert_eq!(j.has_blob(&n, &id), Ok(true));
    // Bytes that do not hash to the id are an error, never handed out.
    let rotten = BlobId::of(b"other");
    j.put_blob(&n, &rotten, b"rot".to_vec()).unwrap();
    assert_eq!(
        j.get_blob(&n, &rotten),
        Err(GrainJournalError::Unavailable(format!(
            "blob {} failed verification",
            rotten.to_hex()
        )))
    );
    j.retain_blobs(&n, &set_of(&vec![id]));
    assert_eq!(j.has_blob(&n, &rotten), Ok(false));
    assert_eq!(j.has_blob(&n, &id), Ok(true));
    j.delete_blobs(&n);
    assert_eq!(j.has_blob(&n, &id), Ok(false));
    assert_eq!(j.term(), Some(Term::zero()));
}

#[test]
fn a_refused_local_write_says_why() {
    assert_eq!(
        settle(StoreAck::Fenced(Term::new(5)), "append"),
        AppendOutcome::Unavailable("local store rejected the append: Fenced(Term(5))".into())
    );
    assert_eq!(
        settle(StoreAck::Sealed, "snapshot"),
        AppendOutcome::Unavailable("local store rejected the snapshot: Sealed".into())
    );
    assert_eq!(
        settle_blob(BlobAck::Failed),
        Err(GrainJournalError::Unavailable("local store could not persist the blob".into()))
    );
    assert_eq!(verify_blob(&BlobId::of(b"x"), None), Ok(None));
    let mut j = LocalGrainJournal::new();
    assert_eq!(
        j.append(&name("a"), 0, SeqNo::new(4), vec![vec![1]]),
        AppendOutcome::Unavailable("local store rejected the append: Stale(Seq(0))".into())
    );
}

// ---- Records ----

#[test]
fn a_snapshot_subsumes_the_records_below_it() {
    let mut r = GrainRecords::new();
    let t = Term::new(1);
    r.store_record(SeqNo::zero(), t, vec![b"e1".to_vec(), b"e2".to_vec()], WriteKind::Append);
    assert_eq!(
        r.store_snapshot(SeqNo::new(1), t, b"snap".to_vec()),
        (StoreAck::Stored(SeqNo::new(1)), true)
    );
    let view = r.read();
    assert_eq!(view.slots, vec![(SeqNo::new(2), t, b"e2".to_vec())]);
    assert_eq!(view.snapshot, Some((SeqNo::new(1), t, b"snap".to_vec())));
    assert_eq!(view.head(), SeqNo::new(2));
    // An older one changes nothing.
    assert_eq!(
        r.store_snapshot(SeqNo::new(1), t, b"again".to_vec()),
        (StoreAck::Stored(SeqNo::new(1)), false)
    );
    assert_eq!(r.snapshot(), Some((SeqNo::new(1), b"snap".to_vec())));
    let checkpoint = r.export();
    assert!(checkpoint.is_sound());
    assert_eq!(GrainRecords::from_checkpoint(checkpoint.clone()), r);
    assert!(!GrainCheckpoint { snapshot: None, ..checkpoint }.is_sound());
}

#[test]
fn a_repair_overwrites_where_an_append_may_not() {
    let mut r = GrainRecords::new();
    let (t1, t2) = (Term::new(1), Term::new(2));
    r.store_record(SeqNo::zero(), t1, vec![vec![1], vec![2], vec![3]], WriteKind::Append);
    assert_eq!(
        r.store_record(SeqNo::new(1), t2, vec![vec![9]], WriteKind::Append),
        StoreAck::Stale(SeqNo::new(3))
    );
    assert_eq!(
        r.store_record(SeqNo::new(1), t2, vec![vec![9]], WriteKind::Repair),
        StoreAck::Stored(SeqNo::new(2))
    );
    assert_eq!(
        r.read_from(SeqNo::zero(), 10),
        vec![
            (SeqNo::new(1), vec![1]),
            (SeqNo::new(2), vec![9]),
            (SeqNo::new(3), vec![3])
        ]
    );
    // Rolling back drops only what that term wrote at the end.
    r.truncate(SeqNo::zero(), t2);
    assert_eq!(r.head(), SeqNo::new(3));
    r.truncate(SeqNo::zero(), t1);
    assert_eq!(r.head(), SeqNo::new(2));
}

#[test]
fn granary_store_segment_v1_still_replays_to_the_same_segment() {
    let mut records = GrainRecords::new();
    records.store_record(
        SeqNo::zero(),
        Term::new(1),
        vec![b"e1".to_vec(), b"e2".to_vec()],
        WriteKind::Append,
    );
    let t = Term::new(1);
    let ops = vec![
        SegOp::Checkpoint(records.export()),
        SegOp::Record {
            after: SeqNo::new(2),
            term: t,
            records: vec![b"e3".to_vec()],
            kind: WriteKind::Append,
        },
        SegOp::Record {
            after: SeqNo::new(3),
            term: t,
            records: vec![b"e4".to_vec()],
            kind: WriteKind::Append,
        },
        SegOp::Snapshot { at: SeqNo::new(2), term: t, state: b"snap".to_vec() },
        SegOp::Truncate { after: SeqNo::new(3), term: t },
    ];
    let records = replay(ops);
    assert_eq!(records.head(), SeqNo::new(3), "the replayed head moved");
    assert_eq!(records.snapshot(), Some((SeqNo::new(2), b"snap".to_vec())));
}

// ---- Promises ----

#[test]
fn a_fence_moves_only_when_it_is_durable() {
    let mut g = Guards::new();
    assert_eq!(g.fence_step(0, Term::new(5)), FenceStep::Persist);
    assert_eq!(g.bump_fence(0, Term::new(5), false), Err(BumpRefusal::Failed));
    assert_eq!(g.bump_fence(0, Term::new(5), true), Ok(()));
    assert_eq!(g.fence_step(0, Term::new(5)), FenceStep::Hold);
    assert_eq!(g.bump_fence(0, Term::new(4), true), Err(BumpRefusal::Fenced(Term::new(5))));
    assert_eq!(g.fence_step(1, Term::zero()), FenceStep::Hold);
    // A transfer is not bound by the fence.
    assert_eq!(g.guard_snapshot(0, Term::new(1), WriteKind::Transfer), Admission::Admit);
    assert_eq!(
        g.guard_snapshot(0, Term::new(1), WriteKind::Repair),
        Admission::Refuse(StoreAck::Fenced(Term::new(5)))
    );
}

#[test]
fn a_bound_only_tightens() {
    let mut g = Guards::new();
    assert_eq!(g.seal_step(0, 100), Some(100));
    g.seal_range(0, 100);
    assert!(g.sealed(0, 100) && !g.sealed(0, 99) && !g.sealed(1, 100));
    assert_eq!(g.seal_step(0, 200), None);
    g.seal_range(0, 200);
    assert!(g.sealed(0, 150));
    assert_eq!(g.seal_step(0, 50), Some(50));
    assert_eq!(
        g.guard_record(0, 100, Term::zero(), WriteKind::Append),
        Admission::Refuse(StoreAck::Sealed)
    );
    assert_eq!(g.guard_record(0, 100, Term::zero(), WriteKind::Repair), Admission::Admit);
    assert!(g.unseal(0));
    assert!(!g.unseal(0));
    assert!(!g.sealed(0, u64::MAX));
}

// ---- The file store ----

/// The files behind a store: what survives a restart.
struct Disk {
    stamp: Option<Vec<u8>>,
    manifest: Vec<(u32, GrainName, u64)>,
    logs: BTreeMap<u64, Vec<Op>>,
    fences: BTreeMap<u32, u64>,
    seals: BTreeMap<u32, u64>,
    blobs: BTreeMap<u64, BTreeMap<BlobId, Vec<u8>>>,
    broken: bool,
}

/// A logged operation, kept so that it can be read more than once.
enum Op {
    Checkpoint(GrainCheckpoint),
    Record(SeqNo, Term, Vec<Vec<u8>>, WriteKind),
    Truncate(SeqNo, Term),
}

impl Op {
    fn read(&self) -> SegOp {
        match self {
            Op::Checkpoint(state) => SegOp::Checkpoint(state.clone()),
            Op::Record(after, term, records, kind) => SegOp::Record {
                after: *after,
                term: *term,
                records: records.clone(),
                kind: *kind,
            },
            Op::Truncate(after, term) => SegOp::Truncate { after: *after, term: *term },
        }
    }
}

impl Disk {
    fn new() -> Disk {
        Disk {
            stamp: None,
            manifest: Vec::new(),
            logs: BTreeMap::new(),
            fences: BTreeMap::new(),
            seals: BTreeMap::new(),
            blobs: BTreeMap::new(),
            broken: false,
        }
    }

    /// Open the store for a node that runs `codec`, writing the stamp if there is none.
    fn open_as(&mut self, codec: &str) -> Result<FileGrainStore, String> {
        if let Some(stamp) = admit_store_stamp("/data", codec, self.stamp.as_deref())? {
            self.stamp = Some(stamp);
        }
        Ok(self.open(16))
    }

    fn open(&self, capacity: usize) -> FileGrainStore {
        let mut guards = Guards::new();
        for (shard, term) in &self.fences {
            guards.loaded_fence(*shard, Term::new(*term));
        }
        for (shard, bound) in &self.seals {
            guards.loaded_seal(*shard, *bound);
        }
        let entries = self
            .manifest
            .iter()
            .map(|(shard, grain, id)| ManifestEntry {
                shard: *shard,
                grain: grain.clone(),
                id: *id,
            })
            .collect();
        FileGrainStore::open("/data", guards, entries, capacity)
    }

    fn io(&self) -> Result<(), String> {
        if self.broken {
            Err("no space left".into())
        } else {
            Ok(())
        }
    }

    /// Hold a grain's segment, doing whatever the store asks for first.
    fn hold(&mut self, store: &mut FileGrainStore, grain: &GrainName, create: bool) -> Option<u64> {
        let id = match store.segment(0, grain, create) {
            Access::Refused | Access::Absent => return None,
            Access::Ready => {
                return match store.segment_id(0, grain, false) {
                    Access::Open(id) => Some(id),
                    _ => None,
                }
            }
            Access::Open(id) => id,
            Access::Assign(id) => {
                let outcome = self.io();
                if outcome.is_ok() {
                    self.manifest.push((0, grain.clone(), id));
                }
                assert_eq!(store.assigned(0, grain, outcome.clone()), outcome.ok().map(|_| id));
                if self.broken {
                    return None;
                }
                id
            }
        };
        if !create && !self.logs.contains_key(&id) {
            return None;
        }
        let outcome = self.io().map(|_| {
            self.logs.entry(id).or_default().iter().map(|op| op.read()).collect::<Vec<_>>()
        });
        if store.opened(0, grain, id, outcome) {
            Some(id)
        } else {
            None
        }
    }

    /// Persist what a term that is new needs, and promise it.
    fn promise(&mut self, store: &mut FileGrainStore, term: Term) -> Result<(), BumpRefusal> {
        let outcome = self.io();
        if store.fence_step(0, term) == FenceStep::Persist && outcome.is_ok() {
            self.fences.insert(0, term.value());
        }
        store.bump_fence(0, term, outcome)
    }

    fn record(
        &mut self,
        store: &mut FileGrainStore,
        grain: &GrainName,
        after: u64,
        term: u64,
        batch: Vec<Vec<u8>>,
        kind: WriteKind,
    ) -> StoreAck {
        let Some(id) = self.hold(store, grain, true) else {
            return StoreAck::Failed;
        };
        let term = Term::new(term);
        let ack = match store.guard_record(0, 0, term, kind) {
            Admission::Refuse(ack) => ack,
            admission => {
                if admission == Admission::Persist && self.promise(store, term).is_err() {
                    return StoreAck::Failed;
                }
                let outcome = self.io();
                if outcome.is_ok() {
                    let op = Op::Record(SeqNo::new(after), term, batch.clone(), kind);
                    self.logs.get_mut(&id).unwrap().push(op);
                }
                store.store_record(0, grain, id, SeqNo::new(after), term, batch, kind, outcome)
            }
        };
        store.release(0, grain);
        ack
    }

    fn prepare(&mut self, store: &mut FileGrainStore, grain: &GrainName, term: u64) -> ReadOutcome {
        if self.hold(store, grain, true).is_none() {
            return ReadOutcome::Failed;
        }
        let bump = self.promise(store, Term::new(term));
        let outcome = store.prepare(0, grain, bump);
        store.release(0, grain);
        outcome
    }

    fn snapshot(
        &mut self,
        store: &mut FileGrainStore,
        grain: &GrainName,
        at: u64,
        term: u64,
        state: &[u8],
    ) -> StoreAck {
        let Some(id) = self.hold(store, grain, true) else {
            return StoreAck::Failed;
        };
        let term = Term::new(term);
        let (ack, checkpoint) =
            store.store_snapshot(0, grain, SeqNo::new(at), term, state.to_vec());
        let ack = match checkpoint {
            Some(checkpoint) => {
                let outcome = self.io();
                if outcome.is_ok() {
                    self.logs.insert(id, vec![Op::Checkpoint(checkpoint)]);
                }
                store.checkpoint(id, ack, outcome)
            }
            None => ack,
        };
        store.release(0, grain);
        ack
    }

    fn truncate(&mut self, store: &mut FileGrainStore, grain: &GrainName, after: u64, term: u64) {
        let Some(id) = self.hold(store, grain, false) else {
            return;
        };
        let (after, term) = (SeqNo::new(after), Term::new(term));
        let outcome = self.io();
        if outcome.is_ok() {
            self.logs.get_mut(&id).unwrap().push(Op::Truncate(after, term));
        }
        store.truncate(0, grain, id, after, term, outcome);
        store.release(0, grain);
    }

    fn read(&mut self, store: &mut FileGrainStore, grain: &GrainName) -> granary::store::ReadReply {
        let held = self.hold(store, grain, false).is_some();
        let reply = store.read(0, grain);
        if held {
            store.release(0, grain);
        }
        reply
    }

    fn put_blob(
        &mut self,
        store: &mut FileGrainStore,
        grain: &GrainName,
        blob: BlobId,
        bytes: &[u8],
    ) -> BlobAck {
        let id = match store.segment_id(0, grain, true) {
            Access::Open(id) => id,
            Access::Assign(id) => {
                let outcome = self.io();
                if outcome.is_ok() {
                    self.manifest.push((0, grain.clone(), id));
                }
                match store.assigned(0, grain, outcome) {
                    Some(id) => id,
                    None => return BlobAck::Failed,
                }
            }
            _ => return BlobAck::Failed,
        };
        let area = self.blobs.entry(id).or_default();
        let outcome = if area.contains_key(&blob) {
            BlobWrite::Exists
        } else if self.broken {
            BlobWrite::Failed("no space left".into())
        } else {
            area.insert(blob, bytes.to_vec());
            BlobWrite::Written
        };
        store.put_blob(id, outcome)
    }

    fn get_blob(
        &self,
        store: &mut FileGrainStore,
        grain: &GrainName,
        blob: BlobId,
    ) -> Option<Vec<u8>> {
        let Access::Open(id) = store.segment_id(0, grain, false) else {
            return None;
        };
        let found = self.blobs.get(&id).and_then(|area| area.get(&blob));
        let outcome = match found {
            Some(bytes) => BlobRead::Found(bytes.clone()),
            None => BlobRead::Missing,
        };
        store.get_blob(id, &blob, outcome)
    }

    fn blob_ids(&self, store: &FileGrainStore, grain: &GrainName) -> Vec<BlobId> {
        match store.segment_id(0, grain, false) {
            Access::Open(id) => {
                self.blobs.get(&id).map_or(Vec::new(), |area| area.keys().copied().collect())
            }
            _ => Vec::new(),
        }
    }

    fn remove_grain(&mut self, store: &mut FileGrainStore, grain: &GrainName) {
        if let Some(id) = store.remove_grain(0, grain) {
            self.logs.remove(&id);
            self.blobs.remove(&id);
        }
    }
}

#[test]
fn records_round_trip_across_a_reopen() {
    let mut disk = Disk::new();
    let n = name("a");
    let mut store = disk.open(16);
    assert_eq!(
        disk.record(
            &mut store,
            &n,
            0,
            1,
            vec![b"e1".to_vec(), b"e2".to_vec()],
            WriteKind::Append
        ),
        StoreAck::Stored(SeqNo::new(2))
    );
    // A snapshot below the head leaves a live tail, so records survive reopen.
    assert_eq!(
        disk.snapshot(&mut store, &n, 1, 1, b"snap"),
        StoreAck::Stored(SeqNo::new(1))
    );
    // A fresh open recovers the retained record, its term, and the snapshot.
    let mut reopened = disk.open(16);
    let reply = disk.read(&mut reopened, &n);
    assert_eq!(reply.slots, vec![(SeqNo::new(2), Term::new(1), b"e2".to_vec())]);
    assert_eq!(reply.snapshot, Some((SeqNo::new(1), Term::new(1), b"snap".to_vec())));
}

#[test]
fn a_snapshot_compacts_one_grains_segment_on_disk_and_recovers() {
    let mut disk = Disk::new();
    let n = name("a");
    let mut store = disk.open(16);
    for i in 0..50u64 {
        disk.record(&mut store, &n, i, 1, vec![vec![b'x'; 1000]], WriteKind::Append);
    }
    assert_eq!(disk.logs[&0].len(), 50);
    // A snapshot at the head subsumes every record: the log becomes one checkpoint.
    disk.snapshot(&mut store, &n, 50, 1, b"snap@50");
    assert_eq!(disk.logs[&0].len(), 1);
    let mut reopened = disk.open(16);
    let reply = disk.read(&mut reopened, &n);
    assert!(reply.slots.is_empty());
    assert_eq!(reply.snapshot, Some((SeqNo::new(50), Term::new(1), b"snap@50".to_vec())));
    // The next append continues contiguously from the recovered head.
    assert_eq!(
        disk.record(&mut reopened, &n, 50, 1, vec![b"e51".to_vec()], WriteKind::Append),
        StoreAck::Stored(SeqNo::new(51))
    );
}

#[test]
fn a_redundant_snapshot_writes_nothing_and_does_not_bloat_the_segment() {
    let mut disk = Disk::new();
    let n = name("a");
    let mut store = disk.open(16);
    disk.record(
        &mut store,
        &n,
        0,
        1,
        vec![b"e1".to_vec(), b"e2".to_vec()],
        WriteKind::Append,
    );
    disk.snapshot(&mut store, &n, 2, 1, b"snap@2");
    // Storing the same snapshot again owes nothing durable.
    disk.hold(&mut store, &n, true).unwrap();
    for _ in 0..20 {
        let (ack, checkpoint) =
            store.store_snapshot(0, &n, SeqNo::new(2), Term::new(1), b"snap@2".to_vec());
        assert_eq!(ack, StoreAck::Stored(SeqNo::new(2)));
        assert_eq!(checkpoint, None);
    }
    let mut reopened = disk.open(16);
    assert_eq!(
        disk.read(&mut reopened, &n).snapshot,
        Some((SeqNo::new(2), Term::new(1), b"snap@2".to_vec()))
    );
}

#[test]
fn the_append_bound_survives_a_reopen_and_unseal_lifts_it() {
    let mut disk = Disk::new();
    let n = name("a");
    let mut store = disk.open(16);
    // Bound the whole space: every append on shard 0 is refused.
    assert_eq!(store.seal_step(0, 0), Some(0));
    store.seal_range(0, 0, Ok(()));
    disk.seals.insert(0, 0);
    let mut reopened = disk.open(16);
    assert_eq!(
        disk.record(&mut reopened, &n, 0, 9, vec![b"e".to_vec()], WriteKind::Append),
        StoreAck::Sealed
    );
    // A repair still lands.
    assert!(matches!(
        disk.record(&mut reopened, &n, 0, 9, vec![b"e".to_vec()], WriteKind::Repair),
        StoreAck::Stored(_)
    ));
    // A committed merge lifts the bound, durably.
    assert!(reopened.unseal(0));
    disk.seals.remove(&0);
    let mut again = disk.open(16);
    assert!(matches!(
        disk.record(&mut again, &n, 1, 9, vec![b"e2".to_vec()], WriteKind::Append),
        StoreAck::Stored(_)
    ));
}

#[test]
fn remove_grain_drops_the_segment_and_blobs_durably() {
    let mut disk = Disk::new();
    let n = name("moved");
    let mut store = disk.open(16);
    let blob = BlobId::of(b"b");
    disk.record(&mut store, &n, 0, 1, vec![b"e1".to_vec()], WriteKind::Append);
    assert_eq!(disk.put_blob(&mut store, &n, blob, b"b"), BlobAck::Stored);
    assert_eq!(disk.get_blob(&mut store, &n, blob), Some(b"b".to_vec()));
    disk.remove_grain(&mut store, &n);
    assert!(disk.read(&mut store, &n).slots.is_empty());
    assert_eq!(disk.get_blob(&mut store, &n, blob), None);
    // The id stays assigned, but its files are gone: the grain is not held.
    assert_eq!(store.segment_id(0, &n, false), Access::Open(0));
    assert!(store.grains(0, &OrdSet::new()).is_empty());
    // Durable: the reopened store does not bring the grain back.
    let mut reopened = disk.open(16);
    assert!(disk.read(&mut reopened, &n).slots.is_empty());
    assert!(disk.blob_ids(&reopened, &n).is_empty());
}

#[test]
fn the_fence_survives_a_reopen() {
    let mut disk = Disk::new();
    let n = name("a");
    let mut store = disk.open(16);
    // A recovery prepare at term 5 promises not to accept a lower term.
    assert!(matches!(disk.prepare(&mut store, &n, 5), ReadOutcome::Prepared(_)));
    // The promise is durable: after reopen, a term-4 write is still fenced.
    let mut reopened = disk.open(16);
    assert_eq!(
        disk.record(&mut reopened, &n, 0, 4, vec![b"stale".to_vec()], WriteKind::Append),
        StoreAck::Fenced(Term::new(5))
    );
}

#[test]
fn prepare_creates_and_locks_the_segment_of_an_unseen_grain() {
    let mut disk = Disk::new();
    let n = name("fresh");
    let mut store = disk.open(16);
    assert!(matches!(disk.prepare(&mut store, &n, 2), ReadOutcome::Prepared(_)));
    // The grain is in the manifest now.
    assert_eq!(store.segment_id(0, &n, false), Access::Open(0));
    // And the promise still fences a later lower-term append.
    assert_eq!(
        disk.record(&mut store, &n, 0, 1, vec![b"late".to_vec()], WriteKind::Append),
        StoreAck::Fenced(Term::new(2))
    );
}

#[test]
fn a_fence_promise_on_an_unseen_grain_is_durable() {
    let mut disk = Disk::new();
    let mut store = disk.open(16);
    assert!(matches!(disk.prepare(&mut store, &name("ghost"), 7), ReadOutcome::Prepared(_)));
    let mut reopened = disk.open(16);
    // A different grain in the same shard is fenced by the recovered promise.
    assert_eq!(
        disk.record(&mut reopened, &name("other"), 0, 6, vec![b"x".to_vec()], WriteKind::Append),
        StoreAck::Fenced(Term::new(7))
    );
}

#[test]
fn file_store_matches_memory_store_across_reopens() {
    enum Step {
        Record(u64, u64, Vec<Vec<u8>>),
        Snapshot(u64, u64, &'static [u8]),
        Prepare(u64),
        Truncate(u64, u64),
    }
    let n = name("acct");
    let steps = [
        Step::Record(0, 1, vec![b"a".to_vec(), b"b".to_vec()]),
        Step::Prepare(2),
        Step::Record(2, 2, vec![b"c".to_vec()]),
        Step::Snapshot(2, 2, b"snap@2"),
        Step::Record(3, 2, vec![b"d".to_vec()]),
        Step::Truncate(3, 2),
        Step::Record(3, 2, vec![b"d2".to_vec()]),
    ];
    let mut disk = Disk::new();
    let mut mirror = MemoryGrainStore::new();
    for step in &steps {
        // A fresh open every step: the state must come back from disk.
        let mut file = disk.open(16);
        assert_eq!(disk.read(&mut file, &n).slots, mirror.read(0, &n).slots);
        match step {
            Step::Record(after, term, batch) => {
                let ours =
                    disk.record(&mut file, &n, *after, *term, batch.clone(), WriteKind::Append);
                let theirs = mirror.store_record(
                    0,
                    &n,
                    0,
                    SeqNo::new(*after),
                    Term::new(*term),
                    batch.clone(),
                    WriteKind::Append,
                );
                assert_eq!(ours, theirs);
            }
            Step::Snapshot(at, term, state) => {
                disk.snapshot(&mut file, &n, *at, *term, state);
                mirror.store_snapshot(
                    0,
                    &n,
                    SeqNo::new(*at),
                    Term::new(*term),
                    state.to_vec(),
                    WriteKind::Append,
                );
            }
            Step::Prepare(term) => {
                let ours = disk.prepare(&mut file, &n, *term);
                assert_eq!(ours, mirror.prepare(0, &n, Term::new(*term)));
            }
            Step::Truncate(after, term) => {
                disk.truncate(&mut file, &n, *after, *term);
                mirror.truncate(0, &n, SeqNo::new(*after), Term::new(*term));
            }
        }
        assert_eq!(disk.read(&mut file, &n), mirror.read(0, &n));
    }
    assert_eq!(mirror.head(0, &n), SeqNo::new(4));
}

/// How many segments a store has open, by asking for each grain.
fn open_segments(store: &FileGrainStore, keys: &[String]) -> usize {
    keys.iter().filter(|key| store.head(0, &name(key)) != SeqNo::zero()).count()
}

#[test]
fn the_loaded_segment_set_stays_bounded_across_many_grains() {
    let mut disk = Disk::new();
    let mut store = disk.open(16);
    let keys: Vec<String> = (0..500).map(|i| format!("grain-{i}")).collect();
    for key in &keys {
        disk.record(&mut store, &name(key), 0, 1, vec![b"x".to_vec()], WriteKind::Append);
    }
    let loaded = open_segments(&store, &keys);
    assert!(loaded <= 16, "500 grains left {loaded} segments open against a capacity of 16");
}

#[test]
fn a_segment_in_use_is_never_evicted() {
    let mut disk = Disk::new();
    let mut store = disk.open(1);
    let held = name("held");
    disk.record(&mut store, &held, 0, 1, vec![b"a".to_vec()], WriteKind::Append);
    disk.hold(&mut store, &held, false).expect("the held segment");
    for i in 0..50 {
        let grain = name(&format!("other-{i}"));
        disk.record(&mut store, &grain, 0, 1, vec![b"y".to_vec()], WriteKind::Append);
        assert_eq!(store.head(0, &held), SeqNo::new(1), "a held segment stays open");
    }
    store.release(0, &held);
    // Once released it becomes evictable like any other.
    let keys: Vec<String> = (50..120).map(|i| format!("other-{i}")).collect();
    for key in &keys {
        disk.record(&mut store, &name(key), 0, 1, vec![b"z".to_vec()], WriteKind::Append);
    }
    assert!(open_segments(&store, &keys) <= 2, "a released segment is evictable again");
    assert_eq!(store.head(0, &held), SeqNo::zero());
}

#[test]
fn an_evicted_segment_reopens_with_its_records_intact() {
    let mut disk = Disk::new();
    let mut store = disk.open(1);
    let grain = name("survivor");
    disk.record(
        &mut store,
        &grain,
        0,
        1,
        vec![b"one".to_vec(), b"two".to_vec()],
        WriteKind::Append,
    );
    for i in 0..20 {
        let filler = name(&format!("filler-{i}"));
        disk.record(&mut store, &filler, 0, 1, vec![b"f".to_vec()], WriteKind::Append);
    }
    let reply = disk.read(&mut store, &grain);
    assert_eq!(reply.slots.len(), 2, "the reopened segment holds both records");
    assert_eq!(reply.head(), SeqNo::new(2));
}

#[test]
fn a_store_that_cannot_write_refuses_instead_of_panicking() {
    let mut disk = Disk::new();
    let mut store = disk.open(16);
    let healthy = name("healthy");
    assert!(matches!(
        disk.record(&mut store, &healthy, 0, 1, vec![b"a".to_vec()], WriteKind::Append),
        StoreAck::Stored(_)
    ));
    assert_eq!(store.failure(), None, "a working store is not poisoned");
    disk.broken = true;
    assert_eq!(
        disk.record(&mut store, &name("doomed"), 0, 1, vec![b"b".to_vec()], WriteKind::Append),
        StoreAck::Failed,
        "a record that cannot be persisted must not be acknowledged"
    );
    assert_eq!(
        store.failure(),
        Some("grain store manifest persistence failed at /data/manifest: no space left".into())
    );
}

#[test]
fn a_poisoned_store_refuses_every_later_operation() {
    let mut disk = Disk::new();
    let mut store = disk.open(16);
    let grain = name("served");
    disk.record(&mut store, &grain, 0, 1, vec![b"a".to_vec()], WriteKind::Append);
    disk.broken = true;
    disk.record(&mut store, &name("other"), 0, 1, vec![b"b".to_vec()], WriteKind::Append);
    assert!(store.failure().is_some(), "poisoned by the failed write");
    disk.broken = false;
    assert_eq!(
        disk.record(&mut store, &grain, 1, 1, vec![b"c".to_vec()], WriteKind::Append),
        StoreAck::Failed,
        "a previously served grain is refused too"
    );
    assert_eq!(
        disk.prepare(&mut store, &grain, 2),
        ReadOutcome::Failed,
        "a fence it cannot persist is a fence it has not promised"
    );
    assert_eq!(
        disk.put_blob(&mut store, &grain, BlobId::of(b"x"), b"x"),
        BlobAck::Failed,
        "a blob copy it cannot store must not count toward a quorum"
    );
    assert_eq!(store.put_blob(0, BlobWrite::Written), BlobAck::Failed);
    assert_eq!(store.get_blob(0, &BlobId::of(b"x"), BlobRead::Found(vec![1])), None);
    assert_eq!(
        store.segment_id(0, &grain, true),
        Access::Refused,
        "nor does it answer for the blob area"
    );
    // Nor does it answer plain reads, though the grain's segment is still open.
    assert!(disk.read(&mut store, &grain).slots.is_empty());
    assert_eq!(store.head(0, &grain), SeqNo::zero());
    assert_eq!(store.snapshot(0, &grain), None);
    assert!(store.read_from(0, &grain, SeqNo::zero(), 10).is_empty());
    // What was stored before is still on disk.
    let mut reopened = disk.open(16);
    assert_eq!(disk.read(&mut reopened, &grain).slots.len(), 1);
    // The first cause is the one that is kept.
    let first = store.failure();
    store.fail("another".into());
    assert_eq!(store.failure(), first);
}

#[test]
fn a_failed_append_is_not_applied() {
    let mut disk = Disk::new();
    let mut store = disk.open(16);
    let grain = name("g");
    disk.record(&mut store, &grain, 0, 1, vec![b"a".to_vec()], WriteKind::Append);
    disk.hold(&mut store, &grain, true).unwrap();
    let ack = store.store_record(
        0,
        &grain,
        0,
        SeqNo::new(1),
        Term::new(1),
        vec![vec![2]],
        WriteKind::Append,
        Err("io".into()),
    );
    assert_eq!(ack, StoreAck::Failed);
    let mut reopened = disk.open(16);
    assert_eq!(
        disk.read(&mut reopened, &grain).slots,
        vec![(SeqNo::new(1), Term::new(1), b"a".to_vec())]
    );
    assert_eq!(
        store.failure().unwrap(),
        "grain store persistence failed at /data/segments/0: io — a replica that cannot \
         persist a record cannot safely acknowledge it"
    );
}

#[test]
fn the_failures_of_blobs_and_promises_poison() {
    let disk = Disk::new();
    let blob = BlobId::of(b"x");
    let mut store = disk.open(1);
    assert_eq!(store.put_blob(3, BlobWrite::Exists), BlobAck::Stored);
    assert_eq!(store.put_blob(3, BlobWrite::Written), BlobAck::Stored);
    assert_eq!(store.get_blob(3, &blob, BlobRead::Missing), None);
    assert_eq!(store.get_blob(3, &blob, BlobRead::Found(vec![1])), Some(vec![1]));
    assert_eq!(store.failure(), None);
    assert_eq!(store.put_blob(3, BlobWrite::NoDir("ro".into())), BlobAck::Failed);
    assert_eq!(store.failure().unwrap(), "grain store blob dir failed at /data/blobs/3: ro");
    let mut store = disk.open(1);
    assert_eq!(store.put_blob(3, BlobWrite::Failed("ro".into())), BlobAck::Failed);
    assert!(store.failure().unwrap().starts_with("grain store blob persistence failed at "));
    let mut store = disk.open(1);
    assert_eq!(store.get_blob(3, &blob, BlobRead::Failed("bad".into())), None);
    assert_eq!(
        store.failure().unwrap(),
        format!("grain store blob read failed at /data/blobs/3/{}: bad", blob.to_hex())
    );
    let mut store = disk.open(1);
    store.seal_range(0, 5, Err("ro".into()));
    assert!(!store.sealed(0, 5));
    assert!(store.failure().unwrap().starts_with("grain store seal persistence failed at /data"));
    let mut store = disk.open(1);
    assert_eq!(store.bump_fence(0, Term::new(1), Err("ro".into())), Err(BumpRefusal::Failed));
    assert_eq!(store.failure().unwrap(), "grain store fence persistence failed at /data: ro");
    let mut store = disk.open(1);
    let ack = store.checkpoint(7, StoreAck::Stored(SeqNo::new(1)), Err("ro".into()));
    assert_eq!(ack, StoreAck::Failed);
    assert_eq!(
        store.failure().unwrap(),
        "grain store compaction failed at /data/segments/7: ro"
    );
}

#[test]
fn grains_are_those_with_files() {
    let mut disk = Disk::new();
    let mut store = disk.open(16);
    for key in ["a", "b", "c"] {
        disk.record(&mut store, &name(key), 0, 1, vec![vec![1]], WriteKind::Append);
    }
    let mut present = OrdSet::new();
    present.insert(0u64);
    present.insert(2u64);
    assert_eq!(store.grains(0, &present), vec![name("a"), name("c")]);
    assert!(store.grains(1, &present).is_empty());
    let ids = store.shard_ids(0);
    assert!(ids.len() == 3 && ids.contains(&1));
    // A reopened manifest hands out the next id, not one that is taken.
    assert_eq!(disk.open(1).segment_id(0, &name("d"), true), Access::Assign(3));
    store.drop_shard(0);
    assert_eq!(store.fence_step(0, Term::zero()), FenceStep::Hold);
}

// ---- Small files ----

#[test]
fn a_fresh_store_is_stamped_and_reopens_under_the_same_codec() {
    let stamp = admit_store_stamp("/d", "json", None).unwrap().expect("a stamp to write");
    assert!(stamp.starts_with(b"GRSTOR"));
    assert_eq!(admit_store_stamp("/d", "json", Some(&stamp)), Ok(None));
    let mut disk = Disk::new();
    assert!(disk.open_as("json").is_ok());
    assert!(disk.stamp.is_some(), "a fresh store must record which codec wrote it");
    assert!(disk.open_as("json").is_ok(), "the same codec must reopen it");
}

#[test]
fn a_codec_change_is_refused_once_at_open_naming_both() {
    // A swapped codec is one refusal here, not one per activation for every grain with
    // records past its last snapshot.
    let mut disk = Disk::new();
    let mut store = disk.open_as("json").unwrap();
    let n = name("a");
    assert!(
        matches!(
            disk.record(&mut store, &n, 0, 1, vec![b"e1".to_vec()], WriteKind::Append),
            StoreAck::Stored(_)
        ),
        "the record this store cannot later decode has to be there for the refusal to matter"
    );
    drop(store);
    let Err(msg) = disk.open_as("postcard") else {
        panic!("a store written under another codec must not open");
    };
    assert!(msg.starts_with("grain store at /data: "), "{msg}");
    assert!(
        msg.contains("json") && msg.contains("postcard"),
        "the refusal must name both codecs so an operator knows which end to move: {msg}"
    );
    // The refusal touches nothing: under its own codec the store still has the record.
    let mut store = disk.open_as("json").unwrap();
    assert_eq!(
        disk.read(&mut store, &n).slots,
        vec![(SeqNo::new(1), Term::new(1), b"e1".to_vec())]
    );
}

#[test]
fn a_store_from_another_revision_is_refused_as_a_revision() {
    let mut bytes = admit_store_stamp("/d", "json", None).unwrap().unwrap();
    // The revision is a little-endian `u16` immediately after the magic.
    let head = b"GRSTOR".len();
    bytes[head..head + 2].copy_from_slice(&9u16.to_le_bytes());
    let msg = admit_store_stamp("/d", "json", Some(&bytes)).unwrap_err();
    assert!(msg.contains("granary.store") && msg.contains("v9"), "{msg}");
}

#[test]
fn an_unstamped_store_is_adopted_rather_than_refused() {
    assert!(admit_store_stamp("/d", "json", None).unwrap().is_some());
    let mut disk = Disk::new();
    drop(disk.open_as("json"));
    disk.stamp = None;
    assert!(disk.open_as("json").is_ok(), "an unstamped store must still open");
    assert!(
        disk.stamp.is_some(),
        "adoption must leave the store stamped, so the next codec change is caught"
    );
}

#[test]
fn granary_store_v1_still_admits_its_codec() {
    let body = (String::from("json"), BTreeMap::<u16, Vec<u8>>::new());
    let mut bytes = b"GRSTOR\x01\x00".to_vec();
    bytes.extend(postcard::to_allocvec(&body).unwrap());
    assert_eq!(admit_store_stamp("/d", "json", Some(&bytes)), Ok(None));
    assert_eq!(admit_store_stamp("/d", "json", None), Ok(Some(bytes.clone())));
    let err = admit_store_stamp("/d", "postcard", Some(&bytes)).unwrap_err();
    assert!(err.contains("json"), "{err}");
    let torn = admit_store_stamp("/d", "json", Some(&bytes[..10])).unwrap_err();
    assert!(torn.starts_with("grain store at /d: stamp body did not decode: "), "{torn}");
    let critical = (String::from("json"), BTreeMap::from([(0x8005u16, vec![1u8])]));
    let mut bytes = b"GRSTOR\x01\x00".to_vec();
    bytes.extend(postcard::to_allocvec(&critical).unwrap());
    let err = admit_store_stamp("/d", "json", Some(&bytes)).unwrap_err();
    assert!(err.contains("0x8005"), "{err}");
}

#[test]
fn a_promise_file_reads_back_and_a_torn_one_does_not() {
    let file = write_checksummed_u64(0x0102, 77);
    assert_eq!(file, vec![2, 1, 0, 0, 0, 0, 0, 0, 77, 0, 0, 0, 0, 0, 0, 0]);
    assert_eq!(read_checksummed_u64(&file, 77), Some(0x0102));
    assert_eq!(read_checksummed_u64(&file, 78), None);
    assert_eq!(read_checksummed_u64(&file[..15], 77), None);
}

#[test]
fn a_promise_is_filed_under_its_shards_number() {
    for text in ["0", "7", "4294967295", "007", "+12", "", "+", "-1", "4294967296", "1x", "٣"] {
        assert_eq!(parse_shard(text), text.parse::<u32>().ok(), "{text:?}");
    }
}

#[test]
fn a_sweep_removes_what_no_retained_blob_is_named_by() {
    let (keep, drop) = (BlobId::of(b"keep"), BlobId::of(b"drop"));
    let names = vec![keep.to_hex(), drop.to_hex(), "stray".to_string()];
    assert_eq!(to_sweep(&names, &set_of(&vec![keep])), vec![1, 2]);
    assert_eq!(to_sweep(&names, &OrdSet::new()), vec![0, 1, 2]);
    assert_eq!(shard_bytes(&vec![10, 20, 12]), 42);
    assert_eq!(shard_bytes(&vec![]), 0);
}

// ---- Replicas ----

#[test]
fn a_replica_is_found_by_its_node() {
    assert_eq!(replica_store_key_id("bank.Account"), "granary.replica/bank.Account");
    let registered = vec![NodeId(3), NodeId(1), NodeId(1)];
    assert_eq!(reach(&registered, NodeId(1)), Ok(1));
    assert_eq!(reach(&registered, NodeId(9)), Err(CallError::Unreachable));
}

#[test]
fn a_sweep_keeps_the_roots_or_nothing() {
    let mut store = MemoryGrainStore::new();
    let n = name("g");
    let (a, b) = (BlobId::of(b"a"), BlobId::of(b"b"));
    store.put_blob(0, &n, &a, b"a".to_vec());
    store.put_blob(0, &n, &b, b"b".to_vec());
    sweep_blobs(&mut store, 0, &n, Some(&set_of(&vec![a])));
    assert!(store.has_blob(0, &n, &a) && !store.has_blob(0, &n, &b));
    assert_eq!(store.get_blob(0, &n, &a), Some(b"a".to_vec()));
    sweep_blobs(&mut store, 0, &n, None);
    assert!(!store.has_blob(0, &n, &a));
}

#[test]
fn granary_store_manifest_v1_still_replays_its_entries() {
    let records = [
        postcard::to_allocvec(&(0u32, ("test.Grain", "a"), 0u64)).unwrap(),
        postcard::to_allocvec(&(7u32, ("test.Other", ""), 42u64)).unwrap(),
    ];
    let entries: Vec<ManifestEntry> =
        records.iter().map(|record| from_bytes(record).unwrap()).collect();
    assert_eq!(
        entries,
        vec![
            ManifestEntry { shard: 0, grain: name("a"), id: 0 },
            ManifestEntry { shard: 7, grain: GrainName::new("test.Other", ""), id: 42 },
        ],
        "manifest entries decoded to different values than they were written from"
    );
    assert_eq!(to_bytes(&entries[1]), records[1]);
    assert!(from_bytes::<ManifestEntry>(&records[0][..4]).is_err());
    let store = FileGrainStore::open("/data", Guards::new(), entries, 4);
    assert_eq!(store.segment_id(0, &name("a"), false), Access::Open(0));
    assert_eq!(store.segment_id(7, &GrainName::new("test.Other", ""), false), Access::Open(42));
    assert_eq!(store.segment_id(7, &name("a"), false), Access::Absent);
    assert_eq!(store.segment_id(7, &name("a"), true), Access::Assign(43));
}

#[test]
fn one_grains_snapshot_leaves_another_grains_segment_untouched() {
    let mut disk = Disk::new();
    let (a, b) = (name("a"), name("b"));
    let mut store = disk.open(16);
    disk.record(&mut store, &a, 0, 1, vec![b"a1".to_vec()], WriteKind::Append);
    disk.record(
        &mut store,
        &b,
        0,
        1,
        vec![b"b1".to_vec(), b"b2".to_vec()],
        WriteKind::Append,
    );
    let before = disk.read(&mut store, &b);
    let logged = disk.logs[&1].len();
    disk.snapshot(&mut store, &a, 1, 1, b"snap-a");
    assert_eq!(disk.logs[&1].len(), logged, "grain b's segment was rewritten");
    assert_eq!(disk.read(&mut store, &b), before);
}

/// A node's stores, each over the files of the directory it was placed in.
struct Hosting {
    factory: StoreFactory,
    disks: BTreeMap<String, Disk>,
    stores: Vec<(String, FileGrainStore)>,
}

impl Hosting {
    fn new(root: &str) -> Hosting {
        let factory = FileGrainStore::factory(root);
        Hosting { factory, disks: BTreeMap::new(), stores: Vec::new() }
    }

    fn store(&mut self, grain_type: &str, node: u64) -> usize {
        let place = self.factory.place(grain_type, NodeId(node));
        if let Some(dir) = place.open {
            let store = self.disks.entry(dir.clone()).or_insert_with(Disk::new).open(4);
            self.stores.push((dir, store));
        }
        place.at
    }

    fn at(&mut self, store: usize) -> (&mut Disk, &mut FileGrainStore) {
        let (dir, store) = &mut self.stores[store];
        (self.disks.get_mut(dir).unwrap(), store)
    }
}

#[test]
fn two_grain_types_do_not_share_a_shards_fence() {
    let mut node = Hosting::new("/root");
    // The busy type's shard 0 reaches term 9 and fences its own store there.
    let busy = node.store("busy.Type", 1);
    let (disk, store) = node.at(busy);
    assert!(matches!(
        disk.prepare(store, &GrainName::new("busy.Type", "a"), 9),
        ReadOutcome::Prepared(_)
    ));
    // The quiet type's shard 0 is still at term 2: the busy type's term says nothing
    // about who leads this shard.
    let quiet = node.store("quiet.Type", 1);
    let (disk, store) = node.at(quiet);
    let grain = GrainName::new("quiet.Type", "a");
    assert_eq!(
        disk.record(store, &grain, 0, 2, vec![b"mine".to_vec()], WriteKind::Append),
        StoreAck::Stored(SeqNo::new(1))
    );
    // And its leader can still recover the grain on the next activation.
    assert!(matches!(disk.prepare(store, &grain, 2), ReadOutcome::Prepared(_)));
}

#[test]
fn one_store_per_grain_type_and_node() {
    let mut node = Hosting::new("/root");
    let first = node.store("a.Type", 1);
    let second = node.store("a.Type", 1);
    assert_eq!(
        first, second,
        "a repeated hosting of one type on one node must share its store"
    );
    let others = [node.store("a.Type", 2), node.store("b.Type", 1)];
    assert_eq!(others, [1, 2]);
    let dirs: Vec<&String> = node.disks.keys().collect();
    assert_eq!(dirs, ["/root/a.Type/1", "/root/a.Type/2", "/root/b.Type/1"]);
}

#[test]
fn a_store_is_kept_below_its_root() {
    assert_eq!(store_dir("/root", "bank.Account", NodeId(12)), "/root/bank.Account/12");
    assert_eq!(store_dir("/root/", "bank.Account", NodeId(0)), "/root/bank.Account/0");
    assert_eq!(store_dir("", "bank.Account", NodeId(7)), "bank.Account/7");
    assert_eq!(store_dir("/root", "/abs", NodeId(7)), "/abs/7");
}

#[test]
fn a_range_is_the_grains_at_or_above_its_bound() {
    let grains = vec![(name("a"), 5), (name("b"), 9), (name("c"), 4), (name("d"), u64::MAX)];
    assert_eq!(grains_above(grains.clone(), 5), vec![name("a"), name("b"), name("d")]);
    assert_eq!(grains_above(grains.clone(), 0).len(), 4);
    assert_eq!(grains_above(grains, u64::MAX), vec![name("d")]);
}
