//! A store whose records live in files: one log per grain, a manifest that names each
//! grain's log, and a file per promise.
//!
//! This module decides; the caller does the reading and writing and reports how it
//! went. A write that cannot be made durable poisons the store: its cause is kept and
//! every later operation is refused. Poisoning is one-way and covers the whole store,
//! because what fails is the volume, not the grain that noticed first.
use vstd::prelude::*;
use vstd::string::*;

use crate::blobs::BlobId;
use crate::error::NodeId;
use crate::grain::GrainName;
use crate::grain::NameModel;
use crate::journal::SeqNo;
use crate::journal::Term;
use crate::key::rank_str;
use crate::key::OrdKey;
use crate::key::Rank;
use crate::memory::key_of;
use crate::memory::record_ack;
use crate::ordmap::OrdMap;
use crate::ordmap::OrdSet;
use crate::segment::applied;
use crate::segment::replay;
use crate::segment::replayed;
use crate::segment::OpModel;
use crate::segment::SegOp;
use crate::store::advances;
use crate::store::compacted;
use crate::store::fence_of;
use crate::store::head_of;
use crate::store::no_records;
use crate::store::record_admission;
use crate::store::records_from;
use crate::store::rolled_back;
use crate::store::snapshot_admission;
use crate::store::tightened;
use crate::store::view_of;
use crate::store::Admission;
use crate::store::BlobAck;
use crate::store::BumpRefusal;
use crate::store::FenceStep;
use crate::store::GrainCheckpoint;
use crate::store::GrainRecords;
use crate::store::Guards;
use crate::store::GuardsModel;
use crate::store::ReadOutcome;
use crate::store::ReadReply;
use crate::store::RecordsModel;
use crate::store::StoreAck;
use crate::store::StoreKey;
use crate::store::StoreKeyModel;
use crate::store::WriteKind;
use crate::text::chars_of;
use crate::text::decimal;
use crate::text::hex;
use crate::text::lemma_decimal_digits;
use crate::text::lemma_number_behind_slash;
use crate::text::push_decimal;
use crate::wire::Decoded;
use crate::wire::Wire;
use crate::wire::WireError;

verus! {

/// How many segments a store keeps open by default. Each is an open file.
pub const DEFAULT_SEGMENT_CAPACITY: usize = 65536;

// ---- Paths and failure texts ----

/// A name inside a directory; one that begins with a slash stands for itself.
pub open spec fn path_in(dir: Seq<char>, name: Seq<char>) -> Seq<char> {
    if name.len() > 0 && name[0] == '/' {
        name
    } else if dir.len() == 0 || dir.last() == '/' {
        dir + name
    } else {
        dir + "/"@ + name
    }
}

fn path_to(dir: &str, name: &str) -> (r: String)
    ensures
        r@ == path_in(dir@, name@),
{
    let first = chars_of(name);
    if first.len() > 0 && first[0] == '/' {
        return name.to_owned();
    }
    let chars = chars_of(dir);
    let n: usize = chars.len();
    let mut out = dir.to_owned();
    if n > 0 && chars[n - 1] != '/' {
        out.append("/");
    }
    out.append(name);
    out
}

/// The directory of one store: below the root, the grain type, and in it the node. A
/// type has stores of its own because everything in a store goes by bare shard numbers,
/// which mean something else under each type.
pub open spec fn store_path(root: Seq<char>, grain_type: Seq<char>, node: NodeId) -> Seq<char> {
    path_in(path_in(root, grain_type), decimal(node.0 as nat))
}

/// The directory of a grain type's store on a node.
pub fn store_dir(root: &str, grain_type: &str, node: NodeId) -> (r: String)
    ensures
        r@ == store_path(root@, grain_type@, node),
{
    let dir = path_to(root, grain_type);
    path_to(dir.as_str(), number_text(node.0).as_str())
}

/// The path of a grain's log.
pub open spec fn segment_path(dir: Seq<char>, id: u64) -> Seq<char> {
    path_in(path_in(dir, "segments"@), decimal(id as nat))
}

/// The directory of a grain's blobs.
pub open spec fn blob_dir(dir: Seq<char>, id: u64) -> Seq<char> {
    path_in(path_in(dir, "blobs"@), decimal(id as nat))
}

/// The path of one blob.
pub open spec fn blob_path(dir: Seq<char>, id: u64, blob: Seq<u8>) -> Seq<char> {
    path_in(blob_dir(dir, id), hex(blob))
}

fn number_text(n: u64) -> (r: String)
    ensures
        r@ == decimal(n as nat),
{
    let mut out = String::new();
    push_decimal(&mut out, n);
    assert(out@ =~= decimal(n as nat));
    out
}

/// Why an operation failed: what, where, and the cause.
pub open spec fn failure_text(what: Seq<char>, path: Seq<char>, err: Seq<char>) -> Seq<char> {
    what + path + ": "@ + err
}

fn describe_failure(what: &str, path: &str, err: &str) -> (r: String)
    ensures
        r@ == failure_text(what@, path@, err@),
{
    let mut out = what.to_owned();
    out.append(path);
    out.append(": ");
    out.append(err);
    out
}

// ---- The store ----

/// A grain's open log: its records, and how many callers are using it.
#[derive(Debug, PartialEq, Eq)]
pub struct Segment {
    records: GrainRecords,
    users: u64,
}

#[verifier::ext_equal]
pub struct SegmentModel {
    pub records: RecordsModel,
    pub users: u64,
}

impl DeepView for Segment {
    type V = SegmentModel;

    closed spec fn deep_view(&self) -> SegmentModel {
        SegmentModel { records: self.records.deep_view(), users: self.users }
    }
}

impl Segment {
    pub closed spec fn wf(&self) -> bool {
        self.records.wf()
    }
}

/// One manifest entry: the id assigned to a grain.
#[derive(Debug, PartialEq, Eq)]
pub struct ManifestEntry {
    pub shard: u32,
    pub grain: GrainName,
    pub id: u64,
}

pub struct EntryModel {
    pub shard: u32,
    pub grain: NameModel,
    pub id: u64,
}

impl DeepView for ManifestEntry {
    type V = EntryModel;

    open spec fn deep_view(&self) -> EntryModel {
        EntryModel { shard: self.shard, grain: self.grain.deep_view(), id: self.id }
    }
}

/// An entry as its log record holds it: the shard, the grain's name, the id.
impl Wire for ManifestEntry {
    open spec fn wire_inv(&self) -> bool {
        true
    }

    open spec fn fits(m: EntryModel) -> bool {
        <GrainName as Wire>::fits(m.grain)
    }

    open spec fn enc(m: EntryModel) -> Seq<u8> {
        <(u32, (GrainName, u64)) as Wire>::enc((m.shard, (m.grain, m.id)))
    }

    open spec fn dec(b: Seq<u8>) -> Decoded<EntryModel> {
        match <(u32, (GrainName, u64)) as Wire>::dec(b) {
            Err(e) => Err(e),
            Ok(((shard, (grain, id)), rest)) => Ok((EntryModel { shard, grain, id }, rest)),
        }
    }

    proof fn round_trip(m: EntryModel, rest: Seq<u8>) {
        <(u32, (GrainName, u64)) as Wire>::round_trip((m.shard, (m.grain, m.id)), rest);
    }

    fn put(&self, out: &mut Vec<u8>) {
        let ghost before = out@;
        self.shard.put(out);
        self.grain.put(out);
        self.id.put(out);
        assert(out@ =~= before + Self::enc(self.deep_view()));
    }

    fn take<'a>(b: &'a [u8]) -> (r: Result<(ManifestEntry, &'a [u8]), WireError>) {
        match <(u32, (GrainName, u64)) as Wire>::take(b) {
            Err(e) => Err(e),
            Ok(((shard, (grain, id)), rest)) => Ok((ManifestEntry { shard, grain, id }, rest)),
        }
    }
}

/// A node's store over files.
#[derive(Debug, PartialEq, Eq)]
pub struct FileGrainStore {
    dir: String,
    poison: Option<String>,
    guards: Guards,
    ids: OrdMap<StoreKey, u64>,
    next: u64,
    segments: OrdMap<StoreKey, Segment>,
    capacity: usize,
}

#[verifier::ext_equal]
pub struct FilesModel {
    pub dir: Seq<char>,
    /// Why the store is unusable, once it is.
    pub poison: Option<Seq<char>>,
    pub guards: GuardsModel,
    /// The ids assigned.
    pub ids: Map<StoreKeyModel, u64>,
    /// The next id to assign.
    pub next: u64,
    /// The open segments.
    pub segments: Map<StoreKeyModel, SegmentModel>,
    /// How many segments to keep open.
    pub capacity: nat,
}

impl View for FileGrainStore {
    type V = FilesModel;

    closed spec fn view(&self) -> FilesModel {
        FilesModel {
            dir: self.dir@,
            poison: match self.poison {
                Some(why) => Some(why@),
                None => None,
            },
            guards: self.guards@,
            ids: self.ids@,
            next: self.next,
            segments: self.segments.deep_view(),
            capacity: self.capacity as nat,
        }
    }
}

/// The store with a failure recorded: the first cause is kept.
pub open spec fn poisoned_by(m: FilesModel, why: Seq<char>) -> FilesModel {
    FilesModel {
        poison: if m.poison is Some {
            m.poison
        } else {
            Some(why)
        },
        ..m
    }
}

/// The ids that a manifest assigns; a later entry for a grain wins.
pub open spec fn manifest_ids(entries: Seq<EntryModel>) -> Map<StoreKeyModel, u64>
    decreases entries.len(),
{
    if entries.len() == 0 {
        Map::empty()
    } else {
        let last = entries.last();
        manifest_ids(entries.drop_last()).insert(
            StoreKeyModel { shard: last.shard, grain: last.grain },
            last.id,
        )
    }
}

/// The id after the highest one that a manifest assigns.
pub open spec fn manifest_next(entries: Seq<EntryModel>) -> int
    decreases entries.len(),
{
    if entries.len() == 0 {
        0
    } else {
        let before = manifest_next(entries.drop_last());
        if before > entries.last().id {
            before
        } else {
            entries.last().id + 1
        }
    }
}

/// What using a grain's segment takes.
#[derive(Clone, Copy, Debug, PartialEq, Eq, Structural)]
pub enum Access {
    /// The store is poisoned.
    Refused,
    /// The segment is open, and held for the caller.
    Ready,
    /// The segment with this id must be opened first.
    Open(u64),
    /// The grain has no id: this one must be entered into the manifest first.
    Assign(u64),
    /// The grain is unknown.
    Absent,
}

/// What using a grain's segment takes, by the state of the store.
pub open spec fn access_to(m: FilesModel, key: StoreKeyModel, create: bool) -> Access {
    if m.poison is Some {
        Access::Refused
    } else if m.segments.contains_key(key) {
        Access::Ready
    } else {
        id_access(m, key, create)
    }
}

/// What knowing a grain's id takes.
pub open spec fn id_access(m: FilesModel, key: StoreKeyModel, create: bool) -> Access {
    if m.poison is Some {
        Access::Refused
    } else if m.ids.contains_key(key) {
        Access::Open(m.ids[key])
    } else if create {
        Access::Assign(m.next)
    } else {
        Access::Absent
    }
}

/// The segments with one more user of `key`.
pub open spec fn held(segments: Map<StoreKeyModel, SegmentModel>, key: StoreKeyModel) -> Map<
    StoreKeyModel,
    SegmentModel,
> {
    segments.insert(
        key,
        SegmentModel { users: (segments[key].users + 1) as u64, ..segments[key] },
    )
}

/// The open segments that nobody uses.
pub open spec fn idle(segments: Map<StoreKeyModel, SegmentModel>) -> Set<StoreKeyModel> {
    segments.dom().filter(|k: StoreKeyModel| segments[k].users == 0)
}

/// What closing idle segments may leave of `before`: nothing in use is closed, nothing
/// kept changes, and as many are closed as it takes to come down to the capacity, if
/// there are that many idle ones.
pub open spec fn trimmed(
    before: Map<StoreKeyModel, SegmentModel>,
    capacity: nat,
    after: Map<StoreKeyModel, SegmentModel>,
) -> bool {
    let excess = before.dom().len() - capacity;
    let closing: int = if excess <= 0 {
        0
    } else if excess <= idle(before).len() {
        excess
    } else {
        idle(before).len() as int
    };
    &&& after.dom().subset_of(before.dom())
    &&& forall|k: StoreKeyModel| #[trigger] after.contains_key(k) ==> after[k] == before[k]
    &&& forall|k: StoreKeyModel| #[trigger]
        before.contains_key(k) && before[k].users > 0 ==> after.contains_key(k)
    &&& after.dom().finite()
    &&& after.dom().len() == before.dom().len() - closing
}

impl FileGrainStore {
    /// The parts are well formed, and no id at or above the next one is assigned.
    pub closed spec fn wf(&self) -> bool {
        &&& self.guards.wf()
        &&& self.ids.wf()
        &&& self.segments.wf()
        &&& forall|k: StoreKeyModel| #[trigger]
            self.segments@.contains_key(k) ==> self.segments@[k].wf()
        &&& forall|k: StoreKeyModel| #[trigger]
            self.ids@.contains_key(k) ==> self.ids@[k] < self.next
    }

    /// A store over a directory, from what was read there: its promises and its
    /// manifest. Segments are opened when they are first used.
    pub fn open(dir: &str, guards: Guards, entries: Vec<ManifestEntry>, capacity: usize) -> (r:
        FileGrainStore)
        requires
            guards.wf(),
            forall|i: int| 0 <= i < entries@.len() ==> (#[trigger] entries@[i]).id < u64::MAX,
        ensures
            r.wf(),
            r@.dir == dir@,
            r@.poison is None,
            r@.guards == guards@,
            r@.ids == manifest_ids(entries.deep_view()),
            r@.next == manifest_next(entries.deep_view()),
            r@.segments == Map::<StoreKeyModel, SegmentModel>::empty(),
            r@.capacity == capacity,
    {
        let mut ids: OrdMap<StoreKey, u64> = OrdMap::new();
        let mut next: u64 = 0;
        let ghost items = entries@;
        let ghost all = entries.deep_view();
        assert(all.take(0) =~= seq![]);
        for entry in it: entries
            invariant
                it.seq() == items,
                all.len() == items.len(),
                forall|i: int| 0 <= i < items.len() ==> (#[trigger] items[i]).id < u64::MAX,
                forall|i: int| 0 <= i < items.len() ==> all[i] == (#[trigger] items[i]).deep_view(),
                ids.wf(),
                ids@ == manifest_ids(all.take(it.index() as int)),
                next == manifest_next(all.take(it.index() as int)),
                forall|k: StoreKeyModel| #[trigger] ids@.contains_key(k) ==> ids@[k] < next,
        {
            let ghost i = it.index() as int;
            proof {
                assert(entry == items[i]);
                assert(all.take(i + 1).drop_last() =~= all.take(i));
                assert(all.take(i + 1).last() == all[i]);
            }
            if next <= entry.id {
                next = entry.id + 1;
            }
            ids.insert(StoreKey { shard: entry.shard, grain: entry.grain }, entry.id);
        }
        assert(all.take(items.len() as int) =~= all);
        let segments: OrdMap<StoreKey, Segment> = OrdMap::new();
        assert(segments.deep_view() =~= Map::<StoreKeyModel, SegmentModel>::empty());
        FileGrainStore { dir: dir.to_owned(), poison: None, guards, ids, next, segments, capacity }
    }

    /// Record that the storage is unusable. The first cause is kept: it explains the
    /// rest.
    pub fn fail(&mut self, why: String)
        requires
            old(self).wf(),
        ensures
            final(self).wf(),
            final(self)@ == poisoned_by(old(self)@, why@),
    {
        if self.poison.is_none() {
            self.poison = Some(why);
        }
    }

    /// Whether the store has been poisoned.
    pub fn poisoned(&self) -> (r: bool)
        ensures
            r == self@.poison is Some,
    {
        self.poison.is_some()
    }

    /// Why the store is unusable, if it is.
    pub fn failure(&self) -> (r: Option<String>)
        ensures
            match self@.poison {
                Some(why) => r is Some && r->0@ == why,
                None => r is None,
            },
    {
        match &self.poison {
            Some(why) => Some(why.clone()),
            None => None,
        }
    }

    /// The path of a grain's log.
    pub fn segment_path(&self, id: u64) -> (r: String)
        ensures
            r@ == segment_path(self@.dir, id),
    {
        let dir = path_to(self.dir.as_str(), "segments");
        path_to(dir.as_str(), number_text(id).as_str())
    }

    /// The directory of a grain's blobs.
    pub fn blob_dir(&self, id: u64) -> (r: String)
        ensures
            r@ == blob_dir(self@.dir, id),
    {
        let dir = path_to(self.dir.as_str(), "blobs");
        path_to(dir.as_str(), number_text(id).as_str())
    }

    /// The path of one blob.
    pub fn blob_path(&self, id: u64, blob: &BlobId) -> (r: String)
        ensures
            r@ == blob_path(self@.dir, id, blob@),
    {
        path_to(self.blob_dir(id).as_str(), blob.to_hex().as_str())
    }

    /// What knowing a grain's id takes. Every area of the store passes through here,
    /// the blobs too, so a poisoned store answers for none of them.
    pub fn segment_id(&self, shard: u32, grain: &GrainName, create: bool) -> (r: Access)
        requires
            self.wf(),
        ensures
            r == id_access(self@, key_of(shard, grain), create),
    {
        if self.poisoned() {
            return Access::Refused;
        }
        match self.ids.get(&StoreKey { shard, grain: grain.dup() }) {
            Some(id) => Access::Open(*id),
            None => if create {
                Access::Assign(self.next)
            } else {
                Access::Absent
            },
        }
    }

    /// What using a grain's segment takes; one that is open is held for the caller. A
    /// reader that is told to open a segment whose file is gone takes the grain for
    /// unknown instead.
    pub fn segment(&mut self, shard: u32, grain: &GrainName, create: bool) -> (r: Access)
        requires
            old(self).wf(),
            old(self)@.segments.contains_key(key_of(shard, grain)) ==> old(self)@.segments[key_of(
                shard,
                grain,
            )].users < u64::MAX,
        ensures
            final(self).wf(),
            r == access_to(old(self)@, key_of(shard, grain), create),
            final(self)@ == (FilesModel {
                segments: if r == Access::Ready {
                    held(old(self)@.segments, key_of(shard, grain))
                } else {
                    old(self)@.segments
                },
                ..old(self)@
            }),
    {
        let ghost k = key_of(shard, grain);
        let ghost before = self@;
        if self.poisoned() {
            return Access::Refused;
        }
        let key = StoreKey { shard, grain: grain.dup() };
        let open = match self.segments.get_mut(&key) {
            Some(segment) => {
                segment.users = segment.users + 1;
                true
            },
            None => false,
        };
        if open {
            assert(self.segments.deep_view() =~= held(before.segments, k));
            return Access::Ready;
        }
        assert(self.segments.deep_view() =~= before.segments);
        self.segment_id(shard, grain, create)
    }

    /// The caller is done with a segment.
    pub fn release(&mut self, shard: u32, grain: &GrainName)
        requires
            old(self).wf(),
        ensures
            final(self).wf(),
            ({
                let k = key_of(shard, grain);
                let segments = old(self)@.segments;
                final(self)@ == (FilesModel {
                    segments: if segments.contains_key(k) && segments[k].users > 0 {
                        segments.insert(
                            k,
                            SegmentModel { users: (segments[k].users - 1) as u64, ..segments[k] },
                        )
                    } else {
                        segments
                    },
                    ..old(self)@
                })
            }),
    {
        let ghost k = key_of(shard, grain);
        let ghost before = self@;
        let key = StoreKey { shard, grain: grain.dup() };
        if let Some(segment) = self.segments.get_mut(&key) {
            if segment.users > 0 {
                segment.users = segment.users - 1;
            }
        }
        proof {
            if before.segments.contains_key(k) && before.segments[k].users > 0 {
                assert(self.segments.deep_view() =~= before.segments.insert(
                    k,
                    SegmentModel {
                        users: (before.segments[k].users - 1) as u64,
                        ..before.segments[k]
                    },
                ));
            } else {
                assert(self.segments.deep_view() =~= before.segments);
            }
        }
    }

    /// The manifest took the entry that assigns the next id to a grain, or it did not.
    /// An assignment that is not durable is not published, and poisons the store.
    pub fn assigned(&mut self, shard: u32, grain: &GrainName, outcome: Result<(), String>) -> (r:
        Option<u64>)
        requires
            old(self).wf(),
            old(self)@.next < u64::MAX,
        ensures
            final(self).wf(),
            match outcome {
                Ok(_) => r == Some(old(self)@.next) && final(self)@ == (FilesModel {
                    ids: old(self)@.ids.insert(key_of(shard, grain), old(self)@.next),
                    next: (old(self)@.next + 1) as u64,
                    ..old(self)@
                }),
                Err(err) => r is None && final(self)@ == poisoned_by(
                    old(self)@,
                    failure_text(
                        "grain store manifest persistence failed at "@,
                        path_in(old(self)@.dir, "manifest"@),
                        err@,
                    ),
                ),
            },
    {
        match outcome {
            Ok(_) => {
                let id: u64 = self.next;
                self.next = self.next + 1;
                self.ids.insert(StoreKey { shard, grain: grain.dup() }, id);
                Some(id)
            },
            Err(err) => {
                let path = path_to(self.dir.as_str(), "manifest");
                self.fail(
                    describe_failure(
                        "grain store manifest persistence failed at ",
                        path.as_str(),
                        err.as_str(),
                    ),
                );
                None
            },
        }
    }
}

/// The keys of up to `excess` segments that nobody uses.
fn pick_idle(segments: &OrdMap<StoreKey, Segment>, excess: usize) -> (r: Vec<StoreKey>)
    requires
        segments.wf(),
    ensures
        r.deep_view().no_duplicates(),
        r.deep_view().to_set().subset_of(idle(segments.deep_view())),
        idle(segments.deep_view()).finite(),
        r@.len() == if excess <= idle(segments.deep_view()).len() {
            excess as nat
        } else {
            idle(segments.deep_view()).len()
        },
{
    let ghost all = segments.deep_view();
    let ghost keys = segments.key_seq();
    let ghost wanted = idle(all);
    proof {
        segments.lemma_keys();
        assert(all.dom() =~= segments@.dom());
        all.dom().lemma_len_filter(|k: StoreKeyModel| all[k].users == 0);
    }
    let mut picked: Vec<StoreKey> = Vec::new();
    let n: usize = segments.len();
    let mut i: usize = 0;
    assert(picked.deep_view() =~= seq![]);
    while i < n && picked.len() < excess
        invariant
            segments.wf(),
            all == segments.deep_view(),
            keys == segments.key_seq(),
            keys.no_duplicates(),
            forall|k: StoreKeyModel| keys.contains(k) <==> #[trigger] segments@.contains_key(k),
            wanted == idle(all),
            n == keys.len(),
            i <= n,
            picked@.len() <= excess,
            picked.deep_view().no_duplicates(),
            forall|k: StoreKeyModel| #[trigger]
                picked.deep_view().contains(k) <==> wanted.contains(k) && keys.take(
                    i as int,
                ).contains(k),
        decreases n - i,
    {
        let ghost was = picked.deep_view();
        let ghost k = keys[i as int];
        proof {
            assert(keys.contains(k));
            assert(segments@.contains_key(k));
            assert(keys.take(i + 1) =~= keys.take(i as int).push(k));
            assert(!keys.take(i as int).contains(k));
            assert(!was.contains(k));
        }
        if segments.value_at(i).users == 0 {
            picked.push(segments.key_at(i).dup());
            assert(picked.deep_view() =~= was.push(k));
        }
        assert forall|x: StoreKeyModel| #[trigger]
            picked.deep_view().contains(x) <==> wanted.contains(x) && keys.take(i + 1).contains(
                x,
            ) by {
            lemma_push_contains(keys.take(i as int), k, x);
            lemma_push_contains(was, k, x);
        }
        i = i + 1;
    }
    proof {
        let got = picked.deep_view();
        got.unique_seq_to_set();
        assert(got.to_set().subset_of(wanted));
        vstd::set_lib::lemma_len_subset(got.to_set(), wanted);
        if i == n {
            assert(keys.take(i as int) =~= keys);
            assert(got.to_set() =~= wanted) by {
                assert forall|x: StoreKeyModel| wanted.contains(x) implies got.to_set().contains(
                    x,
                ) by {
                    assert(segments@.contains_key(x));
                    assert(keys.contains(x));
                    assert(got.contains(x));
                }
            }
        }
    }
    picked
}

proof fn lemma_push_contains(s: Seq<StoreKeyModel>, last: StoreKeyModel, x: StoreKeyModel)
    ensures
        s.push(last).contains(x) <==> s.contains(x) || x == last,
{
    let t = s.push(last);
    if s.contains(x) {
        let i = s.index_of(x);
        assert(t[i] == x);
    }
    if x == last {
        assert(t[s.len() as int] == x);
    }
    if t.contains(x) {
        let i = t.index_of(x);
        if i < s.len() {
            assert(s[i] == x);
        }
    }
}

/// Close segments that nobody uses, once more than `capacity` are open. One in use is
/// never closed: opening it a second time would let two handles append to one file.
fn evict_idle_segments(segments: &mut OrdMap<StoreKey, Segment>, capacity: usize)
    requires
        old(segments).wf(),
        forall|k: StoreKeyModel| #[trigger]
            old(segments)@.contains_key(k) ==> old(segments)@[k].wf(),
    ensures
        final(segments).wf(),
        forall|k: StoreKeyModel| #[trigger]
            final(segments)@.contains_key(k) ==> final(segments)@[k].wf(),
        trimmed(old(segments).deep_view(), capacity as nat, final(segments).deep_view()),
{
    let ghost before = segments@;
    let ghost model = segments.deep_view();
    proof {
        segments.lemma_keys();
        assert(model.dom() =~= before.dom());
    }
    let n: usize = segments.len();
    if n <= capacity {
        return;
    }
    let picked = pick_idle(segments, n - capacity);
    let ghost keys = picked.deep_view();
    let mut i: usize = 0;
    assert(keys.take(0).to_set() =~= Set::<StoreKeyModel>::empty());
    while i < picked.len()
        invariant
            segments.wf(),
            keys == picked.deep_view(),
            keys.no_duplicates(),
            keys.to_set().subset_of(before.dom()),
            before.dom().finite(),
            i <= picked@.len(),
            segments@.dom() == before.dom().difference(keys.take(i as int).to_set()),
            segments@.dom().len() == before.dom().len() - i,
            forall|k: StoreKeyModel| #[trigger]
                segments@.contains_key(k) ==> segments@[k] == before[k],
        decreases picked@.len() - i,
    {
        let ghost was = segments@;
        let ghost k = keys[i as int];
        assert(picked@[i as int].deep_view() == k);
        segments.remove(&picked[i]);
        proof {
            assert(keys.contains(k));
            assert(keys.to_set().contains(k));
            assert(!keys.take(i as int).contains(k));
            assert(was.contains_key(k));
            assert(keys.take(i + 1) =~= keys.take(i as int).push(k));
            assert forall|x: StoreKeyModel| segments@.dom().contains(x) <==> before.dom().difference(
                keys.take(i + 1).to_set(),
            ).contains(x) by {
                lemma_push_contains(keys.take(i as int), k, x);
            }
            assert(segments@.dom() =~= before.dom().difference(keys.take(i + 1).to_set()));
            assert(segments@.dom() =~= was.dom().remove(k));
        }
        i = i + 1;
    }
    proof {
        assert(keys.take(i as int) =~= keys);
        let after = segments.deep_view();
        assert(after.dom() =~= segments@.dom());
        segments.lemma_keys();
        assert forall|k: StoreKeyModel| #[trigger]
            model.contains_key(k) && model[k].users > 0 implies after.contains_key(k) by {
            if keys.to_set().contains(k) {
                assert(idle(model).contains(k));
            }
        }
    }
}

impl FileGrainStore {
    /// The log of a grain's segment was read, or could not be. What was read is
    /// replayed, the segment is held for the caller, and idle ones are closed if too
    /// many are open. A log that cannot be read is the disk failing, not the grain
    /// being absent.
    pub fn opened(
        &mut self,
        shard: u32,
        grain: &GrainName,
        id: u64,
        outcome: Result<Vec<SegOp>, String>,
    ) -> (r: bool)
        requires
            old(self).wf(),
            outcome matches Ok(ops) ==> forall|i: int|
                0 <= i < ops@.len() ==> (#[trigger] ops@[i]).wf(),
        ensures
            final(self).wf(),
            r == outcome is Ok,
            match outcome {
                Ok(ops) => {
                    let k = key_of(shard, grain);
                    let segment = SegmentModel { records: replayed(ops.deep_view()), users: 1 };
                    &&& trimmed(
                        old(self)@.segments.insert(k, segment),
                        old(self)@.capacity,
                        final(self)@.segments,
                    )
                    &&& final(self)@.segments.contains_key(k)
                    &&& final(self)@.segments[k] == segment
                    &&& final(self)@ == (FilesModel {
                        segments: final(self)@.segments,
                        ..old(self)@
                    })
                },
                Err(err) => final(self)@ == poisoned_by(
                    old(self)@,
                    failure_text(
                        "cannot open grain segment "@,
                        segment_path(old(self)@.dir, id),
                        err@,
                    ),
                ),
            },
    {
        let ghost before = self@;
        let ghost k = key_of(shard, grain);
        match outcome {
            Ok(ops) => {
                let ghost all = ops.deep_view();
                let records = replay(ops);
                let segment = Segment { records, users: 1 };
                let ghost model = segment.deep_view();
                self.segments.insert(StoreKey { shard, grain: grain.dup() }, segment);
                assert(self.segments.deep_view() =~= before.segments.insert(k, model));
                let capacity: usize = self.capacity;
                evict_idle_segments(&mut self.segments, capacity);
                proof {
                    assert(before.segments.insert(k, model).contains_key(k));
                    assert(self@ =~= FilesModel { segments: self@.segments, ..before });
                }
                true
            },
            Err(err) => {
                let path = self.segment_path(id);
                self.fail(
                    describe_failure("cannot open grain segment ", path.as_str(), err.as_str()),
                );
                false
            },
        }
    }

    /// Whether records may be stored, and what that takes first.
    pub fn guard_record(&self, shard: u32, name_hash: u64, term: Term, kind: WriteKind) -> (r:
        Admission)
        requires
            self.wf(),
        ensures
            r == record_admission(self@.guards, shard, name_hash, term, kind),
    {
        self.guards.guard_record(shard, name_hash, term, kind)
    }

    /// Whether a snapshot may be stored, and what that takes first.
    pub fn guard_snapshot(&self, shard: u32, term: Term, kind: WriteKind) -> (r: Admission)
        requires
            self.wf(),
        ensures
            r == snapshot_admission(self@.guards, shard, term, kind),
    {
        self.guards.guard_snapshot(shard, term, kind)
    }

    /// What promising a term takes.
    pub fn fence_step(&self, shard: u32, term: Term) -> (r: FenceStep)
        requires
            self.wf(),
        ensures
            r == if term.0 < fence_of(self@.guards, shard).0 {
                FenceStep::Refuse(fence_of(self@.guards, shard))
            } else if term.0 > fence_of(self@.guards, shard).0 {
                FenceStep::Persist
            } else {
                FenceStep::Hold
            },
    {
        self.guards.fence_step(shard, term)
    }

    /// Promise a term. `outcome`: how persisting it went, where
    /// [`fence_step`](FileGrainStore::fence_step) asked for that. The fence moves in
    /// memory only after its file has: a promise that a restart would forget is not
    /// made.
    pub fn bump_fence(&mut self, shard: u32, term: Term, outcome: Result<(), String>) -> (r: Result<
        (),
        BumpRefusal,
    >)
        requires
            old(self).wf(),
        ensures
            final(self).wf(),
            ({
                let fence = fence_of(old(self)@.guards, shard);
                if term.0 < fence.0 {
                    r == Err::<(), BumpRefusal>(BumpRefusal::Fenced(fence)) && final(self)@ == old(
                        self,
                    )@
                } else if term.0 == fence.0 {
                    r is Ok && final(self)@ == old(self)@
                } else {
                    match outcome {
                        Ok(_) => r is Ok && final(self)@ == (FilesModel {
                            guards: GuardsModel {
                                fences: old(self)@.guards.fences.insert(shard, term),
                                ..old(self)@.guards
                            },
                            ..old(self)@
                        }),
                        Err(err) => r == Err::<(), BumpRefusal>(BumpRefusal::Failed) && final(self)@
                            == poisoned_by(
                            old(self)@,
                            failure_text(
                                "grain store fence persistence failed at "@,
                                old(self)@.dir,
                                err@,
                            ),
                        ),
                    }
                }
            }),
    {
        let r = self.guards.bump_fence(shard, term, outcome.is_ok());
        if let Err(BumpRefusal::Failed) = r {
            if let Err(err) = outcome {
                let why = describe_failure(
                    "grain store fence persistence failed at ",
                    self.dir.as_str(),
                    err.as_str(),
                );
                self.fail(why);
            }
        }
        r
    }

    /// The log took a batch of records, or it did not. It is applied in memory only
    /// once it is durable; if it is not, the store is poisoned and nothing is
    /// acknowledged.
    pub fn store_record(
        &mut self,
        shard: u32,
        grain: &GrainName,
        id: u64,
        after: SeqNo,
        term: Term,
        batch: Vec<Vec<u8>>,
        kind: WriteKind,
        outcome: Result<(), String>,
    ) -> (r: StoreAck)
        requires
            old(self).wf(),
            after.0 + batch@.len() <= u64::MAX,
        ensures
            final(self).wf(),
            ({
                let k = key_of(shard, grain);
                let segments = old(self)@.segments;
                if old(self)@.poison is Some || !segments.contains_key(k) {
                    r == StoreAck::Failed && final(self)@ == old(self)@
                } else {
                    match outcome {
                        Ok(_) => {
                            let op = OpModel::Record {
                                after,
                                term,
                                records: batch.deep_view(),
                                kind,
                            };
                            &&& r == record_ack(segments[k].records, after, batch@.len(), kind)
                            &&& final(self)@ == (FilesModel {
                                segments: segments.insert(
                                    k,
                                    SegmentModel {
                                        records: applied(segments[k].records, op),
                                        ..segments[k]
                                    },
                                ),
                                ..old(self)@
                            })
                        },
                        Err(err) => r == StoreAck::Failed && final(self)@ == poisoned_by(
                            old(self)@,
                            failure_text(
                                "grain store persistence failed at "@,
                                segment_path(old(self)@.dir, id),
                                err@
                                    + " — a replica that cannot persist a record cannot safely acknowledge it"@,
                            ),
                        ),
                    }
                }
            }),
    {
        let ghost k = key_of(shard, grain);
        let ghost before = self@;
        let key = StoreKey { shard, grain: grain.dup() };
        if self.poisoned() || !self.segments.contains_key(&key) {
            return StoreAck::Failed;
        }
        match outcome {
            Ok(_) => {
                let ghost op = OpModel::Record { after, term, records: batch.deep_view(), kind };
                let ack = match self.segments.get_mut(&key) {
                    Some(segment) => segment.records.store_record(after, term, batch, kind),
                    None => StoreAck::Failed,
                };
                assert(self.segments.deep_view() =~= before.segments.insert(
                    k,
                    SegmentModel {
                        records: applied(before.segments[k].records, op),
                        ..before.segments[k]
                    },
                ));
                ack
            },
            Err(err) => {
                let path = self.segment_path(id);
                let mut why = err;
                why.append(
                    " — a replica that cannot persist a record cannot safely acknowledge it",
                );
                self.fail(
                    describe_failure(
                        "grain store persistence failed at ",
                        path.as_str(),
                        why.as_str(),
                    ),
                );
                StoreAck::Failed
            },
        }
    }

    /// What a recovery read answers once the promise of its term went as `bump` says.
    pub fn prepare(&self, shard: u32, grain: &GrainName, bump: Result<(), BumpRefusal>) -> (r:
        ReadOutcome)
        requires
            self.wf(),
        ensures
            ({
                let k = key_of(shard, grain);
                if self@.poison is Some || !self@.segments.contains_key(k) {
                    r == ReadOutcome::Failed
                } else {
                    match bump {
                        Ok(_) => r matches ReadOutcome::Prepared(reply) && reply.deep_view()
                            == view_of(self@.segments[k].records),
                        Err(BumpRefusal::Fenced(fence)) => r == ReadOutcome::Fenced(fence),
                        Err(BumpRefusal::Failed) => r == ReadOutcome::Failed,
                    }
                }
            }),
    {
        if self.poisoned() {
            return ReadOutcome::Failed;
        }
        match self.segments.get(&StoreKey { shard, grain: grain.dup() }) {
            None => ReadOutcome::Failed,
            Some(segment) => match bump {
                Ok(_) => ReadOutcome::Prepared(segment.records.read()),
                Err(BumpRefusal::Fenced(fence)) => ReadOutcome::Fenced(fence),
                Err(BumpRefusal::Failed) => ReadOutcome::Failed,
            },
        }
    }

    /// Keep a snapshot. If it is newer than the one there is, the state that the log
    /// must be rewritten to is handed back; otherwise nothing durable is owed.
    pub fn store_snapshot(
        &mut self,
        shard: u32,
        grain: &GrainName,
        at: SeqNo,
        term: Term,
        state: Vec<u8>,
    ) -> (r: (StoreAck, Option<GrainCheckpoint>))
        requires
            old(self).wf(),
        ensures
            final(self).wf(),
            r.1 matches Some(checkpoint) ==> checkpoint.wf(),
            ({
                let k = key_of(shard, grain);
                let segments = old(self)@.segments;
                if old(self)@.poison is Some || !segments.contains_key(k) {
                    &&& r.0 == StoreAck::Failed
                    &&& r.1 is None
                    &&& final(self)@ == old(self)@
                } else {
                    let after = compacted(segments[k].records, at, term, state@);
                    &&& r.0 == StoreAck::Stored(at)
                    &&& match r.1 {
                        Some(checkpoint) => advances(segments[k].records, at)
                            && checkpoint.deep_view() == after,
                        None => !advances(segments[k].records, at),
                    }
                    &&& final(self)@ == (FilesModel {
                        segments: segments.insert(
                            k,
                            SegmentModel { records: after, ..segments[k] },
                        ),
                        ..old(self)@
                    })
                }
            }),
    {
        let ghost k = key_of(shard, grain);
        let ghost before = self@;
        let ghost after = compacted(before.segments[k].records, at, term, state@);
        let key = StoreKey { shard, grain: grain.dup() };
        if self.poisoned() {
            return (StoreAck::Failed, None);
        }
        let r = match self.segments.get_mut(&key) {
            Some(segment) => {
                let (ack, advanced) = segment.records.store_snapshot(at, term, state);
                if advanced {
                    (ack, Some(segment.records.export()))
                } else {
                    (ack, None)
                }
            },
            None => (StoreAck::Failed, None),
        };
        proof {
            if before.segments.contains_key(k) {
                assert(self.segments.deep_view() =~= before.segments.insert(
                    k,
                    SegmentModel { records: after, ..before.segments[k] },
                ));
            } else {
                assert(self.segments.deep_view() =~= before.segments);
            }
        }
        r
    }

    /// The log was rewritten to its checkpoint, or it was not; `ack` is what the
    /// snapshot that led to it is answered.
    pub fn checkpoint(&mut self, id: u64, ack: StoreAck, outcome: Result<(), String>) -> (r:
        StoreAck)
        requires
            old(self).wf(),
        ensures
            final(self).wf(),
            match outcome {
                Ok(_) => r == ack && final(self)@ == old(self)@,
                Err(err) => r == StoreAck::Failed && final(self)@ == poisoned_by(
                    old(self)@,
                    failure_text(
                        "grain store compaction failed at "@,
                        segment_path(old(self)@.dir, id),
                        err@,
                    ),
                ),
            },
    {
        match outcome {
            Ok(_) => ack,
            Err(err) => {
                let path = self.segment_path(id);
                self.fail(
                    describe_failure(
                        "grain store compaction failed at ",
                        path.as_str(),
                        err.as_str(),
                    ),
                );
                StoreAck::Failed
            },
        }
    }

    /// The log took a roll-back, or it did not. One that is not durable is not applied
    /// in memory either: a restart would bring back what it dropped.
    pub fn truncate(
        &mut self,
        shard: u32,
        grain: &GrainName,
        id: u64,
        after: SeqNo,
        term: Term,
        outcome: Result<(), String>,
    )
        requires
            old(self).wf(),
        ensures
            final(self).wf(),
            ({
                let k = key_of(shard, grain);
                let segments = old(self)@.segments;
                if old(self)@.poison is Some || !segments.contains_key(k) {
                    final(self)@ == old(self)@
                } else {
                    match outcome {
                        Ok(_) => final(self)@ == (FilesModel {
                            segments: segments.insert(
                                k,
                                SegmentModel {
                                    records: rolled_back(segments[k].records, after, term),
                                    ..segments[k]
                                },
                            ),
                            ..old(self)@
                        }),
                        Err(err) => final(self)@ == poisoned_by(
                            old(self)@,
                            failure_text(
                                "grain store persistence failed at "@,
                                segment_path(old(self)@.dir, id),
                                err@,
                            ),
                        ),
                    }
                }
            }),
    {
        let ghost k = key_of(shard, grain);
        let ghost before = self@;
        let key = StoreKey { shard, grain: grain.dup() };
        if self.poisoned() || !self.segments.contains_key(&key) {
            return;
        }
        match outcome {
            Ok(_) => {
                if let Some(segment) = self.segments.get_mut(&key) {
                    segment.records.truncate(after, term);
                }
                assert(self.segments.deep_view() =~= before.segments.insert(
                    k,
                    SegmentModel {
                        records: rolled_back(before.segments[k].records, after, term),
                        ..before.segments[k]
                    },
                ));
            },
            Err(err) => {
                let path = self.segment_path(id);
                self.fail(
                    describe_failure(
                        "grain store persistence failed at ",
                        path.as_str(),
                        err.as_str(),
                    ),
                );
            },
        }
    }
}

/// The records of an open segment; of one that is not open, none. A poisoned store
/// answers for no grain.
pub open spec fn open_records(m: FilesModel, key: StoreKeyModel) -> RecordsModel {
    if m.poison is None && m.segments.contains_key(key) {
        m.segments[key].records
    } else {
        no_records()
    }
}

impl FileGrainStore {
    /// A grain's segment, if it is open and the store is not poisoned.
    fn open_segment(&self, shard: u32, grain: &GrainName) -> (r: Option<&Segment>)
        requires
            self.wf(),
        ensures
            ({
                let k = key_of(shard, grain);
                match r {
                    Some(segment) => self@.poison is None && self@.segments.contains_key(k)
                        && segment.deep_view() == self@.segments[k] && segment.wf(),
                    None => self@.poison is Some || !self@.segments.contains_key(k),
                }
            }),
    {
        if self.poisoned() {
            return None;
        }
        self.segments.get(&StoreKey { shard, grain: grain.dup() })
    }

    /// What the store holds of a grain whose segment is open.
    pub fn read(&self, shard: u32, grain: &GrainName) -> (r: ReadReply)
        requires
            self.wf(),
        ensures
            r.deep_view() == view_of(open_records(self@, key_of(shard, grain))),
    {
        match self.open_segment(shard, grain) {
            Some(segment) => segment.records.read(),
            None => {
                let r = ReadReply { slots: Vec::new(), snapshot: None };
                assert(r.slots.deep_view() =~= view_of(no_records()).slots);
                r
            },
        }
    }

    /// The last position of a grain's records.
    pub fn head(&self, shard: u32, grain: &GrainName) -> (r: SeqNo)
        requires
            self.wf(),
        ensures
            r.0 == head_of(open_records(self@, key_of(shard, grain))),
    {
        match self.open_segment(shard, grain) {
            Some(segment) => segment.records.head(),
            None => SeqNo(0),
        }
    }

    /// A grain's snapshot and its position.
    pub fn snapshot(&self, shard: u32, grain: &GrainName) -> (r: Option<(SeqNo, Vec<u8>)>)
        requires
            self.wf(),
        ensures
            ({
                let records = open_records(self@, key_of(shard, grain));
                match records.snapshot {
                    Some((_, state)) => r.deep_view() == Some((SeqNo(records.start), state)),
                    None => r is None,
                }
            }),
    {
        match self.open_segment(shard, grain) {
            Some(segment) => segment.records.snapshot(),
            None => None,
        }
    }

    /// A grain's records above `from`, at most `limit`.
    pub fn read_from(&self, shard: u32, grain: &GrainName, from: SeqNo, limit: usize) -> (r: Vec<
        (SeqNo, Vec<u8>),
    >)
        requires
            self.wf(),
        ensures
            r.deep_view() == records_from(
                open_records(self@, key_of(shard, grain)),
                from,
                limit as nat,
            ),
    {
        match self.open_segment(shard, grain) {
            Some(segment) => segment.records.read_from(from, limit),
            None => {
                let out: Vec<(SeqNo, Vec<u8>)> = Vec::new();
                assert(out.deep_view() =~= records_from(no_records(), from, limit as nat));
                out
            },
        }
    }

    /// Whether appends to a grain are refused, by the hash of its name.
    pub fn sealed(&self, shard: u32, name_hash: u64) -> (r: bool)
        requires
            self.wf(),
        ensures
            r == crate::store::is_sealed(self@.guards, shard, name_hash),
    {
        self.guards.sealed(shard, name_hash)
    }

    /// The bound to persist before a range is closed from `from` on; none if it is
    /// closed already.
    pub fn seal_step(&self, shard: u32, from: u64) -> (r: Option<u64>)
        requires
            self.wf(),
        ensures
            ({
                let bound = tightened(self@.guards, shard, from);
                let seals = self@.guards.seals;
                r == if seals.contains_key(shard) && seals[shard] == bound {
                    None
                } else {
                    Some(bound)
                }
            }),
    {
        self.guards.seal_step(shard, from)
    }

    /// The bound of a range was made durable, or it was not. It holds in memory only
    /// once it is; if it is not, the store is poisoned, and refuses more than the
    /// bound would.
    pub fn seal_range(&mut self, shard: u32, from: u64, outcome: Result<(), String>)
        requires
            old(self).wf(),
        ensures
            final(self).wf(),
            match outcome {
                Ok(_) => final(self)@ == (FilesModel {
                    guards: GuardsModel {
                        seals: old(self)@.guards.seals.insert(
                            shard,
                            tightened(old(self)@.guards, shard, from),
                        ),
                        ..old(self)@.guards
                    },
                    ..old(self)@
                }),
                Err(err) => final(self)@ == poisoned_by(
                    old(self)@,
                    failure_text(
                        "grain store seal persistence failed at "@,
                        old(self)@.dir,
                        err@
                            + " — a replica that cannot persist the bound cannot safely promise it"@,
                    ),
                ),
            },
    {
        match outcome {
            Ok(_) => {
                self.guards.seal_range(shard, from);
            },
            Err(err) => {
                let mut why = err;
                why.append(" — a replica that cannot persist the bound cannot safely promise it");
                let text = describe_failure(
                    "grain store seal persistence failed at ",
                    self.dir.as_str(),
                    why.as_str(),
                );
                self.fail(text);
            },
        }
    }

    /// Open a shard's range again; whether its bound's file must go.
    pub fn unseal(&mut self, shard: u32) -> (r: bool)
        requires
            old(self).wf(),
        ensures
            final(self).wf(),
            r == old(self)@.guards.seals.contains_key(shard),
            final(self)@ == (FilesModel {
                guards: GuardsModel {
                    seals: old(self)@.guards.seals.remove(shard),
                    ..old(self)@.guards
                },
                ..old(self)@
            }),
    {
        self.guards.unseal(shard)
    }

    /// Close a grain's segment for good; the id whose files must go. The id stays
    /// assigned: a later use finds an empty segment under it.
    pub fn remove_grain(&mut self, shard: u32, grain: &GrainName) -> (r: Option<u64>)
        requires
            old(self).wf(),
        ensures
            final(self).wf(),
            ({
                let k = key_of(shard, grain);
                if old(self)@.poison is None && old(self)@.ids.contains_key(k) {
                    r == Some(old(self)@.ids[k]) && final(self)@ == (FilesModel {
                        segments: old(self)@.segments.remove(k),
                        ..old(self)@
                    })
                } else {
                    r is None && final(self)@ == old(self)@
                }
            }),
    {
        let ghost k = key_of(shard, grain);
        let ghost before = self@;
        match self.segment_id(shard, grain, false) {
            Access::Open(id) => {
                self.segments.remove(&StoreKey { shard, grain: grain.dup() });
                assert(self.segments.deep_view() =~= before.segments.remove(k));
                Some(id)
            },
            _ => None,
        }
    }

    /// Forget a shard's promises, once its grains have been removed.
    pub fn drop_shard(&mut self, shard: u32)
        requires
            old(self).wf(),
        ensures
            final(self).wf(),
            final(self)@ == (FilesModel {
                guards: GuardsModel {
                    fences: old(self)@.guards.fences.remove(shard),
                    seals: old(self)@.guards.seals.remove(shard),
                },
                ..old(self)@
            }),
    {
        self.guards.drop_shard(shard);
    }

    /// The grains of a shard that the store holds, by the ids that have files.
    /// An id assignment outlives its grain, so presence is the files' to answer.
    pub fn grains(&self, shard: u32, present: &OrdSet<u64>) -> (r: Vec<GrainName>)
        requires
            self.wf(),
            present.wf(),
        ensures
            r.deep_view().no_duplicates(),
            forall|name: NameModel| #[trigger]
                r.deep_view().contains(name) <==> {
                    let k = StoreKeyModel { shard, grain: name };
                    self@.ids.contains_key(k) && present@.contains(self@.ids[k])
                },
    {
        let ghost keys = self.ids.key_seq();
        proof {
            self.ids.lemma_keys();
        }
        let mut out: Vec<GrainName> = Vec::new();
        let n: usize = self.ids.len();
        let mut i: usize = 0;
        assert(out.deep_view() =~= seq![]);
        while i < n
            invariant
                self.wf(),
                present.wf(),
                keys == self.ids.key_seq(),
                keys.no_duplicates(),
                forall|k: StoreKeyModel| keys.contains(k) <==> #[trigger] self.ids@.contains_key(k),
                n == keys.len(),
                i <= n,
                out.deep_view().no_duplicates(),
                forall|name: NameModel| #[trigger]
                    out.deep_view().contains(name) <==> {
                        let k = StoreKeyModel { shard, grain: name };
                        keys.take(i as int).contains(k) && present@.contains(self.ids@[k])
                    },
            decreases n - i,
        {
            let ghost was = out.deep_view();
            let ghost k = keys[i as int];
            let key = self.ids.key_at(i);
            let id: u64 = *self.ids.value_at(i);
            proof {
                assert(keys.take(i + 1) =~= keys.take(i as int).push(k));
                assert(!keys.take(i as int).contains(k));
                if k.shard == shard {
                    assert(k == StoreKeyModel { shard, grain: k.grain });
                    assert(!was.contains(k.grain));
                }
            }
            if key.shard == shard && present.contains(&id) {
                out.push(key.grain.dup());
                assert(out.deep_view() =~= was.push(k.grain));
            }
            proof {
                assert forall|name: NameModel| #[trigger]
                    out.deep_view().contains(name) <==> {
                        let x = StoreKeyModel { shard, grain: name };
                        keys.take(i + 1).contains(x) && present@.contains(self.ids@[x])
                    } by {
                    let x = StoreKeyModel { shard, grain: name };
                    lemma_push_contains(keys.take(i as int), k, x);
                    lemma_push_name(was, k.grain, name);
                }
            }
            i = i + 1;
        }
        proof {
            assert(keys.take(i as int) =~= keys);
            assert forall|name: NameModel| #[trigger]
                out.deep_view().contains(name) <==> {
                    let k = StoreKeyModel { shard, grain: name };
                    self@.ids.contains_key(k) && present@.contains(self@.ids[k])
                } by {
                let k = StoreKeyModel { shard, grain: name };
                assert(keys.contains(k) <==> self.ids@.contains_key(k));
            }
        }
        out
    }

    /// The ids assigned to a shard's grains.
    pub fn shard_ids(&self, shard: u32) -> (r: OrdSet<u64>)
        requires
            self.wf(),
        ensures
            r.wf(),
            forall|id: u64| #[trigger]
                r@.contains(id) <==> exists|k: StoreKeyModel| #[trigger]
                    self@.ids.contains_key(k) && k.shard == shard && self@.ids[k] == id,
    {
        let ghost keys = self.ids.key_seq();
        proof {
            self.ids.lemma_keys();
        }
        let mut out: OrdSet<u64> = OrdSet::new();
        let n: usize = self.ids.len();
        let mut i: usize = 0;
        while i < n
            invariant
                self.wf(),
                out.wf(),
                keys == self.ids.key_seq(),
                forall|k: StoreKeyModel| keys.contains(k) <==> #[trigger] self.ids@.contains_key(k),
                n == keys.len(),
                i <= n,
                forall|id: u64| #[trigger]
                    out@.contains(id) <==> exists|j: int|
                        0 <= j < i && (#[trigger] keys[j]).shard == shard && self.ids@[keys[j]]
                            == id,
            decreases n - i,
        {
            let ghost was = out@;
            let key = self.ids.key_at(i);
            let id: u64 = *self.ids.value_at(i);
            if key.shard == shard {
                out.insert(id);
            }
            proof {
                assert forall|x: u64| #[trigger]
                    out@.contains(x) <==> exists|j: int|
                        0 <= j < i + 1 && (#[trigger] keys[j]).shard == shard && self.ids@[keys[j]]
                            == x by {
                    if was.contains(x) {
                        let j = choose|j: int|
                            0 <= j < i && (#[trigger] keys[j]).shard == shard && self.ids@[keys[j]]
                                == x;
                        assert(keys[j].shard == shard);
                    }
                    if out@.contains(x) && !was.contains(x) {
                        assert(keys[i as int].shard == shard);
                    }
                    if exists|j: int|
                        0 <= j < i + 1 && (#[trigger] keys[j]).shard == shard && self.ids@[keys[j]]
                            == x {
                        let j = choose|j: int|
                            0 <= j < i + 1 && (#[trigger] keys[j]).shard == shard
                                && self.ids@[keys[j]] == x;
                        if j < i {
                            assert(was.contains(x));
                        }
                    }
                }
            }
            i = i + 1;
        }
        proof {
            assert forall|id: u64| #[trigger]
                out@.contains(id) <==> exists|k: StoreKeyModel| #[trigger]
                    self@.ids.contains_key(k) && k.shard == shard && self@.ids[k] == id by {
                if out@.contains(id) {
                    let j = choose|j: int|
                        0 <= j < i && (#[trigger] keys[j]).shard == shard && self.ids@[keys[j]]
                            == id;
                    assert(keys.contains(keys[j]));
                    assert(self@.ids.contains_key(keys[j]));
                }
                if exists|k: StoreKeyModel| #[trigger]
                    self@.ids.contains_key(k) && k.shard == shard && self@.ids[k] == id {
                    let k = choose|k: StoreKeyModel| #[trigger]
                        self@.ids.contains_key(k) && k.shard == shard && self@.ids[k] == id;
                    assert(keys.contains(k));
                    let j = keys.index_of(k);
                    assert(keys[j].shard == shard);
                }
            }
        }
        out
    }
}

proof fn lemma_push_name(s: Seq<NameModel>, last: NameModel, x: NameModel)
    ensures
        s.push(last).contains(x) <==> s.contains(x) || x == last,
{
    let t = s.push(last);
    if s.contains(x) {
        let i = s.index_of(x);
        assert(t[i] == x);
    }
    if x == last {
        assert(t[s.len() as int] == x);
    }
    if t.contains(x) {
        let i = t.index_of(x);
        if i < s.len() {
            assert(s[i] == x);
        }
    }
}

/// The grains whose names fall at or above `from`, each given with the hash of its name.
pub open spec fn range_above(grains: Seq<(NameModel, u64)>, from: u64) -> Seq<NameModel> {
    grains.filter(|g: (NameModel, u64)| g.1 >= from).map_values(|g: (NameModel, u64)| g.0)
}

/// The grains that a removal of the range from `from` on is to remove.
pub fn grains_above(grains: Vec<(GrainName, u64)>, from: u64) -> (r: Vec<GrainName>)
    ensures
        r.deep_view() == range_above(grains.deep_view(), from),
{
    let ghost all = grains.deep_view();
    let ghost items = grains@;
    let ghost wanted = |g: (NameModel, u64)| g.1 >= from;
    let mut out: Vec<GrainName> = Vec::new();
    reveal(Seq::filter);
    assert(out.deep_view() =~= range_above(all.take(0), from));
    for grain in it: grains
        invariant
            it.seq() == items,
            all.len() == items.len(),
            forall|i: int| 0 <= i < items.len() ==> all[i] == (#[trigger] items[i]).deep_view(),
            wanted == (|g: (NameModel, u64)| g.1 >= from),
            out.deep_view() == range_above(all.take(it.index() as int), from),
    {
        let ghost i = it.index() as int;
        let ghost was = out.deep_view();
        proof {
            reveal(Seq::filter);
            assert(grain == items[i]);
            assert(all.take(i + 1).drop_last() =~= all.take(i));
            assert(all.take(i + 1).last() == all[i]);
        }
        let (name, hash) = grain;
        let ghost model = name.deep_view();
        if hash >= from {
            out.push(name);
            assert(out.deep_view() =~= was.push(model));
        }
        assert(out.deep_view() =~= range_above(all.take(i + 1), from));
    }
    assert(all.take(items.len() as int) =~= all);
    out
}

// ---- One store per grain type and node ----

/// A grain type hosted on a node.
#[derive(Debug, PartialEq, Eq)]
pub struct HostedType {
    pub grain_type: String,
    pub node: NodeId,
}

impl DeepView for HostedType {
    type V = (Seq<char>, NodeId);

    open spec fn deep_view(&self) -> (Seq<char>, NodeId) {
        (self.grain_type@, self.node)
    }
}

/// Which stores are open below a root directory, in the order they were asked for.
#[derive(Debug, PartialEq, Eq)]
pub struct StoreFactory {
    root: String,
    hosted: Vec<HostedType>,
}

/// Which of the open stores a grain type has; if it is a new one, where to open it.
#[derive(Debug, PartialEq, Eq)]
pub struct StorePlace {
    pub at: usize,
    pub open: Option<String>,
}

impl StoreFactory {
    /// No grain type has two stores on one node.
    pub closed spec fn wf(&self) -> bool {
        self.hosted.deep_view().no_duplicates()
    }

    pub closed spec fn root(&self) -> Seq<char> {
        self.root@
    }

    /// The grain types and nodes that have a store.
    pub closed spec fn hosted(&self) -> Seq<(Seq<char>, NodeId)> {
        self.hosted.deep_view()
    }

    /// The store of a grain type on a node: the one that is open, or a new one.
    pub fn place(&mut self, grain_type: &str, node: NodeId) -> (r: StorePlace)
        requires
            old(self).wf(),
        ensures
            final(self).wf(),
            final(self).root() == old(self).root(),
            ({
                let pair = (grain_type@, node);
                let before = old(self).hosted();
                if before.contains(pair) {
                    &&& r.at < before.len()
                    &&& before[r.at as int] == pair
                    &&& r.open is None
                    &&& final(self).hosted() == before
                } else {
                    &&& r.at == before.len()
                    &&& r.open is Some
                    &&& r.open->0@ == store_path(old(self).root(), grain_type@, node)
                    &&& final(self).hosted() == before.push(pair)
                }
            }),
    {
        let ghost before = self.hosted.deep_view();
        let ghost pair = (grain_type@, node);
        let n: usize = self.hosted.len();
        let mut i: usize = 0;
        while i < n
            invariant
                self.wf(),
                n == self.hosted@.len(),
                i <= n,
                before == self.hosted.deep_view(),
                pair == (grain_type@, node),
                forall|j: int| 0 <= j < i ==> #[trigger] before[j] != pair,
            decreases n - i,
        {
            let known = &self.hosted[i];
            assert(before[i as int] == known.deep_view());
            if known.node == node && rank_str(known.grain_type.as_str(), grain_type)
                == Rank::Same {
                assert(before.contains(pair));
                return StorePlace { at: i, open: None };
            }
            i = i + 1;
        }
        assert(!before.contains(pair));
        let dir = store_dir(self.root.as_str(), grain_type, node);
        self.hosted.push(HostedType { grain_type: grain_type.to_owned(), node });
        assert(self.hosted.deep_view() =~= before.push(pair));
        StorePlace { at: n, open: Some(dir) }
    }
}

impl FileGrainStore {
    /// The stores below `root`, one for each grain type and node: none is open yet.
    pub fn factory(root: &str) -> (r: StoreFactory)
        ensures
            r.wf(),
            r.root() == root@,
            r.hosted() == Seq::<(Seq<char>, NodeId)>::empty(),
    {
        let r = StoreFactory { root: root.to_owned(), hosted: Vec::new() };
        assert(r.hosted.deep_view() =~= Seq::<(Seq<char>, NodeId)>::empty());
        r
    }
}

/// A directory's text with the slash that its names follow.
spec fn opened_dir(dir: Seq<char>) -> Seq<char> {
    if dir.len() == 0 || dir.last() == '/' {
        dir
    } else {
        dir + "/"@
    }
}

/// A grain type's name that neither begins nor ends in a slash.
pub open spec fn is_plain(grain_type: Seq<char>) -> bool {
    grain_type.len() > 0 ==> grain_type[0] != '/' && grain_type.last() != '/'
}

/// No two stores share a directory: not on two nodes, and not on one node for two grain
/// types, if their names neither begin nor end in a slash.
pub proof fn law_stores_share_no_directory(
    root: Seq<char>,
    a: Seq<char>,
    m: NodeId,
    b: Seq<char>,
    n: NodeId,
)
    requires
        store_path(root, a, m) == store_path(root, b, n),
        m == n ==> is_plain(a) && is_plain(b),
    ensures
        m == n,
        a == b,
{
    reveal_strlit("/");
    let (p, q) = (path_in(root, a), path_in(root, b));
    lemma_decimal_digits(m.0 as nat);
    lemma_decimal_digits(n.0 as nat);
    assert(store_path(root, a, m) =~= opened_dir(p) + decimal(m.0 as nat));
    assert(store_path(root, b, n) =~= opened_dir(q) + decimal(n.0 as nat));
    lemma_number_behind_slash(opened_dir(p), m.0 as nat, opened_dir(q), n.0 as nat);
    let base = opened_dir(root);
    assert(p =~= base + a);
    assert(q =~= base + b);
    if a.len() == 0 {
        assert(p =~= base);
        assert(opened_dir(p) =~= base);
    } else {
        assert(p.last() == a.last());
        assert(opened_dir(p) =~= base + a + "/"@);
    }
    if b.len() == 0 {
        assert(q =~= base);
        assert(opened_dir(q) =~= base);
    } else {
        assert(q.last() == b.last());
        assert(opened_dir(q) =~= base + b + "/"@);
    }
    assert(a.len() == b.len());
    let text = opened_dir(p);
    assert(text.subrange(base.len() as int, (base.len() + a.len()) as int) =~= a);
    assert(text.subrange(base.len() as int, (base.len() + b.len()) as int) =~= b);
}

// ---- Blobs ----

/// How writing a blob's file went.
#[derive(Debug, PartialEq, Eq)]
pub enum BlobWrite {
    /// It was there already: equal ids mean equal content.
    Exists,
    Written,
    /// Its directory could not be made.
    NoDir(String),
    Failed(String),
}

/// How reading a blob's file went.
#[derive(Debug, PartialEq, Eq)]
pub enum BlobRead {
    Found(Vec<u8>),
    Missing,
    Failed(String),
}

impl FileGrainStore {
    /// What storing a blob is answered, by how writing its file went. A poisoned store
    /// acknowledges none.
    pub fn put_blob(&mut self, id: u64, outcome: BlobWrite) -> (r: BlobAck)
        requires
            old(self).wf(),
        ensures
            final(self).wf(),
            ({
                let dir = blob_dir(old(self)@.dir, id);
                match outcome {
                    _ if old(self)@.poison is Some => r == BlobAck::Failed && final(self)@ == old(
                        self,
                    )@,
                    BlobWrite::NoDir(err) => r == BlobAck::Failed && final(self)@ == poisoned_by(
                        old(self)@,
                        failure_text("grain store blob dir failed at "@, dir, err@),
                    ),
                    BlobWrite::Failed(err) => r == BlobAck::Failed && final(self)@ == poisoned_by(
                        old(self)@,
                        failure_text(
                            "grain store blob persistence failed at "@,
                            dir,
                            err@
                                + " — a replica that cannot persist a blob cannot safely acknowledge it"@,
                        ),
                    ),
                    _ => r == BlobAck::Stored && final(self)@ == old(self)@,
                }
            }),
    {
        if self.poisoned() {
            return BlobAck::Failed;
        }
        match outcome {
            BlobWrite::NoDir(err) => {
                let dir = self.blob_dir(id);
                self.fail(
                    describe_failure("grain store blob dir failed at ", dir.as_str(), err.as_str()),
                );
                BlobAck::Failed
            },
            BlobWrite::Failed(err) => {
                let dir = self.blob_dir(id);
                let mut why = err;
                why.append(" — a replica that cannot persist a blob cannot safely acknowledge it");
                self.fail(
                    describe_failure(
                        "grain store blob persistence failed at ",
                        dir.as_str(),
                        why.as_str(),
                    ),
                );
                BlobAck::Failed
            },
            _ => BlobAck::Stored,
        }
    }

    /// What reading a blob is answered, by how reading its file went. Unreadable is
    /// not absent: the store stops claiming to hold anything. A poisoned store has none.
    pub fn get_blob(&mut self, id: u64, blob: &BlobId, outcome: BlobRead) -> (r: Option<Vec<u8>>)
        requires
            old(self).wf(),
        ensures
            final(self).wf(),
            match outcome {
                _ if old(self)@.poison is Some => r is None && final(self)@ == old(self)@,
                BlobRead::Found(bytes) => r == Some(bytes) && final(self)@ == old(self)@,
                BlobRead::Missing => r is None && final(self)@ == old(self)@,
                BlobRead::Failed(err) => r is None && final(self)@ == poisoned_by(
                    old(self)@,
                    failure_text(
                        "grain store blob read failed at "@,
                        blob_path(old(self)@.dir, id, blob@),
                        err@,
                    ),
                ),
            },
    {
        if self.poisoned() {
            return None;
        }
        match outcome {
            BlobRead::Found(bytes) => Some(bytes),
            BlobRead::Missing => None,
            BlobRead::Failed(err) => {
                let path = self.blob_path(id, blob);
                self.fail(
                    describe_failure(
                        "grain store blob read failed at ",
                        path.as_str(),
                        err.as_str(),
                    ),
                );
                None
            },
        }
    }
}

// ---- Laws ----

/// A poisoned store refuses: it opens nothing, assigns nothing, and has no records even
/// of a grain that it served before.
pub proof fn law_a_poisoned_store_refuses(
    m: FilesModel,
    why: Seq<char>,
    key: StoreKeyModel,
    create: bool,
)
    ensures
        access_to(poisoned_by(m, why), key, create) == Access::Refused,
        id_access(poisoned_by(m, why), key, create) == Access::Refused,
        open_records(poisoned_by(m, why), key) == no_records(),
{
}

/// Poisoning is one-way, and the first cause is the one that is kept.
pub proof fn law_the_first_cause_is_kept(m: FilesModel, first: Seq<char>, second: Seq<char>)
    requires
        m.poison is None,
    ensures
        poisoned_by(poisoned_by(m, first), second).poison == Some(first),
{
}

/// No two grains share an id: the next id is one that no grain has, and what a grain
/// was assigned stays its own.
pub proof fn law_a_new_id_is_nobodys(store: &FileGrainStore, key: StoreKeyModel)
    requires
        store.wf(),
        store@.ids.contains_key(key),
    ensures
        store@.ids[key] != store@.next,
{
}

/// However many segments are opened, no more stay open than the capacity allows or than
/// are in use.
pub proof fn law_open_segments_stay_bounded(
    before: Map<StoreKeyModel, SegmentModel>,
    capacity: nat,
    after: Map<StoreKeyModel, SegmentModel>,
)
    requires
        before.dom().finite(),
        trimmed(before, capacity, after),
    ensures
        after.dom().len() <= capacity || after.dom().len() + idle(before).len() == before.dom().len(),
{
}

/// A store that is not poisoned opens what it knows under its own id, and assigns the next
/// one only to a grain it does not know and only if asked to; an open segment is used as it
/// is.
pub proof fn law_a_sound_store_goes_by_its_manifest(
    m: FilesModel,
    key: StoreKeyModel,
    create: bool,
)
    requires
        m.poison is None,
    ensures
        m.ids.contains_key(key) ==> id_access(m, key, create) == Access::Open(m.ids[key]),
        !m.ids.contains_key(key) && create ==> id_access(m, key, create) == Access::Assign(m.next),
        !m.ids.contains_key(key) && !create ==> id_access(m, key, create) == Access::Absent,
        m.segments.contains_key(key) ==> access_to(m, key, create) == Access::Ready
            && open_records(m, key) == m.segments[key].records,
        !m.segments.contains_key(key) ==> access_to(m, key, create) == id_access(m, key, create)
            && open_records(m, key) == no_records(),
{
}

/// A failure poisons a store and changes nothing else of it; later ones change nothing.
pub proof fn law_a_failure_only_poisons(m: FilesModel, why: Seq<char>)
    ensures
        poisoned_by(m, why).poison is Some,
        m.poison is None ==> poisoned_by(m, why) == (FilesModel { poison: Some(why), ..m }),
        m.poison is Some ==> poisoned_by(m, why) == m,
{
}

/// A manifest assigns to each grain the id of its last entry, and the next id is above all
/// that it assigns.
pub proof fn law_a_manifest_assigns_by_its_last_entry(
    entries: Seq<EntryModel>,
    entry: EntryModel,
    other: StoreKeyModel,
)
    ensures
        manifest_ids(seq![]) == Map::<StoreKeyModel, u64>::empty(),
        manifest_next(seq![]) == 0,
        ({
            let key = StoreKeyModel { shard: entry.shard, grain: entry.grain };
            let more = manifest_ids(entries.push(entry));
            &&& more.contains_key(key) && more[key] == entry.id
            &&& other != key ==> more.contains_key(other) == manifest_ids(entries).contains_key(
                other,
            ) && more[other] == manifest_ids(entries)[other]
        }),
        manifest_next(entries.push(entry)) > entry.id,
        manifest_next(entries.push(entry)) >= manifest_next(entries),
        manifest_next(entries.push(entry)) == manifest_next(entries) || manifest_next(
            entries.push(entry),
        ) == entry.id + 1,
{
    assert(entries.push(entry).drop_last() =~= entries);
}

/// Holding a segment counts one more user and changes nothing else; a segment is idle
/// exactly if it has none.
pub proof fn law_users_of_a_segment_are_counted(
    segments: Map<StoreKeyModel, SegmentModel>,
    key: StoreKeyModel,
    other: StoreKeyModel,
)
    requires
        segments.contains_key(key),
        segments[key].users < u64::MAX,
        other != key,
    ensures
        held(segments, key)[key].users == segments[key].users + 1,
        held(segments, key)[key].records == segments[key].records,
        held(segments, key).contains_key(other) == segments.contains_key(other),
        held(segments, key)[other] == segments[other],
        idle(segments).contains(key) <==> segments[key].users == 0,
        !idle(held(segments, key)).contains(key),
{
}

/// Closing idle segments to make room closes none that is in use and none that need not be
/// closed, and changes none that it keeps.
pub proof fn law_trimming_spares_what_is_used(
    before: Map<StoreKeyModel, SegmentModel>,
    capacity: nat,
    after: Map<StoreKeyModel, SegmentModel>,
    key: StoreKeyModel,
)
    requires
        before.dom().finite(),
        trimmed(before, capacity, after),
        before.contains_key(key),
    ensures
        before[key].users > 0 ==> after.contains_key(key),
        after.contains_key(key) ==> after[key] == before[key],
        before.dom().len() <= capacity ==> after.dom().len() == before.dom().len(),
        after.dom().len() >= capacity || after.dom().len() == before.dom().len(),
{
}

/// A grain's log, its blobs and each blob have places of their own below the store.
pub proof fn law_files_are_filed_by_id(dir: Seq<char>, id: u64, blob: Seq<u8>)
    requires
        dir.len() > 0,
        dir.last() != '/',
    ensures
        segment_path(dir, id) == dir + "/"@ + "segments"@ + "/"@ + decimal(id as nat),
        blob_dir(dir, id) == dir + "/"@ + "blobs"@ + "/"@ + decimal(id as nat),
        blob.len() > 0 ==> blob_path(dir, id, blob) == blob_dir(dir, id) + "/"@ + hex(blob),
{
    reveal_strlit("segments");
    reveal_strlit("blobs");
    reveal_strlit("/");
    lemma_decimal_digits(id as nat);
    let (s, b) = (path_in(dir, "segments"@), path_in(dir, "blobs"@));
    assert(s.last() == 's');
    assert(b.last() == 's');
    assert(segment_path(dir, id) =~= dir + "/"@ + "segments"@ + "/"@ + decimal(id as nat));
    assert(blob_dir(dir, id) =~= dir + "/"@ + "blobs"@ + "/"@ + decimal(id as nat));
    let d = blob_dir(dir, id);
    let digits = decimal(id as nat);
    assert(d.last() == digits[digits.len() - 1]);
    if blob.len() > 0 {
        crate::text::lemma_hex_len(blob);
        crate::text::lemma_hex_at(blob, 0);
        assert(blob_path(dir, id, blob) =~= d + "/"@ + hex(blob));
    }
}

/// A range is exactly the grains whose hash is at or above its bound, in their order.
pub proof fn law_a_range_goes_by_hash(
    grains: Seq<(NameModel, u64)>,
    name: NameModel,
    hash: u64,
    from: u64,
)
    ensures
        range_above(seq![], from).len() == 0,
        hash >= from ==> range_above(grains.push((name, hash)), from) == range_above(
            grains,
            from,
        ).push(name),
        hash < from ==> range_above(grains.push((name, hash)), from) == range_above(grains, from),
{
    reveal(Seq::filter);
    let keep = |g: (NameModel, u64)| g.1 >= from;
    let all = grains.push((name, hash));
    assert(all.drop_last() =~= grains);
    assert(all.last() == (name, hash));
    if hash >= from {
        assert(range_above(all, from) =~= range_above(grains, from).push(name));
    }
}

/// A manifest's record is the shard, the grain's name and the id.
pub proof fn law_entries_are_laid_out(m: EntryModel)
    ensures
        ManifestEntry::enc(m) == u32::enc(m.shard) + (GrainName::enc(m.grain) + u64::enc(m.id)),
{
}

} // verus!
