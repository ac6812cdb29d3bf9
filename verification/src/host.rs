//! The host: a grain's live activation, its durability protocol, its rebuilding from
//! the journal, and its hibernation.
//!
//! State changes only after the records that imply it have committed, and a reply is
//! released only then. Where the fate of an append is uncertain the activation steps
//! down: the journal is the authority, and the next activation rebuilds from it.
//!
//! The host awaits nothing. The code around it runs the handler, talks to the journal
//! and the codec, and tells the host what came of it.
use vstd::prelude::*;
use vstd::string::*;

use crate::blobs::BlobId;
use crate::cdc::pieces;
use crate::error::CallError;
use crate::error::GrainError;
use crate::error::NodeId;
use crate::event::GrainEvent;
use crate::facet::law_records_round_trip;
use crate::facet::record;
use crate::facet::record_parts;
use crate::facet::split_record;
use crate::facet::tag_record;
use crate::facet::tags_dispatch;
use crate::facet::FacetCell;
use crate::facet::FacetError;
use crate::facet::FacetSet;
use crate::facet::EVENT_TAG;
use crate::facet_blobs::id_views;
use crate::grain::GrainName;
use crate::journal::AppendOutcome;
use crate::journal::SeqNo;
use crate::key::OrdKey;
use crate::snapshot::carried;
use crate::snapshot::fresh_chunks;
use crate::snapshot::law_a_carried_state_loads_back;
use crate::snapshot::law_snapshots_round_trip;
use crate::snapshot::loaded;
use crate::snapshot::snapshot_fits;
use crate::snapshot::snapshot_meaning;
use crate::snapshot::snapshot_record;
use crate::snapshot::CompositeSnapshot;
use crate::snapshot::PayloadModel;
use crate::snapshot::SnapshotModel;
use crate::snapshot::StatePayload;

verus! {

/// How many records one rehydration read asks for.
pub const REPLAY_BATCH: usize = 256;

/// A grain: the fold of its events, and the facets it declares. The fold is a function
/// of the state and the event alone, so that the live path and a replay agree.
pub trait Grain: Sized {
    type State: DeepView;

    type Event: DeepView;

    type Facets: FacetSet;

    spec fn state_wf(state: Self::State) -> bool;

    /// The state before the first event.
    spec fn empty_state() -> <Self::State as DeepView>::V;

    /// The state after one event.
    spec fn applied(
        state: <Self::State as DeepView>::V,
        event: <Self::Event as DeepView>::V,
    ) -> <Self::State as DeepView>::V;

    fn new_state() -> (r: Self::State)
        ensures
            Self::state_wf(r),
            r.deep_view() == Self::empty_state(),
    ;

    fn apply(state: &mut Self::State, event: &Self::Event)
        requires
            Self::state_wf(*old(state)),
        ensures
            Self::state_wf(*final(state)),
            final(state).deep_view() == Self::applied(old(state).deep_view(), event.deep_view()),
    ;
}

/// A grain's state and its facets' forms.
#[verifier::ext_equal]
#[verifier::reject_recursive_types(G)]
pub struct GrainModel<G: Grain> {
    pub state: <G::State as DeepView>::V,
    pub forms: <<G::Facets as FacetSet>::Forms as DeepView>::V,
}

/// One record of a replay, its event decoded.
#[verifier::reject_recursive_types(G)]
pub enum ReplayModel<G: Grain> {
    Event(<G::Event as DeepView>::V),
    Facet(u8, Seq<u8>),
}

/// The grain after one replayed record, or why it cannot be read.
pub open spec fn replay_one<G: Grain>(g: GrainModel<G>, item: ReplayModel<G>) -> Result<
    GrainModel<G>,
    Seq<char>,
> {
    match item {
        ReplayModel::Event(event) => Ok(
            GrainModel { state: G::applied(g.state, event), forms: g.forms },
        ),
        ReplayModel::Facet(tag, payload) => match G::Facets::folded(g.forms, tag, payload, false) {
            Ok(forms) => Ok(GrainModel { state: g.state, forms }),
            Err(text) => Err(text),
        },
    }
}

/// The grain after a run of replayed records.
pub open spec fn replay_all<G: Grain>(g: GrainModel<G>, items: Seq<ReplayModel<G>>) -> Result<
    GrainModel<G>,
    Seq<char>,
>
    decreases items.len(),
{
    if items.len() == 0 {
        Ok(g)
    } else {
        match replay_all::<G>(g, items.drop_last()) {
            Ok(before) => replay_one::<G>(before, items.last()),
            Err(text) => Err(text),
        }
    }
}

/// The numbers in a run of replayed records stay within their types.
pub open spec fn replay_ok<G: Grain>(g: GrainModel<G>, items: Seq<ReplayModel<G>>) -> bool
    decreases items.len(),
{
    items.len() == 0 || replay_ok::<G>(g, items.drop_last()) && match replay_all::<G>(
        g,
        items.drop_last(),
    ) {
        Ok(before) => match items.last() {
            ReplayModel::Event(_) => true,
            ReplayModel::Facet(tag, payload) => G::Facets::fold_ok(
                before.forms,
                tag,
                payload,
                false,
            ),
        },
        Err(_) => true,
    }
}

pub open spec fn always_one<G: Grain>(item: ReplayModel<G>) -> bool {
    match item {
        ReplayModel::Event(_) => true,
        ReplayModel::Facet(tag, payload) => G::Facets::always_ok(tag, payload),
    }
}

/// They do so whatever they are folded into.
pub open spec fn always_replay_ok<G: Grain>(items: Seq<ReplayModel<G>>) -> bool {
    forall|i: int| 0 <= i < items.len() ==> always_one::<G>(#[trigger] items[i])
}

proof fn lemma_always_replay_ok<G: Grain>(g: GrainModel<G>, items: Seq<ReplayModel<G>>)
    requires
        always_replay_ok::<G>(items),
    ensures
        replay_ok::<G>(g, items),
    decreases items.len(),
{
    if items.len() > 0 {
        let front = items.drop_last();
        assert forall|i: int| 0 <= i < front.len() implies always_one::<G>(#[trigger] front[i]) by {
            assert(front[i] == items[i]);
        }
        lemma_always_replay_ok::<G>(g, front);
        let last = items[items.len() - 1];
        assert(always_one::<G>(last));
        if let Ok(before) = replay_all::<G>(g, front) {
            if let ReplayModel::Facet(tag, payload) = last {
                G::Facets::always_ok_folds(before.forms, tag, payload, false);
            }
        }
    }
}

proof fn lemma_replay_ok_prefix<G: Grain>(g: GrainModel<G>, items: Seq<ReplayModel<G>>, n: int)
    requires
        replay_ok::<G>(g, items),
        0 <= n <= items.len(),
    ensures
        replay_ok::<G>(g, items.take(n)),
    decreases items.len() - n,
{
    if n < items.len() {
        lemma_replay_ok_prefix::<G>(g, items, n + 1);
        assert(items.take(n + 1).drop_last() =~= items.take(n));
    } else {
        assert(items.take(n) =~= items);
    }
}

proof fn lemma_replay_stays_failed<G: Grain>(g: GrainModel<G>, items: Seq<ReplayModel<G>>, n: int)
    requires
        0 <= n <= items.len(),
        replay_all::<G>(g, items.take(n)) is Err,
    ensures
        replay_all::<G>(g, items) == replay_all::<G>(g, items.take(n)),
    decreases items.len() - n,
{
    if n < items.len() {
        assert(items.take(n + 1).drop_last() =~= items.take(n));
        lemma_replay_stays_failed::<G>(g, items, n + 1);
    } else {
        assert(items.take(n) =~= items);
    }
}

/// A replayed record, its event decoded.
#[derive(Clone, Debug, PartialEq, Eq)]
pub enum Replayed<E> {
    Event(E),
    Facet(u8, Vec<u8>),
}

pub open spec fn replayed_view<G: Grain>(item: Replayed<G::Event>) -> ReplayModel<G> {
    match item {
        Replayed::Event(event) => ReplayModel::Event(event.deep_view()),
        Replayed::Facet(tag, payload) => ReplayModel::Facet(tag, payload@),
    }
}

/// The records of a page, without their positions.
pub open spec fn page_items<G: Grain>(page: Seq<(SeqNo, Replayed<G::Event>)>) -> Seq<
    ReplayModel<G>,
> {
    page.map_values(|p: (SeqNo, Replayed<G::Event>)| replayed_view::<G>(p.1))
}

/// The state after a run of events.
pub open spec fn applied_all<G: Grain>(
    state: <G::State as DeepView>::V,
    events: Seq<<G::Event as DeepView>::V>,
) -> <G::State as DeepView>::V
    decreases events.len(),
{
    if events.len() == 0 {
        state
    } else {
        G::applied(applied_all::<G>(state, events.drop_last()), events.last())
    }
}

/// The forms after a command's facet records were folded live.
pub open spec fn folded_live<FS: FacetSet>(
    forms: <FS::Forms as DeepView>::V,
    records: Seq<(u8, Seq<u8>)>,
) -> Result<<FS::Forms as DeepView>::V, Seq<char>>
    decreases records.len(),
{
    if records.len() == 0 {
        Ok(forms)
    } else {
        match folded_live::<FS>(forms, records.drop_last()) {
            Ok(before) => FS::folded(before, records.last().0, records.last().1, true),
            Err(text) => Err(text),
        }
    }
}

/// The forms after as many of a command's facet records as can be folded.
pub open spec fn folded_so_far<FS: FacetSet>(
    forms: <FS::Forms as DeepView>::V,
    records: Seq<(u8, Seq<u8>)>,
) -> <FS::Forms as DeepView>::V
    decreases records.len(),
{
    if records.len() == 0 {
        forms
    } else {
        match folded_live::<FS>(forms, records) {
            Ok(folded) => folded,
            Err(_) => folded_so_far::<FS>(forms, records.drop_last()),
        }
    }
}

/// Every record can be folded into whatever forms.
pub open spec fn always_live_ok<FS: FacetSet>(records: Seq<(u8, Seq<u8>)>) -> bool {
    forall|i: int|
        0 <= i < records.len() ==> FS::always_ok((#[trigger] records[i]).0, records[i].1)
}

proof fn lemma_always_live_ok<FS: FacetSet>(
    forms: <FS::Forms as DeepView>::V,
    records: Seq<(u8, Seq<u8>)>,
)
    requires
        always_live_ok::<FS>(records),
    ensures
        live_ok::<FS>(forms, records),
    decreases records.len(),
{
    if records.len() > 0 {
        let front = records.drop_last();
        assert forall|i: int| 0 <= i < front.len() implies FS::always_ok(
            (#[trigger] front[i]).0,
            front[i].1,
        ) by {
            assert(front[i] == records[i]);
        }
        lemma_always_live_ok::<FS>(forms, front);
        match folded_live::<FS>(forms, front) {
            Ok(before) => {
                let last = records[records.len() - 1];
                FS::always_ok_folds(before, last.0, last.1, true);
            },
            Err(_) => {},
        }
    }
}

/// The numbers in a command's facet records stay within their types.
pub open spec fn live_ok<FS: FacetSet>(
    forms: <FS::Forms as DeepView>::V,
    records: Seq<(u8, Seq<u8>)>,
) -> bool
    decreases records.len(),
{
    records.len() == 0 || live_ok::<FS>(forms, records.drop_last()) && match folded_live::<FS>(
        forms,
        records.drop_last(),
    ) {
        Ok(before) => FS::fold_ok(before, records.last().0, records.last().1, true),
        Err(_) => true,
    }
}

pub open spec fn stages_view<FS: FacetSet>(stages: Option<FS::Stages>) -> Option<
    <FS::Stages as DeepView>::V,
> {
    match stages {
        Some(stages) => Some(stages.deep_view()),
        None => None,
    }
}

/// What closing a command comes to: the forms, and the facets' records; or why a facet
/// could not close its work.
pub open spec fn closed<FS: FacetSet>(
    forms: <FS::Forms as DeepView>::V,
    stages: Option<<FS::Stages as DeepView>::V>,
) -> Result<(<FS::Forms as DeepView>::V, Seq<(u8, Seq<u8>)>), Seq<char>> {
    match stages {
        None => Ok((forms, seq![])),
        Some(open) => match FS::sealed(forms, open) {
            Ok((forms, done)) => Ok((forms, FS::drained(done))),
            Err(text) => Err(text),
        },
    }
}

/// The records of a command: its events, then its facets' records, each under its
/// tag.
pub open spec fn batch_records(events: Seq<Seq<u8>>, facets: Seq<(u8, Seq<u8>)>) -> Seq<Seq<u8>> {
    events.map_values(|e: Seq<u8>| record(EVENT_TAG, e)) + facets.map_values(
        |f: (u8, Seq<u8>)| record(f.0, f.1),
    )
}

/// A command's atomic batch: the records to append, and its facets' part of them.
#[derive(Clone, Debug, PartialEq, Eq)]
pub struct Batch {
    pub records: Vec<Vec<u8>>,
    pub facet_records: Vec<(u8, Vec<u8>)>,
}

/// What a decided command comes to before its append.
#[derive(Clone, Debug, PartialEq, Eq)]
pub enum Sealed {
    /// The command failed; the activation goes on.
    Failed(GrainError),
    /// The command failed and the activation must stop.
    SteppedDown(GrainError),
    /// There is nothing to commit: answer at once.
    Read,
    /// Append this batch at the head.
    Append(Batch),
}

/// What a command comes to after its append.
#[derive(Clone, Debug, PartialEq, Eq)]
pub enum Finished {
    /// Durable and folded: release the reply.
    Committed { from: SeqNo, to: SeqNo },
    /// The activation must stop.
    SteppedDown(GrainError),
}

/// A host that stopped without folding: its materializations are gone, the rest is as
/// it was.
pub open spec fn stepped_down<G: Grain>(before: &Host<G>, after: &Host<G>) -> bool {
    &&& after.state == before.state
    &&& after.head == before.head
    &&& after.grain().forms == <G::Facets as FacetSet>::discarded(before.grain().forms)
}

/// What an idle check comes to.
#[derive(Clone, Copy, Debug, PartialEq, Eq, Structural)]
pub enum Idle {
    Passivate,
    Reschedule,
}

/// A snapshot that is ready: the chunks to store first, their ids, and the record.
#[derive(Clone, Debug, PartialEq, Eq)]
pub struct SnapshotPlan {
    pub chunks: Vec<Vec<u8>>,
    pub ids: Vec<BlobId>,
    pub record: Vec<u8>,
}

/// A grain's live activation.
#[verifier::reject_recursive_types(G)]
pub struct Host<G: Grain> {
    pub state: G::State,
    /// The committed head, taken only from the journal.
    pub head: SeqNo,
    /// The head of the latest persisted snapshot.
    pub last_snapshot: SeqNo,
    pub facets: FacetCell<G::Facets>,
    pub snapshot_every: u64,
    pub idle_after: u64,
    pub last_active: u64,
}

/// The snapshot a rehydration starts from: the stored one, unless it lies beyond the
/// committed head, where the journal is the authority.
pub open spec fn base_of(head: SeqNo, stored: Option<(SeqNo, Seq<u8>)>, codec: Seq<char>) -> Result<
    Option<(SeqNo, SnapshotModel)>,
    Seq<char>,
> {
    match stored {
        Some((at, bytes)) => if at.0 <= head.0 {
            match snapshot_meaning(bytes, codec) {
                Ok(snapshot) => Ok(Some((at, snapshot))),
                Err(text) => Err(text),
            }
        } else {
            Ok(None)
        },
        None => Ok(None),
    }
}

pub open spec fn stored_view(stored: Option<(SeqNo, Vec<u8>)>) -> Option<(SeqNo, Seq<u8>)> {
    match stored {
        Some((at, bytes)) => Some((at, bytes@)),
        None => None,
    }
}

/// Choose the snapshot to start from.
pub fn choose_base(head: SeqNo, stored: Option<(SeqNo, Vec<u8>)>, codec: &str) -> (r: Result<
    Option<(SeqNo, CompositeSnapshot)>,
    FacetError,
>)
    ensures
        match r {
            Ok(Some((at, snapshot))) => base_of(head, stored_view(stored), codec@) == Ok::<
                Option<(SeqNo, SnapshotModel)>,
                Seq<char>,
            >(Some((at, snapshot.deep_view()))),
            Ok(None) => base_of(head, stored_view(stored), codec@) == Ok::<
                Option<(SeqNo, SnapshotModel)>,
                Seq<char>,
            >(None),
            Err(e) => base_of(head, stored_view(stored), codec@) == Err::<
                Option<(SeqNo, SnapshotModel)>,
                Seq<char>,
            >(e.0@),
        },
{
    match stored {
        Some((at, bytes)) => if at.0 <= head.0 {
            match CompositeSnapshot::decode(bytes.as_slice(), codec) {
                Ok(snapshot) => Ok(Some((at, snapshot))),
                Err(e) => Err(e),
            }
        } else {
            Ok(None)
        },
        None => Ok(None),
    }
}

/// One record of a replay before its event is decoded.
#[derive(Clone, Copy, Debug, PartialEq, Eq)]
pub enum ReplayItem<'a> {
    Event(&'a [u8]),
    Facet(u8, &'a [u8]),
}

/// Tell an event from a facet's record.
pub fn classify(bytes: &[u8]) -> (r: Result<ReplayItem<'_>, FacetError>)
    ensures
        match r {
            Ok(ReplayItem::Event(payload)) => record_parts(bytes@) == Ok::<
                (u8, Seq<u8>),
                Seq<char>,
            >((EVENT_TAG, payload@)),
            Ok(ReplayItem::Facet(tag, payload)) => tag != EVENT_TAG && record_parts(bytes@) == Ok::<
                (u8, Seq<u8>),
                Seq<char>,
            >((tag, payload@)),
            Err(e) => record_parts(bytes@) == Err::<(u8, Seq<u8>), Seq<char>>(e.0@),
        },
{
    match split_record(bytes) {
        Err(e) => Err(e),
        Ok((tag, payload)) => if tag == EVENT_TAG {
            Ok(ReplayItem::Event(payload))
        } else {
            Ok(ReplayItem::Facet(tag, payload))
        },
    }
}

/// The text of a facet's failure at some step of a command.
pub open spec fn facet_failure(step: Seq<char>, cause: Seq<char>) -> Seq<char> {
    step + ": facet error: "@ + cause
}

fn unavailable(step: &str, e: &FacetError) -> (r: GrainError)
    ensures
        r matches GrainError::Unavailable(why) && why@ == facet_failure(step@, e.0@),
{
    let mut text = step.to_owned();
    text.append(": facet error: ");
    text.append(e.0.as_str());
    GrainError::Unavailable(text)
}

/// How long the last command lies back.
pub open spec fn idle_for(last_active: u64, now: u64) -> int {
    if now > last_active {
        now - last_active
    } else {
        0
    }
}

impl<G: Grain> Host<G> {
    pub open spec fn wf(&self) -> bool {
        G::state_wf(self.state) && self.facets.wf()
    }

    /// The grain's state and forms.
    pub open spec fn grain(&self) -> GrainModel<G> {
        GrainModel { state: self.state.deep_view(), forms: self.facets.forms.deep_view() }
    }

    /// What no step of a command changes.
    pub open spec fn same_settings(&self, other: &Host<G>) -> bool {
        self.snapshot_every == other.snapshot_every && self.idle_after == other.idle_after
    }

    /// A fresh activation, not yet rebuilt.
    pub fn new(snapshot_every: u64, idle_after: u64) -> (r: Host<G>)
        requires
            tags_dispatch(<G::Facets as FacetSet>::tags()),
        ensures
            r.wf(),
            r.grain() == (GrainModel::<G> {
                state: G::empty_state(),
                forms: <G::Facets as FacetSet>::empty_forms(),
            }),
            r.head.0 == 0,
            r.last_snapshot.0 == 0,
            r.facets.stages is None,
            r.snapshot_every == snapshot_every,
            r.idle_after == idle_after,
            r.last_active == 0,
    {
        Host {
            state: G::new_state(),
            head: SeqNo(0),
            last_snapshot: SeqNo(0),
            facets: FacetCell::new(),
            snapshot_every,
            idle_after,
            last_active: 0,
        }
    }

    // ---- Rebuilding ----

    /// Start from a snapshot: its decoded state, its facets' contributions, and the
    /// chunks its state travelled in. A part that does not restore aborts the
    /// activation.
    pub fn restore_from(
        &mut self,
        at: SeqNo,
        state: G::State,
        parts: &Vec<(u8, Vec<u8>)>,
        chunks: &Vec<BlobId>,
    ) -> (r: Result<(), FacetError>)
        requires
            old(self).wf(),
            G::state_wf(state),
        ensures
            final(self).wf(),
            final(self).same_settings(old(self)),
            final(self).head == old(self).head,
            final(self).last_active == old(self).last_active,
            final(self).facets.stages == old(self).facets.stages,
            match r {
                Ok(_) => <G::Facets as FacetSet>::restored(parts.deep_view()) == Ok::<
                    <<G::Facets as FacetSet>::Forms as DeepView>::V,
                    Seq<char>,
                >(final(self).grain().forms) && final(self).grain().state == state.deep_view()
                    && final(self).last_snapshot == at && final(self).facets.state_roots@
                    == id_views(chunks@).to_set(),
                Err(e) => <G::Facets as FacetSet>::restored(parts.deep_view()) == Err::<
                    <<G::Facets as FacetSet>::Forms as DeepView>::V,
                    Seq<char>,
                >(e.0@) && final(self).grain() == old(self).grain()
                    && final(self).last_snapshot == old(self).last_snapshot
                    && final(self).facets.state_roots == old(self).facets.state_roots,
            },
    {
        match G::Facets::restore(parts) {
            Err(e) => Err(e),
            Ok(forms) => {
                self.state = state;
                self.facets.install(forms);
                self.facets.adopt_state_chunks(chunks);
                self.last_snapshot = at;
                Ok(())
            },
        }
    }

    /// Start from nothing. The facets restore without contributions all the same: one
    /// that materializes makes its empty form here.
    pub fn restore_empty(&mut self) -> (r: Result<(), FacetError>)
        requires
            old(self).wf(),
        ensures
            final(self).wf(),
            final(self).same_settings(old(self)),
            final(self).head == old(self).head,
            final(self).last_active == old(self).last_active,
            final(self).facets.stages == old(self).facets.stages,
            match r {
                Ok(_) => <G::Facets as FacetSet>::restored(seq![]) == Ok::<
                    <<G::Facets as FacetSet>::Forms as DeepView>::V,
                    Seq<char>,
                >(final(self).grain().forms) && final(self).grain().state == G::empty_state()
                    && final(self).last_snapshot.0 == 0 && final(self).facets.state_roots@ == Set::<
                    Seq<u8>,
                >::empty(),
                Err(e) => <G::Facets as FacetSet>::restored(seq![]) == Err::<
                    <<G::Facets as FacetSet>::Forms as DeepView>::V,
                    Seq<char>,
                >(e.0@) && final(self).grain() == old(self).grain()
                    && final(self).last_snapshot == old(self).last_snapshot
                    && final(self).facets.state_roots == old(self).facets.state_roots,
            },
    {
        let parts: Vec<(u8, Vec<u8>)> = Vec::new();
        let chunks: Vec<BlobId> = Vec::new();
        assert(parts.deep_view() =~= seq![]);
        assert(id_views(chunks@).to_set() =~= Set::<Seq<u8>>::empty());
        self.restore_from(SeqNo(0), G::new_state(), &parts, &chunks)
    }

    /// Fold a replayed event.
    pub fn replay_event(&mut self, event: &G::Event)
        requires
            old(self).wf(),
        ensures
            final(self).wf(),
            final(self).same_settings(old(self)),
            final(self).head == old(self).head,
            final(self).last_active == old(self).last_active,
            final(self).last_snapshot == old(self).last_snapshot,
            final(self).facets == old(self).facets,
            replay_one::<G>(old(self).grain(), ReplayModel::Event(event.deep_view())) == Ok::<
                GrainModel<G>,
                Seq<char>,
            >(final(self).grain()),
    {
        G::apply(&mut self.state, event);
    }

    /// Fold a replayed facet record. A tag that no declared facet claims aborts the
    /// activation.
    pub fn replay_facet(&mut self, tag: u8, payload: &[u8]) -> (r: Result<(), FacetError>)
        requires
            old(self).wf(),
            <G::Facets as FacetSet>::fold_ok(old(self).grain().forms, tag, payload@, false),
        ensures
            final(self).wf(),
            final(self).same_settings(old(self)),
            final(self).head == old(self).head,
            final(self).last_active == old(self).last_active,
            final(self).facets.stages == old(self).facets.stages,
            final(self).facets.state_roots == old(self).facets.state_roots,
            final(self).last_snapshot == old(self).last_snapshot,
            final(self).state == old(self).state,
            match r {
                Ok(_) => replay_one::<G>(old(self).grain(), ReplayModel::Facet(tag, payload@))
                    == Ok::<GrainModel<G>, Seq<char>>(final(self).grain()),
                Err(e) => replay_one::<G>(old(self).grain(), ReplayModel::Facet(tag, payload@))
                    == Err::<GrainModel<G>, Seq<char>>(e.0@) && final(self).grain() == old(
                    self,
                ).grain(),
            },
    {
        self.facets.fold_replay(tag, payload)
    }

    /// Fold a page of replayed records, from the position `from` on; the position it
    /// ends at. The first record that cannot be folded aborts the activation.
    pub fn replay(&mut self, from: SeqNo, page: &Vec<(SeqNo, Replayed<G::Event>)>) -> (r: Result<
        SeqNo,
        FacetError,
    >)
        requires
            old(self).wf(),
            replay_ok::<G>(old(self).grain(), page_items::<G>(page@)),
        ensures
            final(self).wf(),
            final(self).same_settings(old(self)),
            final(self).head == old(self).head,
            final(self).last_active == old(self).last_active,
            final(self).facets.stages == old(self).facets.stages,
            final(self).facets.state_roots == old(self).facets.state_roots,
            final(self).last_snapshot == old(self).last_snapshot,
            match r {
                Ok(at) => replay_all::<G>(old(self).grain(), page_items::<G>(page@)) == Ok::<
                    GrainModel<G>,
                    Seq<char>,
                >(final(self).grain()) && at == if page@.len() > 0 {
                    page@.last().0
                } else {
                    from
                },
                Err(e) => replay_all::<G>(old(self).grain(), page_items::<G>(page@)) == Err::<
                    GrainModel<G>,
                    Seq<char>,
                >(e.0@),
            },
    {
        let ghost items = page_items::<G>(page@);
        let ghost before = self.grain();
        let mut at = from;
        let mut i: usize = 0;
        assert(items.take(0) =~= seq![]);
        while i < page.len()
            invariant
                i <= page@.len(),
                items == page_items::<G>(page@),
                replay_ok::<G>(before, items),
                self.wf(),
                self.same_settings(old(self)),
                self.head == old(self).head,
                self.last_active == old(self).last_active,
                self.facets.stages == old(self).facets.stages,
                self.facets.state_roots == old(self).facets.state_roots,
                self.last_snapshot == old(self).last_snapshot,
                before == old(self).grain(),
                replay_all::<G>(before, items.take(i as int)) == Ok::<GrainModel<G>, Seq<char>>(
                    self.grain(),
                ),
                at == if i > 0 {
                    page@[i - 1].0
                } else {
                    from
                },
            decreases page@.len() - i,
        {
            proof {
                lemma_replay_ok_prefix::<G>(before, items, i + 1);
                assert(items.take(i + 1).drop_last() =~= items.take(i as int));
                assert(items.take(i + 1).last() == items[i as int]);
            }
            match &page[i].1 {
                Replayed::Event(event) => {
                    self.replay_event(event);
                },
                Replayed::Facet(tag, payload) => {
                    if let Err(e) = self.replay_facet(*tag, payload.as_slice()) {
                        proof {
                            lemma_replay_stays_failed::<G>(before, items, i + 1);
                        }
                        return Err(e);
                    }
                },
            }
            at = page[i].0;
            i = i + 1;
        }
        assert(items.take(i as int) =~= items);
        Ok(at)
    }

    /// Whether a page's facet records can be folded into whatever forms.
    pub fn replayable(page: &Vec<(SeqNo, Replayed<G::Event>)>) -> (r: bool)
        ensures
            r == always_replay_ok::<G>(page_items::<G>(page@)),
            r ==> forall|g: GrainModel<G>| #[trigger]
                replay_ok::<G>(g, page_items::<G>(page@)),
    {
        let ghost items = page_items::<G>(page@);
        let mut i: usize = 0;
        while i < page.len()
            invariant
                i <= page@.len(),
                items == page_items::<G>(page@),
                forall|j: int| 0 <= j < i ==> always_one::<G>(#[trigger] items[j]),
            decreases page@.len() - i,
        {
            if let Replayed::Facet(tag, payload) = &page[i].1 {
                assert(items[i as int] == ReplayModel::<G>::Facet(*tag, payload@));
                if !<G::Facets as FacetSet>::always_foldable(*tag, payload.as_slice()) {
                    return false;
                }
            }
            i = i + 1;
        }
        proof {
            assert forall|g: GrainModel<G>| #[trigger] replay_ok::<G>(g, items) by {
                lemma_always_replay_ok::<G>(g, items);
            }
        }
        true
    }

    /// The rebuilding is complete: the head is the journal's.
    pub fn rehydrated(&mut self, head: SeqNo, now: u64)
        requires
            old(self).wf(),
        ensures
            final(self).wf(),
            final(self).same_settings(old(self)),
            final(self).grain() == old(self).grain(),
            final(self).last_snapshot == old(self).last_snapshot,
            final(self).facets == old(self).facets,
            final(self).head == head,
            final(self).last_active == now,
    {
        self.head = head;
        self.last_active = now;
    }

    // ---- Commands ----

    /// Drop what a stop that was not chosen leaves untrustworthy: every
    /// materialization. The next activation rebuilds from the journal.
    pub fn forced_step_down(&mut self)
        requires
            old(self).wf(),
        ensures
            final(self).wf(),
            final(self).same_settings(old(self)),
            final(self).state == old(self).state,
            final(self).head == old(self).head,
            final(self).last_snapshot == old(self).last_snapshot,
            final(self).last_active == old(self).last_active,
            final(self).facets.stages == old(self).facets.stages,
            final(self).facets.state_roots == old(self).facets.state_roots,
            final(self).grain().forms == <G::Facets as FacetSet>::discarded(
                old(self).grain().forms,
            ),
    {
        self.facets.discard();
    }

    /// Begin a command. A facet that cannot begin ends the activation.
    pub fn begin_command(&mut self, now: u64, present: bool) -> (r: Result<(), GrainError>)
        requires
            old(self).wf(),
        ensures
            final(self).wf(),
            final(self).same_settings(old(self)),
            final(self).state == old(self).state,
            final(self).head == old(self).head,
            final(self).last_snapshot == old(self).last_snapshot,
            final(self).last_active == now,
            final(self).facets.state_roots == old(self).facets.state_roots,
            match <G::Facets as FacetSet>::begin_refusal(old(self).grain().forms, present) {
                None => r is Ok && final(self).facets.forms == old(self).facets.forms
                    && final(self).facets.stages is Some && final(
                    self).facets.stages->0.deep_view()
                    == <G::Facets as FacetSet>::empty_stages(),
                Some(cause) => r matches Err(GrainError::Unavailable(why)) && why@ == facet_failure(
                    "facet begin"@,
                    cause,
                ) && final(self).grain().forms == <G::Facets as FacetSet>::discarded(
                    old(self).grain().forms,
                ) && final(self).facets.stages == old(self).facets.stages,
            },
    {
        self.last_active = now;
        match self.facets.begin(present) {
            Ok(_) => Ok(()),
            Err(e) => {
                self.forced_step_down();
                Err(unavailable("facet begin", &e))
            },
        }
    }

    /// Seal a decided command: its encoded events (or why one did not encode) and its
    /// facets' records become one atomic batch. The events are encoded before the
    /// facets are drained, so a failure there leaves nothing to undo. An empty batch
    /// commits nothing.
    pub fn seal_command(&mut self, encoded: Result<Vec<Vec<u8>>, String>) -> (r: Sealed)
        requires
            old(self).wf(),
        ensures
            final(self).wf(),
            final(self).same_settings(old(self)),
            final(self).state == old(self).state,
            final(self).head == old(self).head,
            final(self).last_snapshot == old(self).last_snapshot,
            final(self).last_active == old(self).last_active,
            final(self).facets.stages is None,
            final(self).facets.state_roots == old(self).facets.state_roots,
            match encoded {
                Err(text) => r == Sealed::Failed(
                    GrainError::Call(CallError::Serialization(text)),
                ) && final(self).facets.forms == old(self).facets.forms,
                Ok(events) => match closed::<G::Facets>(
                    old(self).grain().forms,
                    stages_view::<G::Facets>(old(self).facets.stages),
                ) {
                    Err(cause) => r matches Sealed::SteppedDown(GrainError::Unavailable(why))
                        && why@ == facet_failure("facet seal"@, cause)
                        && final(self).grain().forms == <G::Facets as FacetSet>::discarded(
                        <G::Facets as FacetSet>::seal_forms(
                            old(self).grain().forms,
                            old(self).facets.stages->0.deep_view(),
                        ),
                    ),
                    Ok((forms, facets)) => {
                        &&& final(self).grain().forms == forms
                        &&& if events@.len() == 0 && facets.len() == 0 {
                            r == Sealed::Read
                        } else {
                            r matches Sealed::Append(batch) && batch.records.deep_view()
                                == batch_records(events.deep_view(), facets)
                                && batch.facet_records.deep_view() == facets
                        }
                    },
                },
            },
            r matches Sealed::Append(batch) ==> encoded matches Ok(events) && {
                let n = events@.len();
                &&& batch.records@.len() == n + batch.facet_records@.len()
                &&& batch.records@.len() > 0
                &&& forall|i: int|
                    0 <= i < n ==> (#[trigger] batch.records@[i])@ == seq![0u8] + events@[i]@
                &&& forall|j: int|
                    0 <= j < batch.facet_records@.len() ==> {
                        let (tag, payload) = #[trigger] batch.facet_records@[j];
                        &&& 0 < tag <= 0x7F
                        &&& batch.records@[n + j]@ == seq![tag] + payload@
                    }
            },
    {
        let events = match encoded {
            Ok(events) => events,
            Err(text) => {
                self.facets.abandon();
                return Sealed::Failed(GrainError::Call(CallError::Serialization(text)));
            },
        };
        let ghost outcome = closed::<G::Facets>(
            self.grain().forms,
            stages_view::<G::Facets>(self.facets.stages),
        );
        let ghost drained: Seq<(u8, Seq<u8>)> = match outcome {
            Ok((_, facets)) => facets,
            Err(_) => seq![],
        };
        proof {
            if let Some(open) = stages_view::<G::Facets>(self.facets.stages) {
                match <G::Facets as FacetSet>::sealed(self.grain().forms, open) {
                    Ok((_, done)) => {
                        <G::Facets as FacetSet>::drained_tags(done);
                    },
                    Err(_) => {},
                }
            }
        }
        let facet_records = match self.facets.seal_and_drain() {
            Ok(records) => records,
            Err(e) => {
                self.forced_step_down();
                return Sealed::SteppedDown(unavailable("facet seal", &e));
            },
        };
        let ghost all = events.deep_view();
        let ghost tagged_events = all.map_values(|e: Seq<u8>| record(EVENT_TAG, e));
        let ghost tagged_facets = drained.map_values(|f: (u8, Seq<u8>)| record(f.0, f.1));
        let mut records: Vec<Vec<u8>> = Vec::new();
        let mut i: usize = 0;
        assert(records.deep_view() =~= tagged_events.take(0));
        while i < events.len()
            invariant
                i <= events@.len(),
                all == events.deep_view(),
                tagged_events == all.map_values(|e: Seq<u8>| record(EVENT_TAG, e)),
                records.deep_view() == tagged_events.take(i as int),
            decreases events@.len() - i,
        {
            let tagged = tag_record(EVENT_TAG, events[i].as_slice());
            let ghost was = records.deep_view();
            records.push(tagged);
            proof {
                assert(tagged.deep_view() =~= tagged@);
                assert(all[i as int] =~= events@[i as int]@);
                assert(records.deep_view() =~= was.push(tagged_events[i as int]));
                assert(tagged_events.take(i + 1) =~= tagged_events.take(i as int).push(
                    tagged_events[i as int],
                ));
            }
            i = i + 1;
        }
        proof {
            assert(tagged_events.take(i as int) =~= tagged_events);
            assert(records.deep_view() =~= tagged_events + tagged_facets.take(0));
        }
        let mut j: usize = 0;
        while j < facet_records.len()
            invariant
                j <= facet_records@.len(),
                drained == facet_records.deep_view(),
                forall|k: int|
                    0 <= k < drained.len() ==> <G::Facets as FacetSet>::tags().contains(
                        (#[trigger] drained[k]).0,
                    ),
                tags_dispatch(<G::Facets as FacetSet>::tags()),
                tagged_facets == drained.map_values(|f: (u8, Seq<u8>)| record(f.0, f.1)),
                records.deep_view() == tagged_events + tagged_facets.take(j as int),
            decreases facet_records@.len() - j,
        {
            let tag: u8 = facet_records[j].0;
            proof {
                assert(drained[j as int].0 == tag);
                let tags = <G::Facets as FacetSet>::tags();
                let k = tags.index_of(tag);
                assert(tags[k] == tag);
            }
            let tagged = tag_record(tag, facet_records[j].1.as_slice());
            let ghost was = records.deep_view();
            records.push(tagged);
            proof {
                assert(tagged.deep_view() =~= tagged@);
                assert(drained[j as int].1 =~= facet_records@[j as int].1@);
                assert(tagged_facets[j as int] == tagged@);
                assert(records.deep_view() =~= was.push(tagged@));
                assert(tagged_events + tagged_facets.take(j + 1) =~= (tagged_events
                    + tagged_facets.take(j as int)).push(tagged@));
            }
            j = j + 1;
        }
        assert(tagged_facets.take(j as int) =~= tagged_facets);
        if records.len() == 0 {
            assert(records.deep_view().len() == 0);
            return Sealed::Read;
        }
        proof {
            let n = all.len() as int;
            assert(records.deep_view().len() == n + drained.len());
            assert forall|k: int| 0 <= k < n implies (#[trigger] records@[k])@ == seq![0u8]
                + events@[k]@ by {
                assert(records.deep_view()[k] == tagged_events[k]);
                assert(records@[k].deep_view() =~= records@[k]@);
                assert(all[k] =~= events@[k]@);
            }
            assert forall|k: int| 0 <= k < facet_records@.len() implies {
                let (tag, payload) = #[trigger] facet_records@[k];
                &&& 0 < tag <= 0x7F
                &&& records@[n + k]@ == seq![tag] + payload@
            } by {
                assert(records.deep_view()[n + k] == tagged_facets[k]);
                assert(records@[n + k].deep_view() =~= records@[n + k]@);
                assert(drained[k].1 =~= facet_records@[k].1@);
                assert(drained[k].0 == facet_records@[k].0);
                let tags = <G::Facets as FacetSet>::tags();
                assert(tags.contains(drained[k].0));
                let t = tags.index_of(drained[k].0);
                assert(tags[t] == drained[k].0);
            }
        }
        Sealed::Append(Batch { records, facet_records })
    }

    /// Whether a batch's facet records can be folded once they have committed.
    pub fn foldable(batch: &Batch) -> (r: bool)
        ensures
            r == always_live_ok::<G::Facets>(batch.facet_records.deep_view()),
            r ==> forall|forms: <<G::Facets as FacetSet>::Forms as DeepView>::V| #[trigger]
                live_ok::<G::Facets>(forms, batch.facet_records.deep_view()),
    {
        let ghost records = batch.facet_records.deep_view();
        let mut i: usize = 0;
        while i < batch.facet_records.len()
            invariant
                i <= batch.facet_records@.len(),
                records == batch.facet_records.deep_view(),
                forall|j: int|
                    0 <= j < i ==> <G::Facets as FacetSet>::always_ok(
                        (#[trigger] records[j]).0,
                        records[j].1,
                    ),
            decreases batch.facet_records@.len() - i,
        {
            let record = &batch.facet_records[i];
            assert(records[i as int].1 =~= record.1@);
            if !<G::Facets as FacetSet>::always_foldable(record.0, record.1.as_slice()) {
                return false;
            }
            i = i + 1;
        }
        proof {
            assert forall|forms: <<G::Facets as FacetSet>::Forms as DeepView>::V| #[trigger]
                live_ok::<G::Facets>(forms, records) by {
                lemma_always_live_ok::<G::Facets>(forms, records);
            }
        }
        true
    }

    /// Fold a command's facet records after their commit.
    fn fold_records(&mut self, records: &Vec<(u8, Vec<u8>)>) -> (r: Result<(), FacetError>)
        requires
            old(self).wf(),
            live_ok::<G::Facets>(old(self).grain().forms, records.deep_view()),
        ensures
            final(self).wf(),
            final(self).same_settings(old(self)),
            final(self).state == old(self).state,
            final(self).head == old(self).head,
            final(self).last_snapshot == old(self).last_snapshot,
            final(self).last_active == old(self).last_active,
            final(self).facets.stages == old(self).facets.stages,
            final(self).facets.state_roots == old(self).facets.state_roots,
            match r {
                Ok(_) => folded_live::<G::Facets>(old(self).grain().forms, records.deep_view())
                    == Ok::<<<G::Facets as FacetSet>::Forms as DeepView>::V, Seq<char>>(
                    final(self).grain().forms,
                ),
                Err(e) => folded_live::<G::Facets>(old(self).grain().forms, records.deep_view())
                    == Err::<<<G::Facets as FacetSet>::Forms as DeepView>::V, Seq<char>>(e.0@)
                    && final(self).grain().forms == folded_so_far::<G::Facets>(
                    old(self).grain().forms,
                    records.deep_view(),
                ),
            },
    {
        let ghost all = records.deep_view();
        let ghost before = self.grain().forms;
        let mut i: usize = 0;
        assert(all.take(0) =~= seq![]);
        while i < records.len()
            invariant
                i <= records@.len(),
                all == records.deep_view(),
                self.wf(),
                before == old(self).grain().forms,
                self.same_settings(old(self)),
                self.state == old(self).state,
                self.head == old(self).head,
                self.last_snapshot == old(self).last_snapshot,
                self.last_active == old(self).last_active,
                self.facets.stages == old(self).facets.stages,
                self.facets.state_roots == old(self).facets.state_roots,
                live_ok::<G::Facets>(before, all),
                folded_live::<G::Facets>(before, all.take(i as int)) == Ok::<
                    <<G::Facets as FacetSet>::Forms as DeepView>::V,
                    Seq<char>,
                >(self.grain().forms),
            decreases records@.len() - i,
        {
            proof {
                assert(all.take(i + 1).drop_last() =~= all.take(i as int));
                assert(all.take(i + 1).last() == all[i as int]);
                assert(all[i as int].0 == records@[i as int].0);
                assert(all[i as int].1 =~= records@[i as int].1@);
                lemma_live_ok_prefix::<G::Facets>(before, all, i + 1);
            }
            match self.facets.fold_live(records[i].0, records[i].1.as_slice()) {
                Ok(_) => {},
                Err(e) => {
                    proof {
                        lemma_fold_stays_failed::<G::Facets>(before, all, i + 1);
                        lemma_folded_so_far::<G::Facets>(before, all, i as int);
                    }
                    return Err(e);
                },
            }
            i = i + 1;
        }
        assert(all.take(i as int) =~= all);
        Ok(())
    }

    /// Finish a command from what its append came to. Committed at exactly the head the
    /// batch leads to, the records are folded and the reply may go. Any other outcome
    /// stops the activation: a jump of the head means that records were committed that
    /// this activation never folded.
    pub fn finish_command(
        &mut self,
        batch: &Batch,
        events: &Vec<G::Event>,
        outcome: AppendOutcome,
    ) -> (r: Finished)
        requires
            old(self).wf(),
            outcome matches AppendOutcome::Committed(to) ==> old(self).head.0 + batch.records@.len()
                <= u64::MAX && (to.0 == old(self).head.0 + batch.records@.len() ==> live_ok::<
                G::Facets,
            >(old(self).grain().forms, batch.facet_records.deep_view())),
        ensures
            final(self).wf(),
            final(self).same_settings(old(self)),
            final(self).last_snapshot == old(self).last_snapshot,
            final(self).last_active == old(self).last_active,
            final(self).facets.stages == old(self).facets.stages,
            final(self).facets.state_roots == old(self).facets.state_roots,
            r is Committed ==> outcome == AppendOutcome::Committed(final(self).head)
                && final(self).head.0 == old(self).head.0 + batch.records@.len(),
            r is SteppedDown ==> final(self).head == old(self).head,
            !(outcome is Committed) ==> r is SteppedDown && final(self).state == old(self).state,
            ({
                let expected = old(self).head.0 + batch.records@.len();
                let forms = folded_live::<G::Facets>(
                    old(self).grain().forms,
                    batch.facet_records.deep_view(),
                );
                match outcome {
                    AppendOutcome::NotLeader(node) => r == Finished::SteppedDown(
                        GrainError::NotLeader(node),
                    ) && stepped_down(old(self), final(self)),
                    AppendOutcome::Unavailable(why) => r == Finished::SteppedDown(
                        GrainError::Unavailable(why),
                    ) && stepped_down(old(self), final(self)),
                    AppendOutcome::Committed(to) => if to.0 != expected {
                        r matches Finished::SteppedDown(GrainError::Unavailable(why)) && why@
                            == "stale head; reactivating"@ && stepped_down(old(self), final(self))
                    } else {
                        match forms {
                            Ok(f) => r == (Finished::Committed { from: old(self).head, to })
                                && final(self).head == to && final(self).grain() == (GrainModel::<
                                G,
                            > {
                                state: applied_all::<G>(
                                    old(self).grain().state,
                                    events.deep_view(),
                                ),
                                forms: f,
                            }),
                            Err(cause) => r matches Finished::SteppedDown(
                                GrainError::Unavailable(why),
                            ) && why@ == facet_failure("facet fold"@, cause) && final(self).head
                                == old(self).head && final(self).grain() == (GrainModel::<G> {
                                state: applied_all::<G>(
                                    old(self).grain().state,
                                    events.deep_view(),
                                ),
                                forms: <G::Facets as FacetSet>::discarded(
                                    folded_so_far::<G::Facets>(
                                        old(self).grain().forms,
                                        batch.facet_records.deep_view(),
                                    ),
                                ),
                            }),
                        }
                    },
                }
            }),
    {
        match outcome {
            AppendOutcome::NotLeader(node) => {
                self.forced_step_down();
                Finished::SteppedDown(GrainError::NotLeader(node))
            },
            AppendOutcome::Unavailable(why) => {
                self.forced_step_down();
                Finished::SteppedDown(GrainError::Unavailable(why))
            },
            AppendOutcome::Committed(to) => {
                let expected: u64 = self.head.0 + batch.records.len() as u64;
                if to.0 != expected {
                    self.forced_step_down();
                    return Finished::SteppedDown(
                        GrainError::Unavailable("stale head; reactivating".to_owned()),
                    );
                }
                let from = self.head;
                let ghost all = events.deep_view();
                let ghost start = self.grain().state;
                let mut i: usize = 0;
                assert(all.take(0) =~= seq![]);
                while i < events.len()
                    invariant
                        i <= events@.len(),
                        all == events.deep_view(),
                        self.wf(),
                        self.same_settings(old(self)),
                        self.facets == old(self).facets,
                        self.head == old(self).head,
                        self.last_snapshot == old(self).last_snapshot,
                        self.last_active == old(self).last_active,
                        self.grain().state == applied_all::<G>(start, all.take(i as int)),
                    decreases events@.len() - i,
                {
                    proof {
                        assert(all.take(i + 1).drop_last() =~= all.take(i as int));
                        assert(all.take(i + 1).last() == events@[i as int].deep_view());
                    }
                    G::apply(&mut self.state, &events[i]);
                    i = i + 1;
                }
                assert(all.take(i as int) =~= all);
                match self.fold_records(&batch.facet_records) {
                    Ok(_) => {
                        self.head = to;
                        Finished::Committed { from, to }
                    },
                    Err(e) => {
                        self.forced_step_down();
                        Finished::SteppedDown(unavailable("facet fold", &e))
                    },
                }
            },
        }
    }

    // ---- Snapshots ----

    /// Whether enough records have committed since the last snapshot.
    pub fn snapshot_due(&self) -> (r: bool)
        ensures
            r == (self.snapshot_every > 0 && self.head.0 >= self.last_snapshot.0
                + self.snapshot_every),
    {
        if self.snapshot_every == 0 {
            return false;
        }
        let since: u64 = self.head.0.saturating_sub(self.last_snapshot.0);
        since >= self.snapshot_every
    }

    /// Plan a snapshot at the current head, from the encoded state. Nothing if no
    /// record is uncovered, if the state did not encode, or if a facet cannot
    /// contribute: a snapshot is only an optimization.
    pub fn plan_snapshot(&self, state: Option<Vec<u8>>, codec: &str) -> (r: Option<SnapshotPlan>)
        requires
            self.wf(),
        ensures
            ({
                let parts = <G::Facets as FacetSet>::snapped(self.grain().forms);
                if self.head.0 <= self.last_snapshot.0 || state is None || parts is Err {
                    r is None
                } else {
                    r matches Some(plan) && {
                        let payload = carried(state->0@);
                        &&& plan.chunks.deep_view() == fresh_chunks(
                            state->0@,
                            self.facets.state_roots@,
                        )
                        &&& plan.ids.deep_view() == match payload {
                            PayloadModel::Inline(_) => seq![],
                            PayloadModel::Chunked(manifest) => manifest.chunks,
                        }
                        &&& plan.record@ == snapshot_record(
                            SnapshotModel { state: payload, facets: parts->Ok_0 },
                            codec@,
                        )
                    }
                }
            }),
    {
        if self.head.0 <= self.last_snapshot.0 {
            return None;
        }
        let state = match state {
            Some(state) => state,
            None => {
                return None;
            },
        };
        let facets = match G::Facets::snapshot(&self.facets.forms) {
            Ok(facets) => facets,
            Err(_) => {
                return None;
            },
        };
        let rooted = self.facets.state_roots();
        let (payload, chunks) = StatePayload::store(state, &rooted);
        let ids = payload.chunks();
        let record = CompositeSnapshot { state: payload, facets }.encode(codec);
        Some(SnapshotPlan { chunks, ids, record })
    }

    /// The chunks of a planned snapshot are durable: keep them alive from now on.
    pub fn chunks_stored(&mut self, ids: &Vec<BlobId>)
        requires
            old(self).wf(),
        ensures
            final(self).wf(),
            final(self).same_settings(old(self)),
            final(self).grain() == old(self).grain(),
            final(self).head == old(self).head,
            final(self).last_snapshot == old(self).last_snapshot,
            final(self).last_active == old(self).last_active,
            final(self).facets.stages == old(self).facets.stages,
            final(self).facets.state_roots@ == old(self).facets.state_roots@.union(
                id_views(ids@).to_set(),
            ),
    {
        self.facets.keep_state_chunks(ids);
    }

    /// Take in what saving a snapshot came to: the head it was persisted at, if it was.
    pub fn snapshot_saved(&mut self, outcome: AppendOutcome) -> (r: Option<u64>)
        requires
            old(self).wf(),
        ensures
            final(self).wf(),
            final(self).same_settings(old(self)),
            final(self).grain() == old(self).grain(),
            final(self).head == old(self).head,
            final(self).last_active == old(self).last_active,
            final(self).facets == old(self).facets,
            match outcome {
                AppendOutcome::Committed(at) => r == Some(at.0) && final(self).last_snapshot == at,
                _ => r is None && final(self).last_snapshot == old(self).last_snapshot,
            },
    {
        match outcome {
            AppendOutcome::Committed(at) => {
                self.last_snapshot = at;
                Some(at.0)
            },
            _ => None,
        }
    }

    // ---- Hibernation ----

    /// How long until the next idle check; none if the grain never hibernates.
    pub fn idle_check_after(&self) -> (r: Option<u64>)
        ensures
            r == if self.idle_after == 0 {
                None
            } else {
                Some(self.idle_after)
            },
    {
        if self.idle_after == 0 {
            None
        } else {
            Some(self.idle_after)
        }
    }

    /// Decide an idle check: hibernate if no command came for long enough and the grain
    /// permits it.
    pub fn check_idle(&self, now: u64, can_passivate: bool) -> (r: Idle)
        ensures
            r == if idle_for(self.last_active, now) >= self.idle_after && can_passivate {
                Idle::Passivate
            } else {
                Idle::Reschedule
            },
            r == Idle::Passivate <==> can_passivate && (self.idle_after == 0 || now
                >= self.last_active + self.idle_after),
    {
        if now.saturating_sub(self.last_active) >= self.idle_after && can_passivate {
            Idle::Passivate
        } else {
            Idle::Reschedule
        }
    }
}

proof fn lemma_live_ok_prefix<FS: FacetSet>(
    forms: <FS::Forms as DeepView>::V,
    records: Seq<(u8, Seq<u8>)>,
    n: int,
)
    requires
        live_ok::<FS>(forms, records),
        0 <= n <= records.len(),
    ensures
        live_ok::<FS>(forms, records.take(n)),
    decreases records.len() - n,
{
    if n < records.len() {
        lemma_live_ok_prefix::<FS>(forms, records, n + 1);
        assert(records.take(n + 1).drop_last() =~= records.take(n));
    } else {
        assert(records.take(n) =~= records);
    }
}

proof fn lemma_folded_so_far<FS: FacetSet>(
    forms: <FS::Forms as DeepView>::V,
    records: Seq<(u8, Seq<u8>)>,
    n: int,
)
    requires
        0 <= n < records.len(),
        folded_live::<FS>(forms, records.take(n)) is Ok,
        folded_live::<FS>(forms, records.take(n + 1)) is Err,
    ensures
        folded_so_far::<FS>(forms, records) == folded_live::<FS>(forms, records.take(n))->Ok_0,
    decreases records.len() - n,
{
    lemma_fold_stays_failed::<FS>(forms, records, n + 1);
    let front = records.drop_last();
    if n + 1 == records.len() {
        assert(front =~= records.take(n));
        assert(records.take(n + 1) =~= records);
        assert(folded_so_far::<FS>(forms, front) == folded_live::<FS>(forms, front)->Ok_0);
    } else {
        assert(front.take(n) =~= records.take(n));
        assert(front.take(n + 1) =~= records.take(n + 1));
        lemma_folded_so_far::<FS>(forms, front, n);
    }
}

proof fn lemma_fold_stays_failed<FS: FacetSet>(
    forms: <FS::Forms as DeepView>::V,
    records: Seq<(u8, Seq<u8>)>,
    n: int,
)
    requires
        0 <= n <= records.len(),
        folded_live::<FS>(forms, records.take(n)) is Err,
    ensures
        folded_live::<FS>(forms, records) == folded_live::<FS>(forms, records.take(n)),
    decreases records.len() - n,
{
    if n < records.len() {
        assert(records.take(n + 1).drop_last() =~= records.take(n));
        lemma_fold_stays_failed::<FS>(forms, records, n + 1);
    } else {
        assert(records.take(n) =~= records);
    }
}

/// A committed batch as subscribers receive it: the head it was appended at, and its
/// records, each with its position.
#[derive(Clone, Debug, PartialEq, Eq)]
pub struct RecordBatch {
    pub from: u64,
    pub records: Vec<(u64, Vec<u8>)>,
}

/// The records of a batch that lies between two heads, each at its position: one per
/// position, as far as both the positions and the records go.
pub open spec fn numbered(from: SeqNo, to: SeqNo, records: Seq<Seq<u8>>) -> Seq<(u64, Seq<u8>)> {
    let positions: int = if to.0 > from.0 {
        to.0 - from.0
    } else {
        0
    };
    let n: int = if records.len() <= positions {
        records.len() as int
    } else {
        positions
    };
    Seq::new(n as nat, |i: int| ((from.0 + 1 + i) as u64, records[i]))
}

/// Number the records of a committed batch for delivery.
pub fn delivered(from: SeqNo, to: SeqNo, records: Vec<Vec<u8>>) -> (r: RecordBatch)
    ensures
        r.from == from.0,
        r.records.deep_view() == numbered(from, to, records.deep_view()),
        forall|i: int|
            0 <= i < r.records@.len() ==> (#[trigger] r.records@[i]).0 == from.0 + 1 + i,
        to.0 == from.0 + records@.len() ==> r.records@.len() == records@.len(),
{
    let ghost all = records.deep_view();
    let ghost items = records@;
    let ghost want = numbered(from, to, all);
    let mut out: Vec<(u64, Vec<u8>)> = Vec::new();
    let mut seq: u64 = from.0;
    assert(out.deep_view() =~= want.take(0));
    for record in it: records
        invariant
            it.seq() == items,
            all.len() == items.len(),
            forall|i: int| 0 <= i < items.len() ==> all[i] == (#[trigger] items[i]).deep_view(),
            want == numbered(from, to, all),
            seq >= from.0,
            seq - from.0 == if it.index() <= want.len() {
                it.index() as int
            } else {
                want.len() as int
            },
            out.deep_view() == want.take(seq - from.0),
    {
        let ghost i = it.index() as int;
        assert(record == items[i]);
        if seq < to.0 {
            seq = seq + 1;
            let ghost was = out.deep_view();
            out.push((seq, record));
            proof {
                assert(out.deep_view() =~= was.push(want[i]));
                assert(want.take(i + 1) =~= want.take(i).push(want[i]));
            }
        }
    }
    assert(want.take(want.len() as int) =~= want);
    assert forall|i: int| 0 <= i < out@.len() implies (#[trigger] out@[i]).0 == from.0 + 1 + i by {
        assert(out.deep_view()[i] == want[i]);
    }
    RecordBatch { from: from.0, records: out }
}

/// A batch that committed is delivered whole: every record, from the position behind the
/// old head up to the new one.
pub proof fn law_a_committed_batch_is_delivered_whole(
    from: SeqNo,
    to: SeqNo,
    records: Seq<Seq<u8>>,
)
    requires
        to.0 == from.0 + records.len(),
    ensures
        numbered(from, to, records).len() == records.len(),
        forall|i: int|
            0 <= i < records.len() ==> #[trigger] numbered(from, to, records)[i] == (
                (from.0 + 1 + i) as u64,
                records[i],
            ),
        records.len() > 0 ==> numbered(from, to, records).last().0 == to.0,
{
}

/// The events of an activation that is ready: how it was rebuilt, and that it serves.
pub fn activation_events(node: NodeId, name: &GrainName, from_snapshot: bool, replayed: u64) -> (r:
    Vec<GrainEvent>)
    ensures
        r@.len() == 2,
        r@[0] matches GrainEvent::Rehydrated { node: n, name: who, from_snapshot: s, replayed: k }
            && n == node && who.deep_view() == name.deep_view() && s == from_snapshot && k
            == replayed,
        r@[1] matches GrainEvent::Activated { node: n, name: who } && n == node && who.deep_view()
            == name.deep_view(),
{
    let mut out: Vec<GrainEvent> = Vec::new();
    out.push(GrainEvent::Rehydrated { node, name: name.dup(), from_snapshot, replayed });
    out.push(GrainEvent::Activated { node, name: name.dup() });
    out
}

// ---- Laws ----

/// What the journaled bytes of some records bring back of the facets' forms: each record
/// that does not lead with the event's zero byte is folded under its leading byte.
pub open spec fn forms_from_bytes<FS: FacetSet>(
    forms: <FS::Forms as DeepView>::V,
    records: Seq<Seq<u8>>,
) -> Result<<FS::Forms as DeepView>::V, Seq<char>>
    decreases records.len(),
{
    if records.len() == 0 {
        Ok(forms)
    } else {
        match forms_from_bytes::<FS>(forms, records.drop_last()) {
            Err(text) => Err(text),
            Ok(before) => if records.last()[0] == 0 {
                Ok(before)
            } else {
                FS::folded(before, records.last()[0], records.last().skip(1), false)
            },
        }
    }
}

/// A batch holds every record of its command, each once: one per event, led by a zero
/// byte, and then one per facet record, led by its tag; all of them can be split again.
pub proof fn law_a_batch_holds_every_record(events: Seq<Seq<u8>>, facets: Seq<(u8, Seq<u8>)>)
    ensures
        batch_records(events, facets).len() == events.len() + facets.len(),
        forall|i: int|
            0 <= i < events.len() ==> {
                let bytes = #[trigger] batch_records(events, facets)[i];
                &&& bytes == seq![0u8] + events[i]
                &&& record_parts(bytes) == Ok::<(u8, Seq<u8>), Seq<char>>((0u8, events[i]))
            },
        forall|j: int|
            0 <= j < facets.len() ==> {
                let bytes = batch_records(events, facets)[events.len() + j];
                &&& bytes == seq![(#[trigger] facets[j]).0] + facets[j].1
                &&& facets[j].0 <= 0x7F ==> record_parts(bytes) == Ok::<(u8, Seq<u8>), Seq<char>>(
                    facets[j],
                )
            },
{
    let all = batch_records(events, facets);
    assert forall|i: int| 0 <= i < events.len() implies {
        let bytes = #[trigger] all[i];
        &&& bytes == seq![0u8] + events[i]
        &&& record_parts(bytes) == Ok::<(u8, Seq<u8>), Seq<char>>((0u8, events[i]))
    } by {
        law_records_round_trip(0u8, events[i]);
    }
    assert forall|j: int| 0 <= j < facets.len() implies {
        let bytes = all[events.len() + j];
        &&& bytes == seq![(#[trigger] facets[j]).0] + facets[j].1
        &&& facets[j].0 <= 0x7F ==> record_parts(bytes) == Ok::<(u8, Seq<u8>), Seq<char>>(facets[j])
    } by {
        if facets[j].0 <= 0x7F {
            law_records_round_trip(facets[j].0, facets[j].1);
        }
    }
}

proof fn lemma_forms_of_events<FS: FacetSet>(
    forms: <FS::Forms as DeepView>::V,
    events: Seq<Seq<u8>>,
)
    ensures
        forms_from_bytes::<FS>(forms, batch_records(events, seq![])) == Ok::<
            <FS::Forms as DeepView>::V,
            Seq<char>,
        >(forms),
    decreases events.len(),
{
    let none = Seq::<(u8, Seq<u8>)>::empty();
    let all = batch_records(events, none);
    law_a_batch_holds_every_record(events, none);
    if events.len() > 0 {
        let front = events.drop_last();
        law_a_batch_holds_every_record(front, none);
        lemma_forms_of_events::<FS>(forms, front);
        assert(all.drop_last() =~= batch_records(front, none));
        assert(all.last() == all[events.len() - 1]);
    }
}

/// A command survives a restart: the bytes of its batch, read back over the forms it began
/// with, give the forms that folding its facets' records live gives.
pub proof fn law_a_batch_brings_back_its_commands_forms<FS: FacetSet>(
    forms: <FS::Forms as DeepView>::V,
    events: Seq<Seq<u8>>,
    facets: Seq<(u8, Seq<u8>)>,
)
    requires
        forall|i: int|
            0 <= i < facets.len() ==> 0 < (#[trigger] facets[i]).0 && !FS::physical_tag(
                facets[i].0,
            ),
    ensures
        forms_from_bytes::<FS>(forms, batch_records(events, facets)) == folded_live::<FS>(
            forms,
            facets,
        ),
    decreases facets.len(),
{
    let all = batch_records(events, facets);
    law_a_batch_holds_every_record(events, facets);
    if facets.len() == 0 {
        assert(facets =~= seq![]);
        lemma_forms_of_events::<FS>(forms, events);
    } else {
        let front = facets.drop_last();
        let last = facets[facets.len() - 1];
        assert forall|i: int| 0 <= i < front.len() implies 0 < (#[trigger] front[i]).0
            && !FS::physical_tag(front[i].0) by {
            assert(front[i] == facets[i]);
        }
        law_a_batch_brings_back_its_commands_forms::<FS>(forms, events, front);
        law_a_batch_holds_every_record(events, front);
        assert(all.drop_last() =~= batch_records(events, front)) by {
            assert forall|k: int| 0 <= k < all.len() - 1 implies all[k] == batch_records(
                events,
                front,
            )[k] by {
                if k >= events.len() {
                    let j = k - events.len();
                    assert(front[j] == facets[j]);
                }
            }
        }
        assert(all.last() == all[events.len() + (facets.len() - 1)]);
        assert(all.last().skip(1) =~= last.1);
        if let Ok(before) = folded_live::<FS>(forms, front) {
            FS::live_as_replayed(before, last.0, last.1);
        }
    }
}

/// Events are folded one after the other, in their order, and none is left out.
pub proof fn law_events_fold_one_by_one<G: Grain>(
    state: <G::State as DeepView>::V,
    events: Seq<<G::Event as DeepView>::V>,
    event: <G::Event as DeepView>::V,
)
    ensures
        applied_all::<G>(state, seq![]) == state,
        applied_all::<G>(state, events.push(event)) == G::applied(
            applied_all::<G>(state, events),
            event,
        ),
{
    assert(events.push(event).drop_last() =~= events);
}

/// A command's facet records are folded one after the other, up to the first that cannot
/// be read.
pub proof fn law_facet_records_fold_one_by_one<FS: FacetSet>(
    forms: <FS::Forms as DeepView>::V,
    records: Seq<(u8, Seq<u8>)>,
    tag: u8,
    payload: Seq<u8>,
)
    ensures
        folded_live::<FS>(forms, seq![]) == Ok::<<FS::Forms as DeepView>::V, Seq<char>>(forms),
        folded_live::<FS>(forms, records.push((tag, payload))) == match folded_live::<FS>(
            forms,
            records,
        ) {
            Ok(before) => FS::folded(before, tag, payload, true),
            Err(text) => Err(text),
        },
{
    assert(records.push((tag, payload)).drop_last() =~= records);
}

/// A replay takes each record in turn: an event into the state and nothing else, a facet's
/// record into the forms and nothing else.
pub proof fn law_a_replay_takes_each_record<G: Grain>(
    g: GrainModel<G>,
    items: Seq<ReplayModel<G>>,
    event: <G::Event as DeepView>::V,
    tag: u8,
    payload: Seq<u8>,
)
    ensures
        replay_all::<G>(g, seq![]) == Ok::<GrainModel<G>, Seq<char>>(g),
        replay_all::<G>(g, items) matches Ok(before) ==> {
            &&& replay_all::<G>(g, items.push(ReplayModel::Event(event))) == Ok::<
                GrainModel<G>,
                Seq<char>,
            >(GrainModel { state: G::applied(before.state, event), forms: before.forms })
            &&& replay_all::<G>(g, items.push(ReplayModel::Facet(tag, payload)))
                == match <G::Facets as FacetSet>::folded(before.forms, tag, payload, false) {
                Ok(forms) => Ok::<GrainModel<G>, Seq<char>>(
                    GrainModel { state: before.state, forms },
                ),
                Err(text) => Err(text),
            }
        },
        replay_all::<G>(g, items) is Err ==> replay_all::<G>(
            g,
            items.push(ReplayModel::Event(event)),
        ) == replay_all::<G>(g, items) && replay_all::<G>(
            g,
            items.push(ReplayModel::Facet(tag, payload)),
        ) == replay_all::<G>(g, items),
{
    assert(items.push(ReplayModel::Event(event)).drop_last() =~= items);
    assert(items.push(ReplayModel::Facet(tag, payload)).drop_last() =~= items);
}

/// A snapshot at or below the committed head is used, at its own position, or the
/// activation is refused; without one nothing is.
pub proof fn law_a_snapshot_up_to_the_head_is_used(
    head: SeqNo,
    at: SeqNo,
    bytes: Seq<u8>,
    codec: Seq<char>,
)
    requires
        at.0 <= head.0,
    ensures
        base_of(head, Some((at, bytes)), codec) == match snapshot_meaning(bytes, codec) {
            Ok(snapshot) => Ok::<Option<(SeqNo, SnapshotModel)>, Seq<char>>(Some((at, snapshot))),
            Err(text) => Err(text),
        },
        base_of(head, None, codec) == Ok::<Option<(SeqNo, SnapshotModel)>, Seq<char>>(None),
{
}

/// A snapshot beyond the committed head is never used.
pub proof fn law_a_snapshot_beyond_the_head_is_ignored(
    head: SeqNo,
    at: SeqNo,
    bytes: Seq<u8>,
    codec: Seq<char>,
)
    requires
        at.0 > head.0,
    ensures
        base_of(head, Some((at, bytes)), codec) == Ok::<
            Option<(SeqNo, SnapshotModel)>,
            Seq<char>,
        >(None),
{
}

/// A command's batch as a replay sees it.
pub open spec fn as_replayed<G: Grain>(
    events: Seq<<G::Event as DeepView>::V>,
    facets: Seq<(u8, Seq<u8>)>,
) -> Seq<ReplayModel<G>> {
    events.map_values(|e: <G::Event as DeepView>::V| ReplayModel::<G>::Event(e))
        + facets.map_values(|f: (u8, Seq<u8>)| ReplayModel::<G>::Facet(f.0, f.1))
}

proof fn lemma_replay_events<G: Grain>(g: GrainModel<G>, events: Seq<<G::Event as DeepView>::V>)
    ensures
        replay_all::<G>(
            g,
            events.map_values(|e: <G::Event as DeepView>::V| ReplayModel::<G>::Event(e)),
        ) == Ok::<GrainModel<G>, Seq<char>>(
            GrainModel { state: applied_all::<G>(g.state, events), forms: g.forms },
        ),
    decreases events.len(),
{
    let f = |e: <G::Event as DeepView>::V| ReplayModel::<G>::Event(e);
    if events.len() > 0 {
        lemma_replay_events::<G>(g, events.drop_last());
        assert(events.map_values(f).drop_last() =~= events.drop_last().map_values(f));
        assert(events.map_values(f).last() == ReplayModel::<G>::Event(events.last()));
    }
}

/// Replaying one run of records and then another is replaying both: rebuilding from a
/// snapshot and the records after it reaches what the whole log reaches.
pub proof fn law_replay_splits<G: Grain>(
    g: GrainModel<G>,
    earlier: Seq<ReplayModel<G>>,
    later: Seq<ReplayModel<G>>,
)
    ensures
        replay_all::<G>(g, earlier + later) == match replay_all::<G>(g, earlier) {
            Ok(middle) => replay_all::<G>(middle, later),
            Err(text) => Err(text),
        },
    decreases later.len(),
{
    if later.len() == 0 {
        assert(earlier + later =~= earlier);
    } else {
        assert((earlier + later).drop_last() =~= earlier + later.drop_last());
        assert((earlier + later).last() == later.last());
        law_replay_splits::<G>(g, earlier, later.drop_last());
    }
}

proof fn lemma_replay_facets<G: Grain>(g: GrainModel<G>, facets: Seq<(u8, Seq<u8>)>)
    requires
        forall|i: int|
            0 <= i < facets.len() ==> !<G::Facets as FacetSet>::physical_tag(
                (#[trigger] facets[i]).0,
            ),
    ensures
        replay_all::<G>(g, facets.map_values(|f: (u8, Seq<u8>)| ReplayModel::<G>::Facet(f.0, f.1)))
            == match folded_live::<G::Facets>(g.forms, facets) {
            Ok(forms) => Ok::<GrainModel<G>, Seq<char>>(GrainModel { state: g.state, forms }),
            Err(text) => Err(text),
        },
    decreases facets.len(),
{
    let f = |f: (u8, Seq<u8>)| ReplayModel::<G>::Facet(f.0, f.1);
    if facets.len() > 0 {
        let front = facets.drop_last();
        assert forall|i: int| 0 <= i < front.len() implies !<G::Facets as FacetSet>::physical_tag(
            (#[trigger] front[i]).0,
        ) by {
            assert(front[i] == facets[i]);
        }
        lemma_replay_facets::<G>(g, front);
        assert(facets.map_values(f).drop_last() =~= front.map_values(f));
        assert(facets.map_values(f).last() == ReplayModel::<G>::Facet(
            facets.last().0,
            facets.last().1,
        ));
        assert(facets[facets.len() - 1] == facets.last());
        if let Ok(before) = folded_live::<G::Facets>(g.forms, front) {
            <G::Facets as FacetSet>::live_as_replayed(before, facets.last().0, facets.last().1);
        }
    }
}

/// The live path and a replay agree: what a committed command leaves in memory is what
/// replaying its records gives. (The records of facets that materialize are the
/// exception: live, their forms changed when the command ran.)
pub proof fn law_live_commit_equals_replay<G: Grain>(
    g: GrainModel<G>,
    events: Seq<<G::Event as DeepView>::V>,
    facets: Seq<(u8, Seq<u8>)>,
)
    requires
        forall|i: int|
            0 <= i < facets.len() ==> !<G::Facets as FacetSet>::physical_tag(
                (#[trigger] facets[i]).0,
            ),
    ensures
        replay_all::<G>(g, as_replayed::<G>(events, facets)) == match folded_live::<G::Facets>(
            g.forms,
            facets,
        ) {
            Ok(forms) => Ok::<GrainModel<G>, Seq<char>>(
                GrainModel { state: applied_all::<G>(g.state, events), forms },
            ),
            Err(text) => Err(text),
        },
{
    lemma_replay_events::<G>(g, events);
    let middle = GrainModel::<G> { state: applied_all::<G>(g.state, events), forms: g.forms };
    lemma_replay_facets::<G>(middle, facets);
    law_replay_splits::<G>(
        g,
        events.map_values(|e: <G::Event as DeepView>::V| ReplayModel::<G>::Event(e)),
        facets.map_values(|f: (u8, Seq<u8>)| ReplayModel::<G>::Facet(f.0, f.1)),
    );
}

/// A crash loses nothing that a snapshot covers: from its record, the forms of the
/// facets come back (of one that materializes, what it is materialized from), and so do
/// the bytes of the state, once its chunks are fetched.
pub proof fn law_a_snapshot_brings_the_grain_back<G: Grain>(
    g: GrainModel<G>,
    bytes: Seq<u8>,
    at: SeqNo,
    head: SeqNo,
    codec: Seq<char>,
)
    requires
        at.0 <= head.0,
        <G::Facets as FacetSet>::tags().no_duplicates(),
        <G::Facets as FacetSet>::keeps(g.forms),
        bytes.len() <= u64::MAX,
        snapshot_fits(snapshot_of::<G>(g, bytes), codec),
    ensures
        base_of(head, Some((at, snapshot_record(snapshot_of::<G>(g, bytes), codec))), codec) == Ok::<
            Option<(SeqNo, SnapshotModel)>,
            Seq<char>,
        >(Some((at, snapshot_of::<G>(g, bytes)))),
        <G::Facets as FacetSet>::restored(snapshot_of::<G>(g, bytes).facets) == Ok::<
            <<G::Facets as FacetSet>::Forms as DeepView>::V,
            Seq<char>,
        >(<G::Facets as FacetSet>::reborn(g.forms)),
        !<G::Facets as FacetSet>::materializes() ==> <G::Facets as FacetSet>::reborn(g.forms)
            == g.forms,
        loaded(snapshot_of::<G>(g, bytes).state, pieces(bytes)) == Ok::<Seq<u8>, Seq<char>>(bytes),
{
    <G::Facets as FacetSet>::snapshot_keeps(g.forms);
    law_snapshots_round_trip(snapshot_of::<G>(g, bytes), codec);
    law_a_carried_state_loads_back(bytes);
}

/// Restoring a snapshot and replaying the records above it reaches what replaying the
/// whole log reaches. (Facets that materialize are the exception: theirs is the same
/// once the waiting manifests are applied.)
pub proof fn law_restore_then_replay_is_the_whole_replay<G: Grain>(
    start: GrainModel<G>,
    earlier: Seq<ReplayModel<G>>,
    later: Seq<ReplayModel<G>>,
)
    requires
        replay_all::<G>(start, earlier) is Ok,
        <G::Facets as FacetSet>::tags().no_duplicates(),
        !<G::Facets as FacetSet>::materializes(),
        <G::Facets as FacetSet>::keeps(replay_all::<G>(start, earlier)->Ok_0.forms),
    ensures
        ({
            let middle = replay_all::<G>(start, earlier)->Ok_0;
            let parts = <G::Facets as FacetSet>::snapped(middle.forms)->Ok_0;
            let restored = <G::Facets as FacetSet>::restored(parts);
            &&& restored is Ok
            &&& replay_all::<G>(
                GrainModel { state: middle.state, forms: restored->Ok_0 },
                later,
            ) == replay_all::<G>(start, earlier + later)
        }),
{
    let middle = replay_all::<G>(start, earlier)->Ok_0;
    <G::Facets as FacetSet>::snapshot_keeps(middle.forms);
    law_replay_splits::<G>(start, earlier, later);
}

/// The snapshot of a grain whose state encodes to `bytes`.
pub open spec fn snapshot_of<G: Grain>(g: GrainModel<G>, bytes: Seq<u8>) -> SnapshotModel {
    SnapshotModel {
        state: carried(bytes),
        facets: <G::Facets as FacetSet>::snapped(g.forms)->Ok_0,
    }
}

/// A page is replayed record by record, each as it was read: an event as that event, a
/// facet's record under its tag with its payload.
pub proof fn law_a_page_is_replayed_whole<G: Grain>(
    page: Seq<(SeqNo, Replayed<G::Event>)>,
    i: int,
)
    requires
        0 <= i < page.len(),
    ensures
        page_items::<G>(page).len() == page.len(),
        page_items::<G>(page)[i] == match page[i].1 {
            Replayed::Event(event) => ReplayModel::<G>::Event(event.deep_view()),
            Replayed::Facet(tag, payload) => ReplayModel::<G>::Facet(tag, payload@),
        },
{
}

/// Closing a command loses no record: what its facets drain is what is appended. Outside a
/// command there is nothing to close.
pub proof fn law_closing_a_command_loses_nothing<FS: FacetSet>(
    forms: <FS::Forms as DeepView>::V,
    stages: FS::Stages,
)
    ensures
        stages_view::<FS>(Some(stages)) == Some(stages.deep_view()),
        stages_view::<FS>(None) is None,
        closed::<FS>(forms, None) == Ok::<
            (<FS::Forms as DeepView>::V, Seq<(u8, Seq<u8>)>),
            Seq<char>,
        >((forms, seq![])),
        match FS::sealed(forms, stages.deep_view()) {
            Ok((after, done)) => closed::<FS>(forms, Some(stages.deep_view())) == Ok::<
                (<FS::Forms as DeepView>::V, Seq<(u8, Seq<u8>)>),
                Seq<char>,
            >((after, FS::drained(done))),
            Err(text) => closed::<FS>(forms, Some(stages.deep_view())) == Err::<
                (<FS::Forms as DeepView>::V, Seq<(u8, Seq<u8>)>),
                Seq<char>,
            >(text),
        },
{
}

/// An activation that stops without committing keeps its state and its head, and gives up
/// every materialization.
pub proof fn law_a_stop_folds_nothing<G: Grain>(before: &Host<G>, after: &Host<G>)
    requires
        stepped_down(before, after),
    ensures
        after.state == before.state,
        after.head == before.head,
        after.facets.forms.deep_view() == <G::Facets as FacetSet>::discarded(
            before.facets.forms.deep_view(),
        ),
{
}

/// A failed fold leaves what could be folded before it: all records up to the first that
/// cannot be.
pub proof fn law_a_failed_fold_keeps_what_came_before<FS: FacetSet>(
    forms: <FS::Forms as DeepView>::V,
    records: Seq<(u8, Seq<u8>)>,
    tag: u8,
    payload: Seq<u8>,
)
    ensures
        folded_so_far::<FS>(forms, seq![]) == forms,
        folded_live::<FS>(forms, records) matches Ok(folded) ==> folded_so_far::<FS>(forms, records)
            == folded,
        folded_live::<FS>(forms, records.push((tag, payload))) is Err ==> folded_so_far::<FS>(
            forms,
            records.push((tag, payload)),
        ) == folded_so_far::<FS>(forms, records),
{
    assert(records.push((tag, payload)).drop_last() =~= records);
}

/// A stored snapshot is seen with its position and all of its bytes.
pub proof fn law_a_stored_snapshot_is_seen_whole(at: SeqNo, bytes: Vec<u8>)
    ensures
        stored_view(Some((at, bytes))) == Some((at, bytes@)),
        stored_view(None) is None,
{
}

/// A command's records, as a replay sees them, are its events and then its facets' records,
/// all of them.
pub proof fn law_a_replay_sees_the_whole_command<G: Grain>(
    events: Seq<<G::Event as DeepView>::V>,
    facets: Seq<(u8, Seq<u8>)>,
)
    ensures
        as_replayed::<G>(events, facets).len() == events.len() + facets.len(),
        forall|i: int|
            0 <= i < events.len() ==> #[trigger] as_replayed::<G>(events, facets)[i]
                == ReplayModel::<G>::Event(events[i]),
        forall|j: int|
            0 <= j < facets.len() ==> as_replayed::<G>(events, facets)[events.len() + j]
                == ReplayModel::<G>::Facet((#[trigger] facets[j]).0, facets[j].1),
{
}

/// Two hosts with the same settings snapshot and hibernate alike.
pub proof fn law_same_settings_are_the_same<G: Grain>(a: &Host<G>, b: &Host<G>)
    requires
        a.same_settings(b),
    ensures
        a.snapshot_every == b.snapshot_every,
        a.idle_after == b.idle_after,
{
}

/// What is asked of a command's records before they are folded is asked of each of them,
/// where it is folded; of none, nothing is.
pub proof fn law_folding_asks_of_each_record<FS: FacetSet>(
    forms: <FS::Forms as DeepView>::V,
    records: Seq<(u8, Seq<u8>)>,
    tag: u8,
    payload: Seq<u8>,
)
    ensures
        live_ok::<FS>(forms, seq![]),
        live_ok::<FS>(forms, records) && (folded_live::<FS>(forms, records) matches Ok(before)
            ==> FS::fold_ok(before, tag, payload, true)) ==> live_ok::<FS>(
            forms,
            records.push((tag, payload)),
        ),
        always_live_ok::<FS>(records) ==> live_ok::<FS>(forms, records),
        always_live_ok::<FS>(records) && FS::always_ok(tag, payload) ==> always_live_ok::<FS>(
            records.push((tag, payload)),
        ),
{
    assert(records.push((tag, payload)).drop_last() =~= records);
    if always_live_ok::<FS>(records) {
        lemma_always_live_ok::<FS>(forms, records);
    }
}

/// What is asked of replayed records before they are folded is asked of the facets' alone,
/// each where it is folded; an event may always be.
pub proof fn law_replaying_asks_of_facet_records<G: Grain>(
    g: GrainModel<G>,
    items: Seq<ReplayModel<G>>,
    event: <G::Event as DeepView>::V,
    tag: u8,
    payload: Seq<u8>,
)
    ensures
        replay_ok::<G>(g, seq![]),
        replay_ok::<G>(g, items) ==> replay_ok::<G>(g, items.push(ReplayModel::Event(event))),
        replay_ok::<G>(g, items) && (replay_all::<G>(g, items) matches Ok(before)
            ==> <G::Facets as FacetSet>::fold_ok(before.forms, tag, payload, false)) ==> replay_ok::<
            G,
        >(g, items.push(ReplayModel::Facet(tag, payload))),
        always_replay_ok::<G>(items) ==> replay_ok::<G>(g, items),
{
    assert(items.push(ReplayModel::Event(event)).drop_last() =~= items);
    assert(items.push(ReplayModel::Facet(tag, payload)).drop_last() =~= items);
    if always_replay_ok::<G>(items) {
        lemma_always_replay_ok::<G>(g, items);
    }
}

} // verus!
