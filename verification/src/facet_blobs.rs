//! What the checkpointing facets share: which blobs an activation keeps alive, and
//! how chunks travel to and from the blob area.
use vstd::prelude::*;
use vstd::string::*;

use crate::blobs::blake3_digest;
use crate::blobs::BlobId;
use crate::facet::FacetError;
use crate::grain::GrainName;
use crate::ordmap::OrdSet;
use crate::text::hex;

verus! {

/// The ids of a list.
pub open spec fn id_views(ids: Seq<BlobId>) -> Seq<Seq<u8>> {
    ids.map_values(|id: BlobId| id@)
}

/// The set of a list's ids.
pub fn set_of(ids: &Vec<BlobId>) -> (r: OrdSet<BlobId>)
    ensures
        r.wf(),
        r@ == id_views(ids@).to_set(),
{
    let mut out: OrdSet<BlobId> = OrdSet::new();
    let ghost all = id_views(ids@);
    let mut i: usize = 0;
    assert(out@ =~= all.take(0).to_set());
    while i < ids.len()
        invariant
            i <= ids@.len(),
            all == id_views(ids@),
            out.wf(),
            out@ == all.take(i as int).to_set(),
        decreases ids@.len() - i,
    {
        let ghost was = out@;
        out.insert(ids[i]);
        proof {
            let next = all.take(i + 1);
            assert(next =~= all.take(i as int).push(all[i as int]));
            assert forall|x: Seq<u8>| next.to_set().contains(x) == was.insert(all[i as int]).contains(
                x,
            ) by {
                if all.take(i as int).contains(x) {
                    let j = all.take(i as int).index_of(x);
                    assert(next[j] == x);
                }
                if x == all[i as int] {
                    assert(next[i as int] == x);
                }
                if next.contains(x) {
                    let j = next.index_of(x);
                    if j < i {
                        assert(all.take(i as int)[j] == x);
                    }
                }
            }
            assert(out@ =~= next.to_set());
        }
        i = i + 1;
    }
    assert(all.take(i as int) =~= all);
    out
}

/// The blob ids an activation must keep alive: the restored manifest's, and those
/// of every later checkpoint. The set only grows while the activation lives, so a
/// failed checkpoint can never leave the durable one's blobs unprotected.
#[derive(Clone, Debug, PartialEq, Eq)]
pub struct RootSet {
    kept: OrdSet<BlobId>,
}

impl View for RootSet {
    type V = Set<Seq<u8>>;

    closed spec fn view(&self) -> Set<Seq<u8>> {
        self.kept@
    }
}

impl Default for RootSet {
    fn default() -> (r: RootSet)
        ensures
            r.wf(),
            r@ == Set::<Seq<u8>>::empty(),
    {
        RootSet { kept: OrdSet::new() }
    }
}

impl RootSet {
    pub closed spec fn wf(&self) -> bool {
        self.kept.wf()
    }

    /// Adopt a durable manifest's ids: the one place the set may shrink.
    pub fn reset(&mut self, ids: &Vec<BlobId>)
        ensures
            final(self).wf(),
            final(self)@ == id_views(ids@).to_set(),
    {
        self.kept = set_of(ids);
    }

    /// Keep a checkpoint's ids too.
    pub fn extend(&mut self, ids: &Vec<BlobId>)
        requires
            old(self).wf(),
        ensures
            final(self).wf(),
            final(self)@ == old(self)@.union(id_views(ids@).to_set()),
    {
        let more = set_of(ids);
        self.kept.union(&more);
    }

    /// The kept ids.
    pub fn ids(&self) -> (r: OrdSet<BlobId>)
        requires
            self.wf(),
        ensures
            r.wf(),
            r@ == self@,
    {
        self.kept.dup()
    }
}

// ---- Transfers ----

/// How many chunk transfers are in flight at once.
pub const IN_FLIGHT_CHUNKS: usize = 16;

/// A run of transfers whose chunks are pulled as slots free up. A chunk that its
/// source cannot produce ends the pull; what is in flight still completes.
pub struct Pulling {
    in_flight: usize,
    stopped: bool,
}

impl Pulling {
    pub closed spec fn wf(&self) -> bool {
        self.in_flight <= IN_FLIGHT_CHUNKS
    }

    pub closed spec fn running(&self) -> nat {
        self.in_flight as nat
    }

    /// The source has failed.
    pub closed spec fn ended(&self) -> bool {
        self.stopped
    }

    pub fn new() -> (r: Pulling)
        ensures
            r.wf(),
            r.running() == 0,
            !r.ended(),
    {
        Pulling { in_flight: 0, stopped: false }
    }

    /// Whether to ask the source for another chunk.
    pub fn may_pull(&self) -> (r: bool)
        ensures
            r == (!self.ended() && self.running() < IN_FLIGHT_CHUNKS),
    {
        !self.stopped && self.in_flight < IN_FLIGHT_CHUNKS
    }

    /// The source was asked, and produced a chunk (whose transfer begins) or failed.
    pub fn pulled(&mut self, produced: bool)
        requires
            old(self).wf(),
            old(self).running() < IN_FLIGHT_CHUNKS,
            !old(self).ended(),
        ensures
            final(self).wf(),
            final(self).running() == if produced {
                old(self).running() + 1
            } else {
                old(self).running()
            },
            final(self).ended() == !produced,
    {
        if produced {
            self.in_flight = self.in_flight + 1;
        } else {
            self.stopped = true;
        }
    }

    /// A transfer completed.
    pub fn completed(&mut self)
        requires
            old(self).wf(),
            old(self).running() > 0,
        ensures
            final(self).wf(),
            final(self).running() == old(self).running() - 1,
            final(self).ended() == old(self).ended(),
    {
        self.in_flight = self.in_flight - 1;
    }
}

/// The completions name each position once.
pub open spec fn each_position_once<T>(done: Seq<(usize, Result<T, FacetError>)>) -> bool {
    &&& forall|i: int| 0 <= i < done.len() ==> (#[trigger] done[i]).0 < done.len()
    &&& forall|i: int, j: int|
        0 <= i < j < done.len() ==> (#[trigger] done[i]).0 != (#[trigger] done[j]).0
}

/// Put completions, each tagged with its position, back into order: all the values,
/// or the failure of the earliest position that failed.
pub fn in_order<T>(done: Vec<(usize, Result<T, FacetError>)>) -> (r: Result<Vec<T>, FacetError>)
    requires
        each_position_once(done@),
    ensures
        match r {
            Ok(values) => values@.len() == done@.len() && forall|i: int|
                0 <= i < done@.len() ==> (#[trigger] done@[i]).1 == Ok::<T, FacetError>(
                    values@[done@[i].0 as int],
                ),
            Err(e) => exists|i: int|
                0 <= i < done@.len() && (#[trigger] done@[i]).1 == Err::<T, FacetError>(e) && (
                forall|j: int|
                    0 <= j < done@.len() && (#[trigger] done@[j]).0 < done@[i].0 ==> done@[j].1 is Ok),
        },
{
    let ghost all = done@;
    let n: usize = done.len();
    let mut slots: Vec<Option<Result<T, FacetError>>> = Vec::new();
    while slots.len() < n
        invariant
            slots@.len() <= n,
            forall|k: int| 0 <= k < slots@.len() ==> (#[trigger] slots@[k]) is None,
        decreases n - slots@.len(),
    {
        slots.push(None);
    }
    for item in it: done
        invariant
            it.seq() == all,
            all.len() == n,
            each_position_once(all),
            slots@.len() == n,
            forall|i: int|
                0 <= i < it.index() ==> slots@[(#[trigger] all[i]).0 as int] == Some(all[i].1),
            forall|k: int|
                0 <= k < n && (forall|i: int| 0 <= i < it.index() ==> (#[trigger] all[i]).0 != k)
                    ==> (#[trigger] slots@[k]) is None,
    {
        let ghost i = it.index() as int;
        assert(item == all[i]);
        let (at, value) = item;
        slots.set(at, Some(value));
        assert forall|k: int|
            0 <= k < n && (forall|j: int| 0 <= j < i + 1 ==> (#[trigger] all[j]).0 != k) implies (
        #[trigger] slots@[k]) is None by {
            assert(all[i].0 != k);
        }
    }
    proof {
        lemma_positions_covered(all);
    }
    let ghost filled = slots@;
    assert forall|k: int| 0 <= k < n implies (#[trigger] filled[k]) is Some && exists|i: int|
        0 <= i < n && (#[trigger] all[i]).0 == k && filled[k] == Some(all[i].1) by {
        assert(has_position(all, k));
        let i = choose|i: int| 0 <= i < n && (#[trigger] all[i]).0 == k;
        assert(filled[all[i].0 as int] == Some(all[i].1));
    }
    let mut out: Vec<T> = Vec::new();
    for slot in it: slots
        invariant
            it.seq() == filled,
            filled.len() == n,
            all.len() == n,
            all == done@,
            each_position_once(all),
            forall|i: int|
                0 <= i < n ==> filled[(#[trigger] all[i]).0 as int] == Some(all[i].1),
            forall|k: int|
                0 <= k < n ==> (#[trigger] filled[k]) is Some && exists|i: int|
                    0 <= i < n && (#[trigger] all[i]).0 == k && filled[k] == Some(all[i].1),
            out@.len() == it.index(),
            forall|k: int|
                0 <= k < it.index() ==> (#[trigger] filled[k]) == Some(
                    Ok::<T, FacetError>(out@[k]),
                ),
    {
        let ghost k = it.index() as int;
        assert(slot == filled[k]);
        match slot {
            Some(Ok(value)) => {
                out.push(value);
            },
            Some(Err(e)) => {
                proof {
                    let i = choose|i: int|
                        0 <= i < n && (#[trigger] all[i]).0 == k && filled[k] == Some(all[i].1);
                    assert(all[i].1 == Err::<T, FacetError>(e));
                    assert forall|j: int|
                        0 <= j < n && (#[trigger] all[j]).0 < all[i].0 implies all[j].1 is Ok by {
                        let p = all[j].0 as int;
                        assert(filled[p] == Some(all[j].1));
                    }
                }
                return Err(e);
            },
            None => {
                assert(false);
            },
        }
    }
    Ok(out)
}

spec fn has_position<T>(done: Seq<(usize, Result<T, FacetError>)>, k: int) -> bool {
    exists|i: int| 0 <= i < done.len() && (#[trigger] done[i]).0 == k
}

/// Positions that are all within range and distinct cover the range.
proof fn lemma_positions_covered<T>(done: Seq<(usize, Result<T, FacetError>)>)
    requires
        each_position_once(done),
    ensures
        forall|k: int| 0 <= k < done.len() ==> #[trigger] has_position(done, k),
{
    let n = done.len() as int;
    let at = Seq::new(done.len(), |i: int| done[i].0 as int);
    assert(at.no_duplicates()) by {
        assert forall|i: int, j: int| 0 <= i < at.len() && 0 <= j < at.len() && i != j implies at[i]
            != at[j] by {
            if i < j {
                assert(done[i].0 != done[j].0);
            } else {
                assert(done[j].0 != done[i].0);
            }
        }
    }
    at.unique_seq_to_set();
    let range = vstd::set_lib::set_int_range(0, n);
    vstd::set_lib::lemma_int_range(0, n);
    assert(at.to_set().subset_of(range)) by {
        assert forall|x: int| at.to_set().contains(x) implies range.contains(x) by {
            let i = at.index_of(x);
            assert(at[i] == x);
        }
    }
    vstd::set_lib::lemma_subset_equality(at.to_set(), range);
    assert forall|k: int| 0 <= k < n implies #[trigger] has_position(done, k) by {
        assert(range.contains(k));
        assert(at.to_set().contains(k));
        let i = at.index_of(k);
        assert(at[i] == k);
        assert(done[i].0 == k);
    }
}

/// A failed file operation of a facet, from its cause's text.
pub fn io_facet_err(facet: &str, cause: &str) -> (r: FacetError)
    ensures
        r.0@ == facet@ + " io: "@ + cause@,
{
    let mut text = facet.to_owned();
    text.append(" io: ");
    text.append(cause);
    FacetError(text)
}

/// A failed transfer, from what was transferred and the failure's text.
pub fn transfer_err(what: &str, cause: &str) -> (r: FacetError)
    ensures
        r.0@ == what@ + ": "@ + cause@,
{
    let mut text = what.to_owned();
    text.append(": ");
    text.append(cause);
    FacetError(text)
}

/// The name of a grain's file in the scratch directory: one per grain and kind of
/// content. The digest of the grain's name stands for it, so any key will do.
pub fn scratch_name(grain: &GrainName, suffix: &str) -> (r: String)
    ensures
        r@ == hex(
            blake3_digest(
                vstd::utf8::encode_utf8(
                    grain.deep_view().grain_type + "/"@ + grain.deep_view().key,
                ),
            ),
        ) + "."@ + suffix@,
{
    let name = grain.to_text();
    let mut out = BlobId::of(name.as_str().as_bytes()).to_hex();
    out.append(".");
    out.append(suffix);
    out
}

/// A list's ids are all of them, each in its place.
pub proof fn law_a_lists_ids_are_all_of_them(ids: Seq<BlobId>, i: int)
    requires
        0 <= i < ids.len(),
    ensures
        id_views(ids).len() == ids.len(),
        id_views(ids)[i] == ids[i]@,
        id_views(ids).to_set().contains(ids[i]@),
{
    assert(id_views(ids)[i] == ids[i]@);
}

} // verus!
