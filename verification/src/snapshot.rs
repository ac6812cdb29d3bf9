//! Composite snapshots: a grain's state and its facets' contributions, as one
//! stamped record.
//!
//! A small state rides inline. A large one is cut into content-defined chunks that
//! go to the blob area, and the record names them: a snapshot of a grain that grew a
//! little stores only the chunks that changed.
use vstd::prelude::*;
use vstd::string::*;

use crate::blobs::blake3_digest;
use crate::blobs::BlobId;
use crate::cdc::pieces;
use crate::cdc::slices_view;
use crate::cdc::split;
use crate::facet::decode_payload;
use crate::facet::encode_payload;
use crate::facet::payload_of;
use crate::facet::FacetError;
use crate::fs::chunk::concat;
use crate::fs::chunk::concat_all;
use crate::key::rank_str;
use crate::key::Rank;
use crate::ordmap::OrdMap;
use crate::ordmap::OrdSet;
use crate::stamp::critical_refused;
use crate::stamp::lemma_stamp;
use crate::stamp::read_stamp;
use crate::stamp::refuse_critical;
use crate::stamp::stamp;
use crate::stamp::stamped;
use crate::stamp::unstamp;
use crate::stamp::CRITICAL;
use crate::text::decimal;
use crate::text::push_decimal;
use crate::text::shows;
use crate::wire::dec_list;
use crate::wire::enc_list;
use crate::wire::fits_list;
use crate::wire::lemma_decoded;
use crate::wire::lemma_list;
use crate::wire::lemma_sorted_keys;
use crate::wire::put_list;
use crate::wire::sorted_keys;
use crate::wire::take_list;
use crate::wire::Decoded;
use crate::wire::Wire;
use crate::wire::WireError;

verus! {

/// A state of at most this many bytes stays inline.
pub const INLINE_MAX: usize = 65536;

/// The snapshot revision that this crate writes and reads.
pub const SNAPSHOT_REVISION: u16 = 1;

/// The extension that carries the manifest of a chunked state. Critical: a reader
/// that skipped it would take the empty inline state for the grain's.
pub const EXT_STATE_CHUNKS: u16 = 0x8001;

/// The magic of a snapshot.
pub open spec fn snapshot_magic() -> Seq<u8> {
    seq![0x47u8, 0x52u8, 0x53u8, 0x4Eu8, 0x41u8, 0x50u8]
}

fn magic() -> (r: Vec<u8>)
    ensures
        r@ == snapshot_magic(),
{
    let mut m: Vec<u8> = Vec::new();
    m.push(0x47);
    m.push(0x52);
    m.push(0x53);
    m.push(0x4E);
    m.push(0x41);
    m.push(0x50);
    assert(m@ =~= snapshot_magic());
    m
}

/// The chunked form of a state: the chunks to put together, and the length that
/// must come out.
#[derive(Clone, Debug, PartialEq, Eq)]
pub struct StateManifest {
    pub bytes: u64,
    pub chunks: Vec<BlobId>,
}

#[verifier::ext_equal]
pub struct ManifestModel {
    pub bytes: u64,
    pub chunks: Seq<Seq<u8>>,
}

impl DeepView for StateManifest {
    type V = ManifestModel;

    open spec fn deep_view(&self) -> ManifestModel {
        ManifestModel { bytes: self.bytes, chunks: self.chunks.deep_view() }
    }
}

impl Wire for Vec<BlobId> {
    open spec fn wire_inv(&self) -> bool {
        true
    }

    open spec fn fits(m: Seq<Seq<u8>>) -> bool {
        fits_list::<BlobId>(m)
    }

    open spec fn enc(m: Seq<Seq<u8>>) -> Seq<u8> {
        enc_list::<BlobId>(m)
    }

    open spec fn dec(b: Seq<u8>) -> Decoded<Seq<Seq<u8>>> {
        dec_list::<BlobId>(b)
    }

    proof fn round_trip(m: Seq<Seq<u8>>, rest: Seq<u8>) {
        lemma_list::<BlobId>(m, rest);
    }

    fn put(&self, out: &mut Vec<u8>) {
        put_list(self, out);
    }

    fn take<'a>(b: &'a [u8]) -> (r: Result<(Vec<BlobId>, &'a [u8]), WireError>) {
        take_list::<BlobId>(b)
    }
}

impl Wire for StateManifest {
    open spec fn wire_inv(&self) -> bool {
        true
    }

    open spec fn fits(m: ManifestModel) -> bool {
        <u64 as Wire>::fits(m.bytes) && <Vec<BlobId> as Wire>::fits(m.chunks)
    }

    open spec fn enc(m: ManifestModel) -> Seq<u8> {
        <(u64, Vec<BlobId>) as Wire>::enc((m.bytes, m.chunks))
    }

    open spec fn dec(b: Seq<u8>) -> Decoded<ManifestModel> {
        match <(u64, Vec<BlobId>) as Wire>::dec(b) {
            Err(e) => Err(e),
            Ok(((bytes, chunks), rest)) => Ok((ManifestModel { bytes, chunks }, rest)),
        }
    }

    proof fn round_trip(m: ManifestModel, rest: Seq<u8>) {
        <(u64, Vec<BlobId>) as Wire>::round_trip((m.bytes, m.chunks), rest);
    }

    fn put(&self, out: &mut Vec<u8>) {
        let ghost before = out@;
        self.bytes.put(out);
        self.chunks.put(out);
        assert(out@ =~= before + Self::enc(self.deep_view()));
    }

    fn take<'a>(b: &'a [u8]) -> (r: Result<(StateManifest, &'a [u8]), WireError>) {
        match <(u64, Vec<BlobId>) as Wire>::take(b) {
            Err(e) => Err(e),
            Ok(((bytes, chunks), rest)) => {
                Ok((StateManifest { bytes, chunks }, rest))
            },
        }
    }
}

impl Wire for Vec<(u8, Vec<u8>)> {
    open spec fn wire_inv(&self) -> bool {
        true
    }

    open spec fn fits(m: Seq<(u8, Seq<u8>)>) -> bool {
        fits_list::<(u8, Vec<u8>)>(m)
    }

    open spec fn enc(m: Seq<(u8, Seq<u8>)>) -> Seq<u8> {
        enc_list::<(u8, Vec<u8>)>(m)
    }

    open spec fn dec(b: Seq<u8>) -> Decoded<Seq<(u8, Seq<u8>)>> {
        dec_list::<(u8, Vec<u8>)>(b)
    }

    proof fn round_trip(m: Seq<(u8, Seq<u8>)>, rest: Seq<u8>) {
        lemma_list::<(u8, Vec<u8>)>(m, rest);
    }

    fn put(&self, out: &mut Vec<u8>) {
        put_list(self, out);
    }

    fn take<'a>(b: &'a [u8]) -> (r: Result<(Vec<(u8, Vec<u8>)>, &'a [u8]), WireError>) {
        take_list::<(u8, Vec<u8>)>(b)
    }
}

/// The record's body: the codec that encoded the state, the inline state (empty if
/// it travels in chunks), the facets' contributions, and the extensions.
#[derive(Clone, Debug, PartialEq, Eq)]
pub struct SnapshotBody {
    pub codec: String,
    pub state: Vec<u8>,
    pub facets: Vec<(u8, Vec<u8>)>,
    pub ext: OrdMap<u16, Vec<u8>>,
}

#[verifier::ext_equal]
pub struct BodyModel {
    pub codec: Seq<char>,
    pub state: Seq<u8>,
    pub facets: Seq<(u8, Seq<u8>)>,
    pub ext: Map<u16, Seq<u8>>,
}

impl DeepView for SnapshotBody {
    type V = BodyModel;

    open spec fn deep_view(&self) -> BodyModel {
        BodyModel {
            codec: self.codec@,
            state: self.state@,
            facets: self.facets.deep_view(),
            ext: self.ext.deep_view(),
        }
    }
}

impl Wire for SnapshotBody {
    open spec fn wire_inv(&self) -> bool {
        self.ext.wf()
    }

    open spec fn fits(m: BodyModel) -> bool {
        <String as Wire>::fits(m.codec) && <Vec<u8> as Wire>::fits(m.state) && <Vec<(u8, Vec<u8>)> as Wire>::fits(m.facets) && <OrdMap<u16, Vec<u8>> as Wire>::fits(m.ext)
    }

    open spec fn enc(m: BodyModel) -> Seq<u8> {
        <(String, (Vec<u8>, (Vec<(u8, Vec<u8>)>, OrdMap<u16, Vec<u8>>))) as Wire>::enc((m.codec, (m.state, (m.facets, m.ext))))
    }

    open spec fn dec(b: Seq<u8>) -> Decoded<BodyModel> {
        match <(String, (Vec<u8>, (Vec<(u8, Vec<u8>)>, OrdMap<u16, Vec<u8>>))) as Wire>::dec(b) {
            Err(e) => Err(e),
            Ok(((codec, (state, (facets, ext))), rest)) => Ok((BodyModel { codec, state, facets, ext }, rest)),
        }
    }

    proof fn round_trip(m: BodyModel, rest: Seq<u8>) {
        <(String, (Vec<u8>, (Vec<(u8, Vec<u8>)>, OrdMap<u16, Vec<u8>>))) as Wire>::round_trip((m.codec, (m.state, (m.facets, m.ext))), rest);
    }

    fn put(&self, out: &mut Vec<u8>) {
        let ghost before = out@;
        self.codec.put(out);
        self.state.put(out);
        self.facets.put(out);
        self.ext.put(out);
        assert(self.state.deep_view() =~= self.state@);
        assert(out@ =~= before + Self::enc(self.deep_view()));
    }

    fn take<'a>(b: &'a [u8]) -> (r: Result<(SnapshotBody, &'a [u8]), WireError>) {
        match <(String, (Vec<u8>, (Vec<(u8, Vec<u8>)>, OrdMap<u16, Vec<u8>>))) as Wire>::take(b) {
            Err(e) => Err(e),
            Ok(((codec, (state, (facets, ext))), rest)) => {
                assert(state.deep_view() =~= state@);
                Ok((SnapshotBody { codec, state, facets, ext }, rest))
            },
        }
    }
}

/// Where a snapshot carries the grain's state.
#[derive(Clone, Debug, PartialEq, Eq)]
pub enum StatePayload {
    Inline(Vec<u8>),
    Chunked(StateManifest),
}

#[verifier::ext_equal]
pub enum PayloadModel {
    Inline(Seq<u8>),
    Chunked(ManifestModel),
}

impl DeepView for StatePayload {
    type V = PayloadModel;

    open spec fn deep_view(&self) -> PayloadModel {
        match *self {
            StatePayload::Inline(bytes) => PayloadModel::Inline(bytes@),
            StatePayload::Chunked(manifest) => PayloadModel::Chunked(manifest.deep_view()),
        }
    }
}

/// How a state is carried.
pub open spec fn carried(state: Seq<u8>) -> PayloadModel {
    if state.len() <= INLINE_MAX {
        PayloadModel::Inline(state)
    } else {
        PayloadModel::Chunked(
            ManifestModel {
                bytes: state.len() as u64,
                chunks: pieces(state).map_values(|c: Seq<u8>| blake3_digest(c)),
            },
        )
    }
}

/// The chunks of a state that are not rooted yet: what a snapshot must store.
pub open spec fn fresh_chunks(state: Seq<u8>, rooted: Set<Seq<u8>>) -> Seq<Seq<u8>> {
    if state.len() <= INLINE_MAX {
        seq![]
    } else {
        pieces(state).filter(|c: Seq<u8>| !rooted.contains(blake3_digest(c)))
    }
}

impl StatePayload {
    /// Choose how to carry `state`: the payload, and the chunks to store before the
    /// snapshot that names them. A chunk that is rooted already is not stored again.
    pub fn store(state: Vec<u8>, rooted: &OrdSet<BlobId>) -> (r: (StatePayload, Vec<Vec<u8>>))
        requires
            rooted.wf(),
        ensures
            r.0.deep_view() == carried(state@),
            r.1.deep_view() == fresh_chunks(state@, rooted@),
    {
        if state.len() <= INLINE_MAX {
            let none: Vec<Vec<u8>> = Vec::new();
            assert(none.deep_view() =~= seq![]);
            return (StatePayload::Inline(state), none);
        }
        let bytes: u64 = state.len() as u64;
        let parts = split(state.as_slice());
        let ghost all = slices_view(parts@);
        let ghost digest = |c: Seq<u8>| blake3_digest(c);
        let ghost is_fresh = |c: Seq<u8>| !rooted@.contains(blake3_digest(c));
        let mut chunks: Vec<BlobId> = Vec::new();
        let mut fresh: Vec<Vec<u8>> = Vec::new();
        let mut i: usize = 0;
        proof {
            reveal(Seq::filter);
            assert(chunks.deep_view() =~= all.take(0).map_values(digest));
            assert(fresh.deep_view() =~= all.take(0).filter(is_fresh));
        }
        while i < parts.len()
            invariant
                rooted.wf(),
                i <= parts@.len(),
                all == slices_view(parts@),
                digest == (|c: Seq<u8>| blake3_digest(c)),
                is_fresh == (|c: Seq<u8>| !rooted@.contains(blake3_digest(c))),
                chunks.deep_view() == all.take(i as int).map_values(digest),
                fresh.deep_view() == all.take(i as int).filter(is_fresh),
            decreases parts@.len() - i,
        {
            let part = parts[i];
            let id = BlobId::of(part);
            let ghost was = chunks.deep_view();
            let ghost had = fresh.deep_view();
            proof {
                reveal(Seq::filter);
                assert(all[i as int] == part@);
                assert(all.take(i + 1).drop_last() =~= all.take(i as int));
                assert(all.take(i + 1).last() == part@);
            }
            if !rooted.contains(&id) {
                let copy = vstd::slice::slice_to_vec(part);
                assert(copy.deep_view() =~= part@);
                fresh.push(copy);
                assert(fresh.deep_view() =~= had.push(part@));
            }
            chunks.push(id);
            proof {
                assert(chunks.deep_view() =~= was.push(digest(part@)));
                assert(all.take(i + 1).map_values(digest) =~= was.push(digest(part@)));
            }
            i = i + 1;
        }
        assert(all.take(i as int) =~= all);
        (StatePayload::Chunked(StateManifest { bytes, chunks }), fresh)
    }

    /// The blobs this payload depends on; none if it travels inline.
    pub fn chunks(&self) -> (r: Vec<BlobId>)
        ensures
            r.deep_view() == match self.deep_view() {
                PayloadModel::Inline(_) => seq![],
                PayloadModel::Chunked(manifest) => manifest.chunks,
            },
    {
        match self {
            StatePayload::Inline(_) => {
                let none: Vec<BlobId> = Vec::new();
                assert(none.deep_view() =~= seq![]);
                none
            },
            StatePayload::Chunked(manifest) => {
                let mut out: Vec<BlobId> = Vec::new();
                let ghost all = manifest.chunks.deep_view();
                let mut i: usize = 0;
                assert(out.deep_view() =~= all.take(0));
                while i < manifest.chunks.len()
                    invariant
                        i <= manifest.chunks@.len(),
                        all == manifest.chunks.deep_view(),
                        out.deep_view() == all.take(i as int),
                    decreases manifest.chunks@.len() - i,
                {
                    let ghost was = out.deep_view();
                    out.push(manifest.chunks[i]);
                    assert(out.deep_view() =~= was.push(all[i as int]));
                    i = i + 1;
                    assert(out.deep_view() =~= all.take(i as int));
                }
                assert(all.take(i as int) =~= all);
                out
            },
        }
    }

    /// The state's bytes, from the chunks fetched for it (in the manifest's order;
    /// none for an inline state). Chunks that do not make up the manifest's length
    /// are refused.
    pub fn load(self, fetched: &Vec<Vec<u8>>) -> (r: Result<Vec<u8>, FacetError>)
        ensures
            match r {
                Ok(state) => loaded(self.deep_view(), fetched.deep_view()) == Ok::<
                    Seq<u8>,
                    Seq<char>,
                >(state@),
                Err(e) => loaded(self.deep_view(), fetched.deep_view()) == Err::<
                    Seq<u8>,
                    Seq<char>,
                >(e.0@),
            },
    {
        match self {
            StatePayload::Inline(bytes) => Ok(bytes),
            StatePayload::Chunked(manifest) => {
                let state = concat_all(fetched);
                if state.len() as u64 != manifest.bytes {
                    let mut text = "granary.snapshot: state manifest names ".to_owned();
                    push_decimal(&mut text, manifest.bytes);
                    text.append(" bytes, its ");
                    push_decimal(&mut text, manifest.chunks.len() as u64);
                    text.append(" chunks reassemble to ");
                    push_decimal(&mut text, state.len() as u64);
                    return Err(FacetError(text));
                }
                Ok(state)
            },
        }
    }
}

/// What a payload's state is, from its fetched chunks.
pub open spec fn loaded(payload: PayloadModel, fetched: Seq<Seq<u8>>) -> Result<
    Seq<u8>,
    Seq<char>,
> {
    match payload {
        PayloadModel::Inline(bytes) => Ok(bytes),
        PayloadModel::Chunked(manifest) => {
            let state = concat(fetched);
            if state.len() == manifest.bytes {
                Ok(state)
            } else {
                Err(
                    "granary.snapshot: state manifest names "@ + decimal(manifest.bytes as nat)
                        + " bytes, its "@ + decimal(manifest.chunks.len())
                        + " chunks reassemble to "@ + decimal(state.len()),
                )
            }
        },
    }
}

/// A snapshot: the grain's state and one contribution per facet, all at one head.
#[derive(Clone, Debug, PartialEq, Eq)]
pub struct CompositeSnapshot {
    pub state: StatePayload,
    pub facets: Vec<(u8, Vec<u8>)>,
}

#[verifier::ext_equal]
pub struct SnapshotModel {
    pub state: PayloadModel,
    pub facets: Seq<(u8, Seq<u8>)>,
}

impl DeepView for CompositeSnapshot {
    type V = SnapshotModel;

    open spec fn deep_view(&self) -> SnapshotModel {
        SnapshotModel { state: self.state.deep_view(), facets: self.facets.deep_view() }
    }
}

/// The body of a snapshot's record.
pub open spec fn body_of(snapshot: SnapshotModel, codec: Seq<char>) -> BodyModel {
    match snapshot.state {
        PayloadModel::Inline(state) => BodyModel {
            codec,
            state,
            facets: snapshot.facets,
            ext: Map::empty(),
        },
        PayloadModel::Chunked(manifest) => BodyModel {
            codec,
            state: seq![],
            facets: snapshot.facets,
            ext: Map::<u16, Seq<u8>>::empty().insert(
                EXT_STATE_CHUNKS,
                StateManifest::enc(manifest),
            ),
        },
    }
}

/// A snapshot's record.
pub open spec fn snapshot_record(snapshot: SnapshotModel, codec: Seq<char>) -> Seq<u8> {
    stamped(snapshot_magic(), SNAPSHOT_REVISION, SnapshotBody::enc(body_of(snapshot, codec)))
}

/// The first critical key, in key order, that a reader does not know.
pub open spec fn unknown_critical(keys: Seq<u16>, known: Seq<u16>) -> Option<u16>
    decreases keys.len(),
{
    if keys.len() == 0 {
        None
    } else if keys[0] >= CRITICAL && !known.contains(keys[0]) {
        Some(keys[0])
    } else {
        unknown_critical(keys.skip(1), known)
    }
}

/// The refusal of a snapshot that another codec encoded.
pub open spec fn codec_refused(found: Seq<char>, runs: Seq<char>) -> Seq<char> {
    "granary.snapshot: encoded with codec '"@ + found + "', but this node runs '"@ + runs
        + "' — facet 0's state is codec-encoded, so it cannot be decoded here"@
}

/// What a body means.
pub open spec fn body_meaning(body: BodyModel, codec: Seq<char>) -> Result<
    SnapshotModel,
    Seq<char>,
> {
    match unknown_critical(sorted_keys::<u16, Seq<u8>>(body.ext), seq![EXT_STATE_CHUNKS]) {
        Some(key) => Err(critical_refused("granary.snapshot"@, key)),
        None => if body.codec != codec {
            Err(codec_refused(body.codec, codec))
        } else if !body.ext.contains_key(EXT_STATE_CHUNKS) {
            Ok(SnapshotModel { state: PayloadModel::Inline(body.state), facets: body.facets })
        } else if body.state.len() > 0 {
            Err("granary.snapshot: carries both an inline state and a chunk manifest"@)
        } else {
            match payload_of::<StateManifest>(
                "snapshot state manifest"@,
                body.ext[EXT_STATE_CHUNKS],
            ) {
                Ok(manifest) => Ok(
                    SnapshotModel {
                        state: PayloadModel::Chunked(manifest),
                        facets: body.facets,
                    },
                ),
                Err(text) => Err(text),
            }
        },
    }
}

/// What a snapshot's record means to a node that runs `codec`.
pub open spec fn snapshot_meaning(bytes: Seq<u8>, codec: Seq<char>) -> Result<
    SnapshotModel,
    Seq<char>,
> {
    match read_stamp("granary.snapshot"@, snapshot_magic(), SNAPSHOT_REVISION, bytes) {
        Err(text) => Err(text),
        Ok(raw) => match payload_of::<SnapshotBody>("snapshot decode"@, raw) {
            Err(text) => Err(text),
            Ok(body) => body_meaning(body, codec),
        },
    }
}

/// Refuse an extension area with a critical key outside `known`.
pub fn admit_extensions(ext: &OrdMap<u16, Vec<u8>>, boundary: &str, known: &Vec<u16>) -> (r: Result<
    (),
    FacetError,
>)
    requires
        ext.wf(),
    ensures
        match r {
            Ok(_) => unknown_critical(sorted_keys::<u16, Seq<u8>>(ext.deep_view()), known@) is None,
            Err(e) => unknown_critical(
                sorted_keys::<u16, Seq<u8>>(ext.deep_view()),
                known@,
            ) is Some && e.0@ == critical_refused(
                boundary@,
                unknown_critical(sorted_keys::<u16, Seq<u8>>(ext.deep_view()), known@)->0,
            ),
        },
{
    let ghost keys = ext.key_seq();
    proof {
        lemma_sorted_keys(ext);
        assert(keys.skip(0) =~= keys);
    }
    let n: usize = ext.len();
    let mut i: usize = 0;
    while i < n
        invariant
            ext.wf(),
            keys == ext.key_seq(),
            keys == sorted_keys::<u16, Seq<u8>>(ext.deep_view()),
            n == keys.len(),
            i <= n,
            unknown_critical(keys, known@) == unknown_critical(keys.skip(i as int), known@),
        decreases n - i,
    {
        let key: u16 = *ext.key_at(i);
        proof {
            assert(keys.skip(i as int)[0] == key);
            assert(keys.skip(i as int).skip(1) =~= keys.skip(i + 1));
        }
        if key >= CRITICAL {
            let mut j: usize = 0;
            let mut is_known: bool = false;
            while j < known.len() && !is_known
                invariant
                    j <= known@.len(),
                    is_known ==> known@.contains(key),
                    !is_known ==> forall|k: int| 0 <= k < j ==> known@[k] != key,
                decreases known@.len() - j,
            {
                if known[j] == key {
                    assert(known@[j as int] == key);
                    is_known = true;
                }
                j = j + 1;
            }
            if !is_known {
                return Err(FacetError(refuse_critical(boundary, key)));
            }
        }
        i = i + 1;
    }
    Ok(())
}

impl CompositeSnapshot {
    /// Stamp and encode the snapshot; `codec` is the name of the codec that encoded
    /// the state.
    pub fn encode(self, codec: &str) -> (r: Vec<u8>)
        ensures
            r@ == snapshot_record(self.deep_view(), codec@),
    {
        let ghost model = self.deep_view();
        let mut ext: OrdMap<u16, Vec<u8>> = OrdMap::new();
        let state = match self.state {
            StatePayload::Inline(bytes) => bytes,
            StatePayload::Chunked(manifest) => {
                let entry = encode_payload(&manifest);
                assert(entry.deep_view() =~= entry@);
                ext.insert(EXT_STATE_CHUNKS, entry);
                Vec::new()
            },
        };
        let body = SnapshotBody { codec: codec.to_owned(), state, facets: self.facets, ext };
        proof {
            assert(body.deep_view().ext =~= body_of(model, codec@).ext);
            assert(body.deep_view().state =~= body_of(model, codec@).state);
            assert(body.deep_view() =~= body_of(model, codec@));
        }
        let bytes = encode_payload(&body);
        stamp(magic().as_slice(), SNAPSHOT_REVISION, bytes.as_slice())
    }

    /// Recognize the stamp, decode the body, and confirm its extensions and its
    /// codec, in that order.
    pub fn decode(bytes: &[u8], codec: &str) -> (r: Result<CompositeSnapshot, FacetError>)
        ensures
            match r {
                Ok(snapshot) => snapshot_meaning(bytes@, codec@) == Ok::<SnapshotModel, Seq<char>>(
                    snapshot.deep_view(),
                ),
                Err(e) => snapshot_meaning(bytes@, codec@) == Err::<SnapshotModel, Seq<char>>(e.0@),
            },
    {
        let magic = magic();
        let raw = match unstamp("granary.snapshot", magic.as_slice(), SNAPSHOT_REVISION, bytes) {
            Ok(raw) => raw,
            Err(text) => {
                return Err(FacetError(text));
            },
        };
        let body = match decode_payload::<SnapshotBody>("snapshot decode", raw) {
            Ok(body) => body,
            Err(e) => {
                return Err(e);
            },
        };
        let mut known: Vec<u16> = Vec::new();
        known.push(EXT_STATE_CHUNKS);
        assert(known@ =~= seq![EXT_STATE_CHUNKS]);
        if let Err(e) = admit_extensions(&body.ext, "granary.snapshot", &known) {
            return Err(e);
        }
        if rank_str(body.codec.as_str(), codec) != Rank::Same {
            let mut text = "granary.snapshot: encoded with codec '".to_owned();
            text.append(body.codec.as_str());
            text.append("', but this node runs '");
            text.append(codec);
            text.append("' — facet 0's state is codec-encoded, so it cannot be decoded here");
            return Err(FacetError(text));
        }
        let state = match body.ext.get(&EXT_STATE_CHUNKS) {
            None => {
                assert(!body.deep_view().ext.contains_key(EXT_STATE_CHUNKS));
                StatePayload::Inline(body.state)
            },
            Some(entry) => {
                assert(entry.deep_view() =~= entry@);
                assert(body.deep_view().ext[EXT_STATE_CHUNKS] == entry@);
                if body.state.len() > 0 {
                    return Err(
                        FacetError(
                            "granary.snapshot: carries both an inline state and a chunk manifest".to_owned(),
                        ),
                    );
                }
                match decode_payload::<StateManifest>("snapshot state manifest", entry.as_slice()) {
                    Ok(manifest) => StatePayload::Chunked(manifest),
                    Err(e) => {
                        return Err(e);
                    },
                }
            },
        };
        Ok(CompositeSnapshot { state, facets: body.facets })
    }
}

// ---- Laws ----

/// Everything inside a snapshot fits the machine.
pub open spec fn snapshot_fits(snapshot: SnapshotModel, codec: Seq<char>) -> bool {
    SnapshotBody::fits(body_of(snapshot, codec)) && match snapshot.state {
        PayloadModel::Inline(_) => true,
        PayloadModel::Chunked(manifest) => StateManifest::fits(manifest),
    }
}

proof fn lemma_one_key(key: u16, value: Seq<u8>)
    ensures
        sorted_keys::<u16, Seq<u8>>(Map::<u16, Seq<u8>>::empty().insert(key, value)) == seq![key],
        sorted_keys::<u16, Seq<u8>>(Map::<u16, Seq<u8>>::empty()) == Seq::<u16>::empty(),
{
    let one = Map::<u16, Seq<u8>>::empty().insert(key, value);
    let none = Map::<u16, Seq<u8>>::empty();
    assert(crate::ordmap::ascending::<u16>(seq![key]));
    assert forall|k: u16| seq![key].to_set().contains(k) == one.dom().contains(k) by {
        if k == key {
            assert(seq![key][0] == k);
        }
    }
    assert(seq![key].to_set() =~= one.dom());
    assert(crate::ordmap::ascending::<u16>(Seq::<u16>::empty()));
    assert(Seq::<u16>::empty().to_set() =~= none.dom());
    let s = sorted_keys::<u16, Seq<u8>>(one);
    assert forall|k: u16| s.contains(k) <==> seq![key].contains(k) by {
        assert(s.to_set().contains(k) == seq![key].to_set().contains(k));
    }
    crate::ordmap::lemma_ascending_unique::<u16>(s, seq![key]);
    let e = sorted_keys::<u16, Seq<u8>>(none);
    assert forall|k: u16| e.contains(k) <==> Seq::<u16>::empty().contains(k) by {
        assert(e.to_set().contains(k) == Seq::<u16>::empty().to_set().contains(k));
    }
    crate::ordmap::lemma_ascending_unique::<u16>(e, Seq::<u16>::empty());
}

/// A snapshot reads back as what was written, under the codec that wrote it.
pub proof fn law_snapshots_round_trip(snapshot: SnapshotModel, codec: Seq<char>)
    requires
        snapshot_fits(snapshot, codec),
    ensures
        snapshot_meaning(snapshot_record(snapshot, codec), codec) == Ok::<
            SnapshotModel,
            Seq<char>,
        >(snapshot),
{
    let body = body_of(snapshot, codec);
    lemma_stamp(
        "granary.snapshot"@,
        snapshot_magic(),
        SNAPSHOT_REVISION,
        SnapshotBody::enc(body),
    );
    lemma_decoded::<SnapshotBody>(body);
    match snapshot.state {
        PayloadModel::Inline(_) => {
            lemma_one_key(EXT_STATE_CHUNKS, seq![]);
        },
        PayloadModel::Chunked(manifest) => {
            lemma_decoded::<StateManifest>(manifest);
            lemma_one_key(EXT_STATE_CHUNKS, StateManifest::enc(manifest));
            let keys = seq![EXT_STATE_CHUNKS];
            assert(keys[0] == EXT_STATE_CHUNKS);
            assert(seq![EXT_STATE_CHUNKS].contains(keys[0]));
            assert(keys.skip(1) =~= seq![]);
            assert(unknown_critical(keys.skip(1), seq![EXT_STATE_CHUNKS]) is None);
        },
    }
}

/// A snapshot written under another codec is refused, and the refusal names both.
pub proof fn law_a_codec_change_is_refused(
    snapshot: SnapshotModel,
    wrote: Seq<char>,
    runs: Seq<char>,
)
    requires
        snapshot_fits(snapshot, wrote),
        wrote != runs,
    ensures
        snapshot_meaning(snapshot_record(snapshot, wrote), runs) == Err::<
            SnapshotModel,
            Seq<char>,
        >(codec_refused(wrote, runs)),
{
    law_snapshots_round_trip(snapshot, wrote);
    let body = body_of(snapshot, wrote);
    lemma_stamp(
        "granary.snapshot"@,
        snapshot_magic(),
        SNAPSHOT_REVISION,
        SnapshotBody::enc(body),
    );
    lemma_decoded::<SnapshotBody>(body);
}

/// A carried state loads back from its chunks, each fetched by its id.
pub proof fn law_a_carried_state_loads_back(state: Seq<u8>)
    requires
        state.len() <= u64::MAX,
    ensures
        loaded(carried(state), pieces(state)) == Ok::<Seq<u8>, Seq<char>>(state),
{
    if state.len() > INLINE_MAX {
        crate::cdc::law_split_is_lossless(state);
        lemma_concat_is_joined(pieces(state));
    }
}

proof fn lemma_concat_is_joined(parts: Seq<Seq<u8>>)
    ensures
        concat(parts) == crate::cdc::joined(parts),
    decreases parts.len(),
{
    if parts.len() == 0 {
        assert(concat(parts) =~= crate::cdc::joined(parts));
    } else {
        lemma_concat_is_joined(parts.skip(1));
        assert(seq![parts[0]] + parts.skip(1) =~= parts);
        crate::fs::laws::lemma_concat_front(parts[0], parts.skip(1));
    }
}

/// Every chunk that a snapshot names is rooted or among those it stores.
pub proof fn law_a_snapshot_stores_what_it_names(state: Seq<u8>, rooted: Set<Seq<u8>>, i: int)
    requires
        0 <= i < pieces(state).len(),
        state.len() > INLINE_MAX,
    ensures
        rooted.contains(blake3_digest(pieces(state)[i])) || fresh_chunks(state, rooted).contains(
            pieces(state)[i],
        ),
{
    let keep = |c: Seq<u8>| !rooted.contains(blake3_digest(c));
    if keep(pieces(state)[i]) {
        pieces(state).lemma_filter_contains(keep, i);
    }
}

/// A critical key is one from 0x8000 on; a reader goes on only if it knows all of them,
/// and refuses the first that it does not.
pub proof fn law_unknown_critical_keys_are_refused(keys: Seq<u16>, known: Seq<u16>)
    ensures
        match unknown_critical(keys, known) {
            None => forall|i: int|
                0 <= i < keys.len() && (#[trigger] keys[i]) >= 0x8000 ==> known.contains(keys[i]),
            Some(key) => key >= 0x8000 && keys.contains(key) && !known.contains(key),
        },
    decreases keys.len(),
{
    if keys.len() > 0 && !(keys[0] >= 0x8000 && !known.contains(keys[0])) {
        let rest = keys.skip(1);
        law_unknown_critical_keys_are_refused(rest, known);
        match unknown_critical(rest, known) {
            None => {
                assert forall|i: int|
                    0 <= i < keys.len() && (#[trigger] keys[i]) >= 0x8000 implies known.contains(
                    keys[i],
                ) by {
                    if i > 0 {
                        assert(rest[i - 1] == keys[i]);
                    }
                }
            },
            Some(key) => {
                let i = rest.index_of(key);
                assert(keys[i + 1] == key);
            },
        }
    }
}

/// A state that is carried in chunks is named by its length and by each chunk's digest, in
/// order; a short one travels as it is.
pub proof fn law_a_large_state_is_named_by_its_chunks(state: Seq<u8>)
    requires
        state.len() <= u64::MAX,
    ensures
        match carried(state) {
            PayloadModel::Inline(bytes) => bytes == state && state.len() <= 65536,
            PayloadModel::Chunked(manifest) => {
                &&& state.len() > 65536
                &&& manifest.bytes == state.len()
                &&& manifest.chunks.len() == pieces(state).len()
                &&& forall|i: int|
                    0 <= i < pieces(state).len() ==> (#[trigger] manifest.chunks[i])
                        == blake3_digest(pieces(state)[i])
            },
        },
{
}

/// Nothing is stored for a snapshot but chunks of its state that are not rooted yet.
pub proof fn law_a_snapshot_stores_only_what_is_missing(
    state: Seq<u8>,
    rooted: Set<Seq<u8>>,
    chunk: Seq<u8>,
)
    requires
        fresh_chunks(state, rooted).contains(chunk),
    ensures
        state.len() > INLINE_MAX,
        pieces(state).contains(chunk),
        !rooted.contains(blake3_digest(chunk)),
{
    let keep = |c: Seq<u8>| !rooted.contains(blake3_digest(c));
    let all = pieces(state);
    all.lemma_filter_contains_rev(keep, chunk);
    let i = fresh_chunks(state, rooted).index_of(chunk);
    all.filter_lemma(keep);
    assert(keep(all.filter(keep)[i]));
}

/// A state is loaded from its chunks, one after the other, and only if they make up the
/// length that was named; an inline one is as it was carried.
pub proof fn law_a_state_is_loaded_whole_or_refused(
    bytes: Seq<u8>,
    manifest: ManifestModel,
    a: Seq<u8>,
    b: Seq<u8>,
)
    ensures
        loaded(PayloadModel::Inline(bytes), seq![]) == Ok::<Seq<u8>, Seq<char>>(bytes),
        loaded(PayloadModel::Chunked(manifest), seq![a, b]) is Ok <==> a.len() + b.len()
            == manifest.bytes,
        a.len() + b.len() == manifest.bytes ==> loaded(
            PayloadModel::Chunked(manifest),
            seq![a, b],
        ) == Ok::<Seq<u8>, Seq<char>>(a + b),
{
    let parts = seq![a, b];
    assert(parts.drop_last() =~= seq![a]);
    assert(seq![a].drop_last() =~= Seq::<Seq<u8>>::empty());
    assert(concat(seq![a].drop_last()) =~= Seq::<u8>::empty());
    assert(concat(seq![a]) =~= a);
    assert(concat(parts) =~= a + b);
}

/// A snapshot is read only under its own stamp and by a node that runs its codec, and only
/// if it carries its state in one form.
pub proof fn law_a_snapshot_is_read_only_as_what_it_is(
    bytes: Seq<u8>,
    codec: Seq<char>,
    snapshot: SnapshotModel,
)
    requires
        snapshot_meaning(bytes, codec) == Ok::<SnapshotModel, Seq<char>>(snapshot),
    ensures
        exists|body: BodyModel| #[trigger]
            reads_as_body(bytes, body) && body.codec == codec && body.facets == snapshot.facets
                && match snapshot.state {
                PayloadModel::Inline(state) => state == body.state && !body.ext.contains_key(
                    EXT_STATE_CHUNKS,
                ),
                PayloadModel::Chunked(_) => body.state.len() == 0 && body.ext.contains_key(
                    EXT_STATE_CHUNKS,
                ),
            },
{
    let raw = read_stamp("granary.snapshot"@, snapshot_magic(), SNAPSHOT_REVISION, bytes)->Ok_0;
    let body = payload_of::<SnapshotBody>("snapshot decode"@, raw)->Ok_0;
    assert(reads_as_body(bytes, body));
}

/// Some bytes are a snapshot's stamp and the encoding of a body behind it.
pub open spec fn reads_as_body(bytes: Seq<u8>, body: BodyModel) -> bool {
    read_stamp("granary.snapshot"@, snapshot_magic(), SNAPSHOT_REVISION, bytes) matches Ok(raw)
        && payload_of::<SnapshotBody>("snapshot decode"@, raw) == Ok::<BodyModel, Seq<char>>(body)
}

/// A snapshot begins with its magic and its revision, low byte first; and the refusal of
/// another codec's names both.
pub proof fn law_a_snapshot_says_what_it_is(
    snapshot: SnapshotModel,
    codec: Seq<char>,
    runs: Seq<char>,
)
    ensures
        snapshot_record(snapshot, codec).take(8) == seq![
            0x47u8,
            0x52u8,
            0x53u8,
            0x4Eu8,
            0x41u8,
            0x50u8,
            1u8,
            0u8,
        ],
        shows(codec_refused(codec, runs), codec),
        shows(codec_refused(codec, runs), runs),
{
    assert(snapshot_record(snapshot, codec).take(8) =~= seq![
        0x47u8,
        0x52u8,
        0x53u8,
        0x4Eu8,
        0x41u8,
        0x50u8,
        1u8,
        0u8,
    ]);
    let a = "granary.snapshot: encoded with codec '"@;
    let b = "', but this node runs '"@;
    let c = "' — facet 0's state is codec-encoded, so it cannot be decoded here"@;
    assert(codec_refused(codec, runs) =~= a + codec + (b + runs + c));
    assert(codec_refused(codec, runs) =~= (a + codec + b) + runs + c);
}

/// A snapshot's body is the codec, the inline state, the facets' contributions and the
/// extensions; a chunked state's manifest is its length and its chunks' ids.
pub proof fn law_snapshots_are_laid_out(m: BodyModel, manifest: ManifestModel)
    ensures
        SnapshotBody::enc(m) == String::enc(m.codec) + (<Vec<u8> as Wire>::enc(m.state) + (<Vec<
            (u8, Vec<u8>),
        > as Wire>::enc(m.facets) + <OrdMap<u16, Vec<u8>> as Wire>::enc(m.ext))),
        StateManifest::enc(manifest) == u64::enc(manifest.bytes) + <Vec<BlobId> as Wire>::enc(
            manifest.chunks,
        ),
{
}

} // verus!
