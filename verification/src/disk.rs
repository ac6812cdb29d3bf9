//! The disk facet: a raw block image per grain.
//!
//! Block bytes never ride a record. A capture compares the image's block digests
//! with the committed index, has the blocks that differ stored as blobs, and stages
//! one manifest of block numbers and ids. A checkpoint is the committed index as a
//! manifest of every covered block: it stores nothing, and the image's uncaptured
//! writes are not in it.
use vstd::prelude::*;
use vstd::string::*;

use crate::blobs::blake3_digest;
use crate::blobs::BlobId;
use crate::facet::decode_payload;
use crate::facet::encode_payload;
use crate::facet::payload_of;
use crate::facet::Facet;
use crate::facet::FacetError;
use crate::ordmap::OrdSet;
use crate::text::decimal;
use crate::text::joined;
use crate::text::push_decimal;
use crate::wire::dec_list;
use crate::wire::enc_list;
use crate::wire::fits_list;
use crate::wire::lemma_decoded;
use crate::wire::lemma_list;
use crate::wire::put_list;
use crate::wire::take_list;
use crate::wire::Decoded;
use crate::wire::Wire;
use crate::wire::WireError;

verus! {

/// The block size of captures and checkpoints.
pub const BLOCK_BYTES: u64 = 1048576;

/// The most bytes one image may hold.
pub const MAX_IMAGE_BYTES: u64 = 17179869184;

/// The disk facet.
pub struct Disk;

/// A disk operation failed: an application outcome.
#[derive(Clone, Debug, PartialEq, Eq)]
pub struct DiskError(pub String);

impl DiskError {
    pub fn to_text(&self) -> (r: String)
        ensures
            r@ == "disk error: "@ + self.0@,
    {
        joined("disk error: ", self.0.as_str())
    }
}

/// What a capture or an import staged: how many blocks, and their bytes.
#[derive(Clone, Copy, Debug, PartialEq, Eq, Structural)]
pub struct DiskCaptureStats {
    pub blocks: u32,
    pub bytes: u64,
}

/// A manifest: the image's size, the block size, and ids by block number. A capture
/// names the blocks that changed; a checkpoint every block that is covered.
#[derive(Clone, Debug, PartialEq, Eq)]
pub struct DiskManifest {
    pub image_bytes: u64,
    pub block_bytes: u32,
    pub blocks: Vec<(u32, BlobId)>,
}

#[verifier::ext_equal]
pub struct DiskManifestModel {
    pub image_bytes: u64,
    pub block_bytes: u32,
    pub blocks: Seq<(u32, Seq<u8>)>,
}

impl DeepView for DiskManifest {
    type V = DiskManifestModel;

    open spec fn deep_view(&self) -> DiskManifestModel {
        DiskManifestModel {
            image_bytes: self.image_bytes,
            block_bytes: self.block_bytes,
            blocks: self.blocks.deep_view(),
        }
    }
}

impl Wire for Vec<(u32, BlobId)> {
    open spec fn wire_inv(&self) -> bool {
        true
    }

    open spec fn fits(m: Seq<(u32, Seq<u8>)>) -> bool {
        fits_list::<(u32, BlobId)>(m)
    }

    open spec fn enc(m: Seq<(u32, Seq<u8>)>) -> Seq<u8> {
        enc_list::<(u32, BlobId)>(m)
    }

    open spec fn dec(b: Seq<u8>) -> Decoded<Seq<(u32, Seq<u8>)>> {
        dec_list::<(u32, BlobId)>(b)
    }

    proof fn round_trip(m: Seq<(u32, Seq<u8>)>, rest: Seq<u8>) {
        lemma_list::<(u32, BlobId)>(m, rest);
    }

    fn put(&self, out: &mut Vec<u8>) {
        put_list(self, out);
    }

    fn take<'a>(b: &'a [u8]) -> (r: Result<(Vec<(u32, BlobId)>, &'a [u8]), WireError>) {
        take_list::<(u32, BlobId)>(b)
    }
}

impl Wire for DiskManifest {
    open spec fn wire_inv(&self) -> bool {
        true
    }

    open spec fn fits(m: DiskManifestModel) -> bool {
        <u64 as Wire>::fits(m.image_bytes) && <u32 as Wire>::fits(m.block_bytes) && <Vec<(u32, BlobId)> as Wire>::fits(m.blocks)
    }

    open spec fn enc(m: DiskManifestModel) -> Seq<u8> {
        <(u64, (u32, Vec<(u32, BlobId)>)) as Wire>::enc((m.image_bytes, (m.block_bytes, m.blocks)))
    }

    open spec fn dec(b: Seq<u8>) -> Decoded<DiskManifestModel> {
        match <(u64, (u32, Vec<(u32, BlobId)>)) as Wire>::dec(b) {
            Err(e) => Err(e),
            Ok(((image_bytes, (block_bytes, blocks)), rest)) => Ok((DiskManifestModel { image_bytes, block_bytes, blocks }, rest)),
        }
    }

    proof fn round_trip(m: DiskManifestModel, rest: Seq<u8>) {
        <(u64, (u32, Vec<(u32, BlobId)>)) as Wire>::round_trip((m.image_bytes, (m.block_bytes, m.blocks)), rest);
    }

    fn put(&self, out: &mut Vec<u8>) {
        let ghost before = out@;
        self.image_bytes.put(out);
        self.block_bytes.put(out);
        self.blocks.put(out);
        assert(out@ =~= before + Self::enc(self.deep_view()));
    }

    fn take<'a>(b: &'a [u8]) -> (r: Result<(DiskManifest, &'a [u8]), WireError>) {
        match <(u64, (u32, Vec<(u32, BlobId)>)) as Wire>::take(b) {
            Err(e) => Err(e),
            Ok(((image_bytes, (block_bytes, blocks)), rest)) => {
                Ok((DiskManifest { image_bytes, block_bytes, blocks }, rest))
            },
        }
    }
}

// ---- Blocks ----

/// How many blocks an image of `image_bytes` spans, the last one possibly partial.
pub open spec fn blocks_in(image_bytes: int) -> int {
    (image_bytes + BLOCK_BYTES - 1) / BLOCK_BYTES as int
}

/// The length of block `idx` of an image.
pub open spec fn length_of(image_bytes: int, idx: int) -> int {
    if image_bytes - idx * BLOCK_BYTES <= BLOCK_BYTES {
        image_bytes - idx * BLOCK_BYTES
    } else {
        BLOCK_BYTES as int
    }
}

/// Blocks an image of `image_bytes` spans.
pub fn block_count(image_bytes: u64) -> (r: usize)
    ensures
        blocks_in(image_bytes as int) <= u64::MAX,
        r == blocks_in(image_bytes as int) as u64 as usize,
{
    let whole: u64 = image_bytes / BLOCK_BYTES;
    let count: u64 = if image_bytes % BLOCK_BYTES == 0 {
        whole
    } else {
        whole + 1
    };
    assert(count == blocks_in(image_bytes as int));
    count as usize
}

/// The byte length of block `idx` of an image of `image_bytes`.
pub fn block_len(image_bytes: u64, idx: u32) -> (r: usize)
    requires
        idx * BLOCK_BYTES <= image_bytes,
    ensures
        r == length_of(image_bytes as int, idx as int),
{
    let start: u64 = idx as u64 * BLOCK_BYTES;
    let left: u64 = image_bytes - start;
    (if left <= BLOCK_BYTES { left } else { BLOCK_BYTES }) as usize
}

/// Block numbers below the count are those that begin inside the image.
proof fn lemma_inside(image_bytes: int, idx: int)
    requires
        0 <= image_bytes,
        0 <= idx,
    ensures
        idx < blocks_in(image_bytes) <==> idx * BLOCK_BYTES < image_bytes,
{
    assert(idx < (image_bytes + 1048576 - 1) / 1048576 <==> idx * 1048576 < image_bytes);
}

/// Why a manifest is refused, if it is: another block size, an image beyond the
/// bound, or a block outside the image.
pub open spec fn manifest_refusal(m: DiskManifestModel) -> Option<Seq<char>> {
    if m.block_bytes != BLOCK_BYTES {
        Some(
            "disk: manifest block size "@ + decimal(m.block_bytes as nat) + ", facet fixes "@
                + decimal(BLOCK_BYTES as nat),
        )
    } else if m.image_bytes > MAX_IMAGE_BYTES {
        Some(
            "disk: manifest image size "@ + decimal(m.image_bytes as nat) + " exceeds the "@
                + decimal(MAX_IMAGE_BYTES as nat) + " bound"@,
        )
    } else {
        match first_outside(m.blocks, m.image_bytes) {
            Some(idx) => Some(
                "disk: manifest block "@ + decimal(idx as nat) + " lies outside the "@ + decimal(
                    m.image_bytes as nat,
                ) + "-byte image"@,
            ),
            None => None,
        }
    }
}

/// The first block that does not begin inside the image.
pub open spec fn first_outside(blocks: Seq<(u32, Seq<u8>)>, image_bytes: u64) -> Option<u32>
    decreases blocks.len(),
{
    if blocks.len() == 0 {
        None
    } else if blocks[0].0 * BLOCK_BYTES >= image_bytes {
        Some(blocks[0].0)
    } else {
        first_outside(blocks.skip(1), image_bytes)
    }
}

/// A manifest of blocks inside an image within the bound.
pub open spec fn manifest_ok(m: DiskManifestModel) -> bool {
    &&& m.block_bytes == BLOCK_BYTES
    &&& m.image_bytes <= MAX_IMAGE_BYTES
    &&& forall|i: int|
        0 <= i < m.blocks.len() ==> (#[trigger] m.blocks[i]).0 < blocks_in(m.image_bytes as int)
}

proof fn lemma_first_outside(blocks: Seq<(u32, Seq<u8>)>, image_bytes: u64)
    ensures
        first_outside(blocks, image_bytes) is None <==> forall|i: int|
            0 <= i < blocks.len() ==> (#[trigger] blocks[i]).0 < blocks_in(image_bytes as int),
    decreases blocks.len(),
{
    if blocks.len() > 0 {
        lemma_inside(image_bytes as int, blocks[0].0 as int);
        lemma_first_outside(blocks.skip(1), image_bytes);
        let rest = blocks.skip(1);
        if first_outside(blocks, image_bytes) is None {
            assert forall|i: int| 0 <= i < blocks.len() implies (#[trigger] blocks[i]).0
                < blocks_in(image_bytes as int) by {
                if i > 0 {
                    assert(rest[i - 1] == blocks[i]);
                }
            }
        } else if blocks[0].0 * BLOCK_BYTES < image_bytes {
            let i = choose|i: int|
                0 <= i < rest.len() && !((#[trigger] rest[i]).0 < blocks_in(image_bytes as int));
            assert(blocks[i + 1] == rest[i]);
        } else {
            assert(!(blocks[0].0 < blocks_in(image_bytes as int)));
        }
    }
}

/// A manifest is refused exactly if it is not in order.
pub proof fn lemma_refusal(m: DiskManifestModel)
    ensures
        manifest_refusal(m) is None <==> manifest_ok(m),
{
    lemma_first_outside(m.blocks, m.image_bytes);
}

impl DiskManifest {
    /// Refuse a manifest that breaches the facet's bounds.
    pub fn validate(&self) -> (r: Result<(), FacetError>)
        ensures
            match r {
                Ok(_) => manifest_refusal(self.deep_view()) is None && manifest_ok(
                    self.deep_view(),
                ),
                Err(e) => manifest_refusal(self.deep_view()) == Some(e.0@),
            },
    {
        proof {
            lemma_refusal(self.deep_view());
        }
        if self.block_bytes as u64 != BLOCK_BYTES {
            let mut text = "disk: manifest block size ".to_owned();
            push_decimal(&mut text, self.block_bytes as u64);
            text.append(", facet fixes ");
            push_decimal(&mut text, BLOCK_BYTES);
            return Err(FacetError(text));
        }
        if self.image_bytes > MAX_IMAGE_BYTES {
            let mut text = "disk: manifest image size ".to_owned();
            push_decimal(&mut text, self.image_bytes);
            text.append(" exceeds the ");
            push_decimal(&mut text, MAX_IMAGE_BYTES);
            text.append(" bound");
            return Err(FacetError(text));
        }
        let ghost all = self.blocks.deep_view();
        let mut i: usize = 0;
        assert(all.skip(0) =~= all);
        while i < self.blocks.len()
            invariant
                i <= self.blocks@.len(),
                all == self.blocks.deep_view(),
                self.block_bytes == BLOCK_BYTES,
                self.image_bytes <= MAX_IMAGE_BYTES,
                first_outside(all, self.image_bytes) == first_outside(
                    all.skip(i as int),
                    self.image_bytes,
                ),
            decreases self.blocks@.len() - i,
        {
            let idx: u32 = self.blocks[i].0;
            proof {
                assert(all.skip(i as int)[0].0 == idx);
                assert(all.skip(i as int).skip(1) =~= all.skip(i + 1));
            }
            if idx as u64 * BLOCK_BYTES >= self.image_bytes {
                let mut text = "disk: manifest block ".to_owned();
                push_decimal(&mut text, idx as u64);
                text.append(" lies outside the ");
                push_decimal(&mut text, self.image_bytes);
                text.append("-byte image");
                return Err(FacetError(text));
            }
            i = i + 1;
        }
        Ok(())
    }
}

// ---- The committed state ----

/// The committed image: its size, the id of each block (`None` where no manifest
/// ever covered it, which reads as zeros), the blobs to keep alive, and the replayed
/// manifests that are not materialized yet.
#[derive(Clone, Debug, PartialEq, Eq)]
pub struct DiskState {
    pub image_bytes: u64,
    pub index: Vec<Option<BlobId>>,
    pub roots: OrdSet<BlobId>,
    pub pending: Vec<DiskManifest>,
}

#[verifier::ext_equal]
pub struct DiskModel {
    pub image_bytes: u64,
    pub index: Seq<Option<Seq<u8>>>,
    pub roots: Set<Seq<u8>>,
    pub pending: Seq<DiskManifestModel>,
}

impl DeepView for DiskState {
    type V = DiskModel;

    open spec fn deep_view(&self) -> DiskModel {
        DiskModel {
            image_bytes: self.image_bytes,
            index: self.index.deep_view(),
            roots: self.roots@,
            pending: self.pending.deep_view(),
        }
    }
}

/// The image before anything was imported.
pub open spec fn no_image() -> DiskModel {
    DiskModel { image_bytes: 0, index: seq![], roots: Set::empty(), pending: seq![] }
}

impl Default for DiskState {
    fn default() -> (r: DiskState)
        ensures
            r.wf(),
            r.deep_view() == no_image(),
    {
        let r = DiskState {
            image_bytes: 0,
            index: Vec::new(),
            roots: OrdSet::new(),
            pending: Vec::new(),
        };
        assert(r.index.deep_view() =~= seq![]);
        assert(r.pending.deep_view() =~= seq![]);
        r
    }
}

/// An index cut or grown to `n` blocks, the new ones uncovered.
pub open spec fn resized(index: Seq<Option<Seq<u8>>>, n: int) -> Seq<Option<Seq<u8>>> {
    Seq::new(
        n as nat,
        |i: int| if i < index.len() {
            index[i]
        } else {
            None
        },
    )
}

/// An index with the blocks of a manifest entered, a later one over an earlier one.
pub open spec fn entered(index: Seq<Option<Seq<u8>>>, blocks: Seq<(u32, Seq<u8>)>) -> Seq<
    Option<Seq<u8>>,
>
    decreases blocks.len(),
{
    if blocks.len() == 0 {
        index
    } else {
        entered(index, blocks.drop_last()).update(blocks.last().0 as int, Some(blocks.last().1))
    }
}

/// The ids that a manifest names.
pub open spec fn ids_of(blocks: Seq<(u32, Seq<u8>)>) -> Set<Seq<u8>> {
    blocks.map_values(|b: (u32, Seq<u8>)| b.1).to_set()
}

/// The state after a manifest: an import replaces the index, a capture amends it.
pub open spec fn manifest_applied(d: DiskModel, m: DiskManifestModel, replace: bool) -> DiskModel {
    DiskModel {
        image_bytes: m.image_bytes,
        index: entered(
            resized(
                if replace {
                    seq![]
                } else {
                    d.index
                },
                blocks_in(m.image_bytes as int),
            ),
            m.blocks,
        ),
        roots: d.roots.union(ids_of(m.blocks)),
        pending: d.pending,
    }
}

/// The covered blocks of an index from `from` on, by number.
pub open spec fn covered(index: Seq<Option<Seq<u8>>>, n: int) -> Seq<(u32, Seq<u8>)>
    decreases n,
{
    if n <= 0 {
        seq![]
    } else {
        match index[n - 1] {
            Some(id) => covered(index, n - 1).push(((n - 1) as u32, id)),
            None => covered(index, n - 1),
        }
    }
}

/// The committed index as a manifest of every covered block.
pub open spec fn full_manifest(d: DiskModel) -> DiskManifestModel {
    DiskManifestModel {
        image_bytes: d.image_bytes,
        block_bytes: BLOCK_BYTES as u32,
        blocks: covered(d.index, d.index.len() as int),
    }
}

/// What an index holds after a manifest: the last id entered for a block, or what was
/// there.
proof fn lemma_entered(index: Seq<Option<Seq<u8>>>, blocks: Seq<(u32, Seq<u8>)>)
    requires
        forall|i: int| 0 <= i < blocks.len() ==> (#[trigger] blocks[i]).0 < index.len(),
    ensures
        entered(index, blocks).len() == index.len(),
        forall|k: int|
            0 <= k < index.len() && (forall|i: int|
                0 <= i < blocks.len() ==> (#[trigger] blocks[i]).0 != k) ==> #[trigger] entered(
                index,
                blocks,
            )[k] == index[k],
        forall|k: int, i: int|
            0 <= i < blocks.len() && (#[trigger] blocks[i]).0 == k && (forall|j: int|
                i < j < blocks.len() ==> (#[trigger] blocks[j]).0 != k) ==> #[trigger] entered(
                index,
                blocks,
            )[k] == Some(blocks[i].1),
    decreases blocks.len(),
{
    if blocks.len() > 0 {
        let front = blocks.drop_last();
        assert forall|i: int| 0 <= i < front.len() implies (#[trigger] front[i]).0
            < index.len() by {
            assert(front[i] == blocks[i]);
        }
        lemma_entered(index, front);
        assert(blocks[blocks.len() - 1] == blocks.last());
        assert forall|k: int|
            0 <= k < index.len() && (forall|i: int|
                0 <= i < blocks.len() ==> (#[trigger] blocks[i]).0 != k) implies #[trigger] entered(
            index,
            blocks,
        )[k] == index[k] by {
            assert(blocks[blocks.len() - 1].0 != k);
            assert forall|i: int| 0 <= i < front.len() implies (#[trigger] front[i]).0 != k by {
                assert(front[i] == blocks[i]);
            }
            assert(entered(index, front)[k] == index[k]);
        }
        assert forall|k: int, i: int|
            0 <= i < blocks.len() && (#[trigger] blocks[i]).0 == k && (forall|j: int|
                i < j < blocks.len() ==> (#[trigger] blocks[j]).0 != k) implies #[trigger] entered(
            index,
            blocks,
        )[k] == Some(blocks[i].1) by {
            if i < front.len() {
                assert(front[i] == blocks[i]);
                assert(blocks[blocks.len() - 1].0 != k);
                assert forall|j: int| i < j < front.len() implies (#[trigger] front[j]).0 != k by {
                    assert(front[j] == blocks[j]);
                }
                assert(entered(index, front)[k] == Some(front[i].1));
            }
        }
    }
}

impl DiskState {
    /// The image is within its bound and the index has one entry per block.
    pub open spec fn wf(&self) -> bool {
        &&& self.image_bytes <= MAX_IMAGE_BYTES
        &&& self.index@.len() == blocks_in(self.image_bytes as int)
        &&& self.roots.wf()
    }

    /// Bring one manifest into the committed state. The live commit path and the
    /// replay path share it.
    pub fn apply(&mut self, manifest: &DiskManifest, replace: bool)
        requires
            old(self).wf(),
            manifest_ok(manifest.deep_view()),
        ensures
            final(self).wf(),
            final(self).deep_view() == manifest_applied(
                old(self).deep_view(),
                manifest.deep_view(),
                replace,
            ),
    {
        let ghost before = self.deep_view();
        let ghost m = manifest.deep_view();
        let n: usize = block_count(manifest.image_bytes);
        if replace {
            self.index.clear();
            assert(self.index.deep_view() =~= seq![]);
        }
        let ghost base = self.index.deep_view();
        self.image_bytes = manifest.image_bytes;
        if self.index.len() > n {
            self.index.truncate(n);
        }
        let kept: usize = self.index.len();
        while self.index.len() < n
            invariant
                n == blocks_in(m.image_bytes as int),
                self.index@.len() <= n,
                kept <= self.index@.len(),
                kept == base.len() || kept == n,
                kept <= base.len(),
                self.image_bytes == m.image_bytes,
                self.roots == old(self).roots,
                self.pending == old(self).pending,
                forall|i: int|
                    0 <= i < self.index@.len() ==> (#[trigger] self.index.deep_view()[i]) == if i
                        < base.len() {
                        base[i]
                    } else {
                        None
                    },
            decreases n - self.index@.len(),
        {
            let ghost was = self.index.deep_view();
            self.index.push(None);
            assert(self.index.deep_view() =~= was.push(None));
        }
        let ghost grown = resized(base, n as int);
        assert(self.index.deep_view() =~= grown);
        assert(entered(grown, m.blocks.take(0)) =~= grown);
        proof {
            assert(ids_of(m.blocks.take(0)) =~= Set::empty());
            assert(before.roots.union(ids_of(m.blocks.take(0))) =~= before.roots);
        }
        let mut i: usize = 0;
        while i < manifest.blocks.len()
            invariant
                m == manifest.deep_view(),
                manifest_ok(m),
                n == blocks_in(m.image_bytes as int),
                i <= manifest.blocks@.len(),
                self.image_bytes == m.image_bytes,
                self.pending == old(self).pending,
                self.index@.len() == n,
                self.roots.wf(),
                self.index.deep_view() == entered(grown, m.blocks.take(i as int)),
                self.roots@ == before.roots.union(ids_of(m.blocks.take(i as int))),
            decreases manifest.blocks@.len() - i,
        {
            let (idx, id) = manifest.blocks[i];
            let ghost was = self.index.deep_view();
            let ghost had = self.roots@;
            proof {
                assert(m.blocks[i as int] == (idx, id@));
                assert(m.blocks.take(i + 1).drop_last() =~= m.blocks.take(i as int));
                assert(m.blocks.take(i + 1).last() == (idx, id@));
            }
            self.index[idx as usize] = Some(id);
            assert(self.index.deep_view() =~= was.update(idx as int, Some(id@)));
            self.roots.insert(id);
            proof {
                lemma_ids_push(m.blocks.take(i as int), (idx, id@));
                assert(m.blocks.take(i + 1) =~= m.blocks.take(i as int).push((idx, id@)));
                assert(before.roots.union(ids_of(m.blocks.take(i as int))).insert(id@)
                    =~= before.roots.union(ids_of(m.blocks.take(i + 1))));
            }
            i = i + 1;
        }
        assert(m.blocks.take(i as int) =~= m.blocks);
    }

    /// The committed index as a manifest: the snapshot contribution.
    pub fn manifest(&self) -> (r: DiskManifest)
        requires
            self.wf(),
        ensures
            r.deep_view() == full_manifest(self.deep_view()),
    {
        let ghost index = self.index.deep_view();
        let mut blocks: Vec<(u32, BlobId)> = Vec::new();
        let mut i: usize = 0;
        proof {
            assert(blocks.deep_view() =~= covered(index, 0));
            lemma_count_bound(self.image_bytes as int);
        }
        while i < self.index.len()
            invariant
                i <= self.index@.len(),
                self.index@.len() <= 16384,
                index == self.index.deep_view(),
                blocks.deep_view() == covered(index, i as int),
            decreases self.index@.len() - i,
        {
            if let Some(id) = self.index[i] {
                let ghost was = blocks.deep_view();
                blocks.push((i as u32, id));
                assert(blocks.deep_view() =~= was.push((i as u32, id@)));
                assert(index[i as int] == Some(id@));
            } else {
                assert(index[i as int] is None);
            }
            i = i + 1;
        }
        DiskManifest { image_bytes: self.image_bytes, block_bytes: BLOCK_BYTES as u32, blocks }
    }

    /// A content identifier of the committed image: the digest of its index.
    pub fn content_digest(&self) -> (r: BlobId)
        requires
            self.wf(),
        ensures
            r@ == blake3_digest(DiskManifest::enc(full_manifest(self.deep_view()))),
    {
        let bytes = encode_payload(&self.manifest());
        BlobId::of(bytes.as_slice())
    }
}

proof fn lemma_count_bound(image_bytes: int)
    requires
        0 <= image_bytes <= MAX_IMAGE_BYTES,
    ensures
        0 <= blocks_in(image_bytes) <= 16384,
{
}

proof fn lemma_ids_push(blocks: Seq<(u32, Seq<u8>)>, b: (u32, Seq<u8>))
    ensures
        ids_of(blocks.push(b)) == ids_of(blocks).insert(b.1),
{
    let f = |x: (u32, Seq<u8>)| x.1;
    let s = blocks.map_values(f);
    let t = blocks.push(b).map_values(f);
    assert(t =~= s.push(b.1));
    assert forall|x: Seq<u8>| t.to_set().contains(x) == s.to_set().insert(b.1).contains(x) by {
        if s.contains(x) {
            let i = s.index_of(x);
            assert(t[i] == x);
        }
        if x == b.1 {
            assert(t[s.len() as int] == x);
        }
        if t.contains(x) {
            let i = t.index_of(x);
            if i < s.len() {
                assert(s[i] == x);
            }
        }
    }
    assert(t.to_set() =~= s.to_set().insert(b.1));
}

// ---- The facet ----

/// The committed form: nothing until a restore materializes it.
#[derive(Clone, Debug, PartialEq, Eq)]
pub struct DiskForm(pub Option<DiskState>);

impl DeepView for DiskForm {
    type V = Option<DiskModel>;

    open spec fn deep_view(&self) -> Option<DiskModel> {
        match self.0 {
            Some(state) => Some(state.deep_view()),
            None => None,
        }
    }
}

impl Default for DiskForm {
    fn default() -> (r: DiskForm)
        ensures
            r.0 is None,
    {
        DiskForm(None)
    }
}

/// The per-command stage: the one manifest that a capture or an import staged.
#[derive(Clone, Debug, PartialEq, Eq)]
pub struct DiskStage {
    pub manifest: Option<Vec<u8>>,
}

impl DeepView for DiskStage {
    type V = Option<Seq<u8>>;

    open spec fn deep_view(&self) -> Option<Seq<u8>> {
        match self.manifest {
            Some(bytes) => Some(bytes@),
            None => None,
        }
    }
}

impl Default for DiskStage {
    fn default() -> (r: DiskStage)
        ensures
            r.manifest is None,
    {
        DiskStage { manifest: None }
    }
}

pub open spec fn not_materialized() -> Seq<char> {
    "disk: image not materialized"@
}

impl DiskForm {
    pub open spec fn wf(&self) -> bool {
        self.0 is Some ==> self.0->0.wf()
    }

    /// The materialized image.
    pub fn image(&self) -> (r: Result<&DiskState, FacetError>)
        requires
            self.wf(),
        ensures
            match r {
                Ok(state) => self.0 is Some && *state == self.0->0 && state.wf(),
                Err(e) => self.0 is None && e.0@ == not_materialized(),
            },
    {
        match &self.0 {
            Some(state) => Ok(state),
            None => Err(FacetError("disk: image not materialized".to_owned())),
        }
    }
}

impl Facet for Disk {
    type Form = DiskForm;

    type Stage = DiskStage;

    open spec fn tag() -> u8 {
        6
    }

    open spec fn physical() -> bool {
        true
    }

    open spec fn form_wf(form: DiskForm) -> bool {
        form.wf()
    }

    open spec fn stage_wf(stage: DiskStage) -> bool {
        true
    }

    open spec fn empty_form() -> Option<DiskModel> {
        None
    }

    open spec fn empty_stage() -> Option<Seq<u8>> {
        None
    }

    /// An image whose file is gone can no longer be trusted.
    open spec fn begin_refusal(form: Option<DiskModel>, present: bool) -> Option<Seq<char>> {
        match form {
            None => Some(not_materialized()),
            Some(d) => if d.image_bytes > 0 && !present {
                Some("disk: image file vanished"@)
            } else {
                None
            },
        }
    }

    open spec fn sealed(form: Option<DiskModel>, stage: Option<Seq<u8>>) -> Result<
        (Option<DiskModel>, Option<Seq<u8>>),
        Seq<char>,
    > {
        Ok((form, stage))
    }

    open spec fn drained(stage: Option<Seq<u8>>) -> Seq<Seq<u8>> {
        match stage {
            Some(bytes) => seq![bytes],
            None => seq![],
        }
    }

    open spec fn fold_ok(form: Option<DiskModel>, payload: Seq<u8>) -> bool {
        true
    }

    open spec fn always_ok(payload: Seq<u8>) -> bool {
        true
    }

    proof fn always_ok_folds(form: Option<DiskModel>, payload: Seq<u8>) {
    }

    /// A replayed manifest waits until its blocks are fetched.
    open spec fn folded(form: Option<DiskModel>, payload: Seq<u8>) -> Result<
        Option<DiskModel>,
        Seq<char>,
    > {
        match payload_of::<DiskManifest>("disk record"@, payload) {
            Err(text) => Err(text),
            Ok(m) => match form {
                None => Err(not_materialized()),
                Some(d) => Ok(Some(DiskModel { pending: d.pending.push(m), ..d })),
            },
        }
    }

    open spec fn snapped(form: Option<DiskModel>) -> Result<Seq<u8>, Seq<char>> {
        match form {
            None => Err(not_materialized()),
            Some(d) => Ok(DiskManifest::enc(full_manifest(d))),
        }
    }

    /// A restored image starts empty, with the checkpoint's manifest to materialize.
    open spec fn restored(part: Option<Seq<u8>>) -> Result<Option<DiskModel>, Seq<char>> {
        match part {
            None => Ok(Some(no_image())),
            Some(bytes) => match payload_of::<DiskManifest>("disk restore"@, bytes) {
                Err(text) => Err(text),
                Ok(m) => match manifest_refusal(m) {
                    Some(text) => Err(text),
                    None => Ok(Some(DiskModel { pending: seq![m], ..no_image() })),
                },
            },
        }
    }

    /// The image comes back as a manifest that waits for its blocks.
    open spec fn reborn(form: Option<DiskModel>) -> Option<DiskModel> {
        match form {
            Some(d) => Some(DiskModel { pending: seq![full_manifest(d)], ..no_image() }),
            None => None,
        }
    }

    open spec fn keeps(form: Option<DiskModel>) -> bool {
        match form {
            Some(d) => {
                &&& d.image_bytes <= MAX_IMAGE_BYTES
                &&& d.index.len() == blocks_in(d.image_bytes as int)
                &&& DiskManifest::fits(full_manifest(d))
            },
            None => false,
        }
    }

    proof fn snapshot_keeps(form: Option<DiskModel>) {
        law_snapshot_round_trips(form->0);
    }

    open spec fn discarded(form: Option<DiskModel>) -> Option<DiskModel> {
        None
    }

    open spec fn rooted(form: Option<DiskModel>) -> Set<Seq<u8>> {
        match form {
            Some(d) => d.roots,
            None => Set::empty(),
        }
    }

    open spec fn due(form: Option<DiskModel>) -> Option<u64> {
        None
    }

    open spec fn alarm_consumed(stage: Option<Seq<u8>>) -> Option<Seq<u8>> {
        stage
    }

    fn tag_value() -> (r: u8) {
        6
    }

    fn is_physical() -> (r: bool) {
        true
    }

    fn new_form() -> (r: DiskForm) {
        DiskForm::default()
    }

    fn new_stage() -> (r: DiskStage) {
        DiskStage::default()
    }

    fn begin(form: &DiskForm, present: bool) -> (r: Result<(), FacetError>) {
        match form.image() {
            Err(e) => Err(e),
            Ok(state) => if state.image_bytes > 0 && !present {
                Err(FacetError("disk: image file vanished".to_owned()))
            } else {
                Ok(())
            },
        }
    }

    fn seal(form: &mut DiskForm, stage: &mut DiskStage) -> (r: Result<(), FacetError>) {
        Ok(())
    }

    fn drain(stage: DiskStage) -> (r: Vec<Vec<u8>>) {
        let ghost m = stage.deep_view();
        let mut out: Vec<Vec<u8>> = Vec::new();
        if let Some(bytes) = stage.manifest {
            assert(bytes.deep_view() =~= bytes@);
            out.push(bytes);
        }
        assert(out.deep_view() =~= Self::drained(m));
        out
    }

    fn foldable(form: &DiskForm, payload: &[u8]) -> (r: bool) {
        true
    }

    fn always_foldable(payload: &[u8]) -> (r: bool) {
        true
    }

    fn fold(form: &mut DiskForm, payload: &[u8]) -> (r: Result<(), FacetError>) {
        let ghost before = form.deep_view();
        let manifest = match decode_payload::<DiskManifest>("disk record", payload) {
            Ok(manifest) => manifest,
            Err(e) => {
                return Err(e);
            },
        };
        let ghost m = manifest.deep_view();
        match form.0.take() {
            None => Err(FacetError("disk: image not materialized".to_owned())),
            Some(mut state) => {
                let ghost was = state.pending.deep_view();
                state.pending.push(manifest);
                assert(state.pending.deep_view() =~= was.push(m));
                form.0 = Some(state);
                Ok(())
            },
        }
    }

    fn snapshot(form: &DiskForm) -> (r: Result<Vec<u8>, FacetError>) {
        match form.image() {
            Err(e) => Err(e),
            Ok(state) => Ok(encode_payload(&state.manifest())),
        }
    }

    fn restore(part: Option<&[u8]>) -> (r: Result<DiskForm, FacetError>) {
        let mut state = DiskState::default();
        if let Some(bytes) = part {
            match decode_payload::<DiskManifest>("disk restore", bytes) {
                Err(e) => {
                    return Err(e);
                },
                Ok(manifest) => {
                    if let Err(e) = manifest.validate() {
                        return Err(e);
                    }
                    let ghost m = manifest.deep_view();
                    state.pending.push(manifest);
                    assert(state.pending.deep_view() =~= seq![m]);
                },
            }
        }
        Ok(DiskForm(Some(state)))
    }

    fn discard(form: &mut DiskForm) {
        form.0 = None;
    }

    fn roots(form: &DiskForm) -> (r: OrdSet<BlobId>) {
        match &form.0 {
            Some(state) => state.roots.dup(),
            None => OrdSet::new(),
        }
    }

    fn alarm_due(form: &DiskForm) -> (r: Option<u64>) {
        None
    }

    fn stage_clear_alarm(stage: &mut DiskStage) {
    }
}

// ---- Materializing a manifest ----

/// The materialization of one manifest: which block comes next.
pub struct Materializing {
    manifest: DiskManifest,
    at: usize,
}

/// The refusal of a block whose blob has another length.
pub open spec fn block_refused(idx: u32, found: nat, expected: nat) -> Seq<char> {
    "disk: block "@ + decimal(idx as nat) + " is "@ + decimal(found) + " bytes, manifest places "@
        + decimal(expected)
}

impl Materializing {
    pub closed spec fn model(&self) -> DiskManifestModel {
        self.manifest.deep_view()
    }

    /// How many of the manifest's blocks are written.
    pub closed spec fn done(&self) -> nat {
        self.at as nat
    }

    pub closed spec fn wf(&self) -> bool {
        self.at <= self.manifest.blocks@.len() && manifest_ok(self.manifest.deep_view())
    }

    /// Begin, if the manifest is within the facet's bounds.
    pub fn new(manifest: DiskManifest) -> (r: Result<Materializing, FacetError>)
        ensures
            match r {
                Ok(run) => run.wf() && run.done() == 0 && run.model() == manifest.deep_view()
                    && manifest_refusal(manifest.deep_view()) is None,
                Err(e) => manifest_refusal(manifest.deep_view()) == Some(e.0@),
            },
    {
        match manifest.validate() {
            Ok(_) => Ok(Materializing { manifest, at: 0 }),
            Err(e) => Err(e),
        }
    }

    /// The blob of the next block.
    pub fn next(&self) -> (r: Option<BlobId>)
        requires
            self.wf(),
        ensures
            match r {
                Some(id) => self.done() < self.model().blocks.len() && id@
                    == self.model().blocks[self.done() as int].1,
                None => self.done() == self.model().blocks.len(),
            },
    {
        if self.at < self.manifest.blocks.len() {
            proof {
                assert(self.model().blocks[self.at as int] == (
                    self.manifest.blocks@[self.at as int].0,
                    self.manifest.blocks@[self.at as int].1@,
                ));
            }
            Some(self.manifest.blocks[self.at].1)
        } else {
            None
        }
    }

    /// Where the fetched block of `len` bytes goes. A block of another length than
    /// its place is refused.
    pub fn place(&mut self, len: usize) -> (r: Result<u64, FacetError>)
        requires
            old(self).wf(),
            old(self).done() < old(self).model().blocks.len(),
        ensures
            final(self).wf(),
            final(self).model() == old(self).model(),
            ({
                let m = old(self).model();
                let idx = m.blocks[old(self).done() as int].0;
                let expected = length_of(m.image_bytes as int, idx as int);
                match r {
                    Ok(offset) => len == expected && offset == idx * BLOCK_BYTES
                        && final(self).done() == old(self).done() + 1,
                    Err(e) => len != expected && e.0@ == block_refused(
                        idx,
                        len as nat,
                        expected as nat,
                    ) && final(self).done() == old(self).done(),
                }
            }),
    {
        let n: usize = self.manifest.blocks.len();
        assert(self.at < n);
        let idx: u32 = self.manifest.blocks[self.at].0;
        proof {
            assert(self.model().blocks[self.at as int].0 == idx);
            lemma_inside(self.manifest.image_bytes as int, idx as int);
        }
        let expected: usize = block_len(self.manifest.image_bytes, idx);
        if len != expected {
            let mut text = "disk: block ".to_owned();
            push_decimal(&mut text, idx as u64);
            text.append(" is ");
            push_decimal(&mut text, len as u64);
            text.append(" bytes, manifest places ");
            push_decimal(&mut text, expected as u64);
            return Err(FacetError(text));
        }
        self.at = self.at + 1;
        Ok(idx as u64 * BLOCK_BYTES)
    }

    /// Commit the manifest to the state once every block is written.
    pub fn finish(self, state: &mut DiskState)
        requires
            self.wf(),
            self.done() == self.model().blocks.len(),
            old(state).wf(),
        ensures
            final(state).wf(),
            final(state).deep_view() == manifest_applied(
                old(state).deep_view(),
                self.model(),
                false,
            ),
    {
        state.apply(&self.manifest, false);
    }
}

/// The next manifest that waits to be materialized, if any.
pub fn take_pending(state: &mut DiskState) -> (r: Option<DiskManifest>)
    requires
        old(state).wf(),
    ensures
        final(state).wf(),
        match r {
            Some(m) => old(state).deep_view().pending.len() > 0 && m.deep_view() == old(
                state,
            ).deep_view().pending[0] && final(state).deep_view() == (DiskModel {
                pending: old(state).deep_view().pending.skip(1),
                ..old(state).deep_view()
            }),
            None => old(state).deep_view().pending.len() == 0 && final(state).deep_view() == old(
                state,
            ).deep_view(),
        },
{
    if state.pending.len() == 0 {
        return None;
    }
    let ghost was = state.pending.deep_view();
    let m = state.pending.remove(0);
    assert(state.pending.deep_view() =~= was.skip(1));
    Some(m)
}

// ---- The handle ----

/// Check that a command may stage a capture: inside a handler, over a materialized
/// image, with nothing staged yet.
pub fn begin_staged_op(form: &DiskForm, stage: Option<&DiskStage>) -> (r: Result<(), DiskError>)
    requires
        form.wf(),
    ensures
        match stage {
            None => r matches Err(e) && e.0@
                == "disk captures are only valid inside a command handler"@,
            Some(s) => if s.manifest is Some {
                r matches Err(e) && e.0@ == "one capture or import per command"@
            } else if form.0 is None {
                r matches Err(e) && e.0@ == "facet error: "@ + not_materialized()
            } else {
                r is Ok
            },
        },
{
    match stage {
        None => Err(
            DiskError("disk captures are only valid inside a command handler".to_owned()),
        ),
        Some(stage) => if stage.manifest.is_some() {
            Err(DiskError("one capture or import per command".to_owned()))
        } else {
            match form.image() {
                Ok(_) => Ok(()),
                Err(e) => Err(DiskError(e.to_text())),
            }
        },
    }
}

/// A command's view of its grain's image.
pub struct DiskHandle<'a> {
    pub form: &'a DiskForm,
    pub stage: Option<&'a DiskStage>,
}

impl<'a> DiskHandle<'a> {
    /// The committed image size; 0 until an import commits.
    pub fn image_bytes(&self) -> (r: Result<u64, DiskError>)
        requires
            self.form.wf(),
        ensures
            match self.form.0 {
                Some(state) => r == Ok::<u64, DiskError>(state.image_bytes),
                None => r matches Err(e) && e.0@ == "facet error: "@ + not_materialized(),
            },
    {
        match self.form.image() {
            Ok(state) => Ok(state.image_bytes),
            Err(e) => Err(DiskError(e.to_text())),
        }
    }

    /// A content identifier of the committed image; none before an import commits.
    pub fn content_digest(&self) -> (r: Result<Option<BlobId>, DiskError>)
        requires
            self.form.wf(),
        ensures
            match self.form.0 {
                Some(state) => r is Ok && (r->Ok_0 is Some == (state.image_bytes > 0)) && (
                r->Ok_0 is Some ==> r->Ok_0->0@ == blake3_digest(
                    DiskManifest::enc(full_manifest(state.deep_view())),
                )),
                None => r matches Err(e) && e.0@ == "facet error: "@ + not_materialized(),
            },
    {
        match self.form.image() {
            Ok(state) => if state.image_bytes > 0 {
                Ok(Some(state.content_digest()))
            } else {
                Ok(None)
            },
            Err(e) => Err(DiskError(e.to_text())),
        }
    }
}

/// A failed file operation inside the facet, from its cause's text.
pub fn io_facet_err(cause: &str) -> (r: FacetError)
    ensures
        r.0@ == "disk io: "@ + cause@,
{
    FacetError(joined("disk io: ", cause))
}

/// A failed file operation inside a command, from its cause's text.
pub fn io_disk_err(cause: &str) -> (r: DiskError)
    ensures
        r.0@ == "io: "@ + cause@,
{
    DiskError(joined("io: ", cause))
}

/// Bring a finished capture into the committed form and stage its manifest. A commit
/// that then fails discards the whole materialization, so there is nothing to roll
/// back.
pub fn commit_staged_op(
    state: &mut DiskState,
    stage: &mut DiskStage,
    manifest: &DiskManifest,
    replace: bool,
)
    requires
        old(state).wf(),
        manifest_ok(manifest.deep_view()),
    ensures
        final(state).wf(),
        final(state).deep_view() == manifest_applied(
            old(state).deep_view(),
            manifest.deep_view(),
            replace,
        ),
        final(stage).deep_view() == Some(DiskManifest::enc(manifest.deep_view())),
{
    state.apply(manifest, replace);
    stage.manifest = Some(encode_payload(manifest));
}

/// The digests of an image's first `n` blocks, by number.
pub open spec fn digests(blocks: Seq<Seq<u8>>) -> Seq<(u32, Seq<u8>)> {
    Seq::new(blocks.len(), |i: int| (i as u32, blake3_digest(blocks[i])))
}

/// An import under way: the size of the source, and the blocks read so far.
pub struct Importing {
    src_bytes: u64,
    blocks: Vec<(u32, BlobId)>,
    seen: Ghost<Seq<Seq<u8>>>,
}

impl Importing {
    pub closed spec fn wf(&self) -> bool {
        &&& self.src_bytes <= MAX_IMAGE_BYTES
        &&& self.seen@.len() <= blocks_in(self.src_bytes as int)
        &&& self.blocks.deep_view() == digests(self.seen@)
        &&& self.blocks@.len() == self.seen@.len()
    }

    /// The size of the source.
    pub closed spec fn size(&self) -> u64 {
        self.src_bytes
    }

    /// The blocks read so far.
    pub closed spec fn read(&self) -> Seq<Seq<u8>> {
        self.seen@
    }

    /// Begin an import of `src_bytes`, if that is within the bound.
    pub fn new(src_bytes: u64) -> (r: Result<Importing, DiskError>)
        ensures
            match r {
                Ok(run) => src_bytes <= MAX_IMAGE_BYTES && run.wf() && run.size() == src_bytes
                    && run.read() == Seq::<Seq<u8>>::empty(),
                Err(e) => src_bytes > MAX_IMAGE_BYTES && e.0@ == "import of "@ + decimal(
                    src_bytes as nat,
                ) + " bytes exceeds the "@ + decimal(MAX_IMAGE_BYTES as nat) + " bound"@,
            },
    {
        if src_bytes > MAX_IMAGE_BYTES {
            let mut text = "import of ".to_owned();
            push_decimal(&mut text, src_bytes);
            text.append(" bytes exceeds the ");
            push_decimal(&mut text, MAX_IMAGE_BYTES);
            text.append(" bound");
            return Err(DiskError(text));
        }
        let run = Importing { src_bytes, blocks: Vec::new(), seen: Ghost(Seq::<Seq<u8>>::empty()) };
        proof {
            lemma_count_bound(src_bytes as int);
            assert(run.blocks.deep_view() =~= digests(run.seen@));
        }
        Ok(run)
    }

    /// How many bytes to read for the next block, if one is left.
    pub fn next_len(&self) -> (r: Option<usize>)
        requires
            self.wf(),
        ensures
            match r {
                Some(len) => self.read().len() < blocks_in(self.size() as int) && len == length_of(
                    self.size() as int,
                    self.read().len() as int,
                ),
                None => self.read().len() == blocks_in(self.size() as int),
            },
    {
        proof {
            lemma_count_bound(self.src_bytes as int);
        }
        let n: usize = self.blocks.len();
        if n < block_count(self.src_bytes) {
            proof {
                lemma_inside(self.src_bytes as int, n as int);
            }
            Some(block_len(self.src_bytes, n as u32))
        } else {
            None
        }
    }

    /// Note the next block; it is to be stored under its digest.
    pub fn add_block(&mut self, block: &[u8])
        requires
            old(self).wf(),
            old(self).read().len() < blocks_in(old(self).size() as int),
        ensures
            final(self).wf(),
            final(self).size() == old(self).size(),
            final(self).read() == old(self).read().push(block@),
    {
        proof {
            lemma_count_bound(self.src_bytes as int);
        }
        let idx: u32 = self.blocks.len() as u32;
        let id = BlobId::of(block);
        let ghost was = self.blocks.deep_view();
        self.blocks.push((idx, id));
        self.seen = Ghost(self.seen@.push(block@));
        proof {
            assert(self.blocks.deep_view() =~= was.push((idx, id@)));
            assert(self.blocks.deep_view() =~= digests(self.seen@));
        }
    }

    /// The manifest of the whole image, and what was imported.
    pub fn finish(self) -> (r: (DiskManifest, DiskCaptureStats))
        requires
            self.wf(),
            self.read().len() == blocks_in(self.size() as int),
        ensures
            r.0.deep_view() == (DiskManifestModel {
                image_bytes: self.size(),
                block_bytes: BLOCK_BYTES as u32,
                blocks: digests(self.read()),
            }),
            manifest_ok(r.0.deep_view()),
            r.1 == (DiskCaptureStats {
                blocks: self.read().len() as u32,
                bytes: self.size(),
            }),
    {
        proof {
            lemma_count_bound(self.src_bytes as int);
        }
        let stats = DiskCaptureStats { blocks: self.blocks.len() as u32, bytes: self.src_bytes };
        let manifest = DiskManifest {
            image_bytes: self.src_bytes,
            block_bytes: BLOCK_BYTES as u32,
            blocks: self.blocks,
        };
        (manifest, stats)
    }
}

/// The blocks of an image that differ from an index, by number.
pub open spec fn dirty(index: Seq<Option<Seq<u8>>>, blocks: Seq<Seq<u8>>) -> Seq<(u32, Seq<u8>)>
    decreases blocks.len(),
{
    if blocks.len() == 0 {
        seq![]
    } else {
        let n = blocks.len() - 1;
        let before = dirty(index, blocks.drop_last());
        if index[n] == Some(blake3_digest(blocks.last())) {
            before
        } else {
            before.push((n as u32, blake3_digest(blocks.last())))
        }
    }
}

/// The bytes of the blocks that differ from an index.
pub open spec fn dirty_bytes(index: Seq<Option<Seq<u8>>>, blocks: Seq<Seq<u8>>) -> int
    decreases blocks.len(),
{
    if blocks.len() == 0 {
        0
    } else {
        let before = dirty_bytes(index, blocks.drop_last());
        if index[blocks.len() - 1] == Some(blake3_digest(blocks.last())) {
            before
        } else {
            before + blocks.last().len()
        }
    }
}

/// How a capture begins.
pub enum CaptureStart {
    /// Nothing was ever imported: nothing to capture.
    Empty,
    /// Scan the image.
    Scan(Capturing),
}

/// A capture under way: the committed image it is compared with, and what differs so
/// far.
pub struct Capturing {
    image_bytes: u64,
    index: Vec<Option<BlobId>>,
    at: usize,
    blocks: Vec<(u32, BlobId)>,
    bytes: u64,
    seen: Ghost<Seq<Seq<u8>>>,
}

impl Capturing {
    pub closed spec fn wf(&self) -> bool {
        &&& 0 < self.image_bytes <= MAX_IMAGE_BYTES
        &&& self.index@.len() == blocks_in(self.image_bytes as int)
        &&& self.at == self.seen@.len()
        &&& self.at <= self.index@.len()
        &&& self.blocks.deep_view() == dirty(self.index.deep_view(), self.seen@)
        &&& self.bytes == dirty_bytes(self.index.deep_view(), self.seen@)
        &&& self.bytes <= self.at * BLOCK_BYTES
        &&& forall|i: int|
            0 <= i < self.blocks@.len() ==> (#[trigger] self.blocks.deep_view()[i]).0 < self.at
        &&& self.blocks@.len() <= self.at
    }

    pub closed spec fn size(&self) -> u64 {
        self.image_bytes
    }

    pub closed spec fn committed(&self) -> Seq<Option<Seq<u8>>> {
        self.index.deep_view()
    }

    /// The blocks scanned so far.
    pub closed spec fn read(&self) -> Seq<Seq<u8>> {
        self.seen@
    }

    /// Begin a capture of an image whose file has `live` bytes. A block device never
    /// resizes: another length than the committed one is refused.
    pub fn new(state: &DiskState, live: u64) -> (r: Result<CaptureStart, DiskError>)
        requires
            state.wf(),
        ensures
            match r {
                Ok(CaptureStart::Empty) => state.image_bytes == 0,
                Ok(CaptureStart::Scan(run)) => state.image_bytes > 0 && live == state.image_bytes
                    && run.wf() && run.size() == live && run.committed() == state.index.deep_view()
                    && run.read() == Seq::<Seq<u8>>::empty(),
                Err(e) => state.image_bytes > 0 && live != state.image_bytes && e.0@ == "image is "@
                    + decimal(live as nat) + " bytes, committed size is "@ + decimal(
                    state.image_bytes as nat,
                ),
            },
    {
        if state.image_bytes == 0 {
            return Ok(CaptureStart::Empty);
        }
        if live != state.image_bytes {
            let mut text = "image is ".to_owned();
            push_decimal(&mut text, live);
            text.append(" bytes, committed size is ");
            push_decimal(&mut text, state.image_bytes);
            return Err(DiskError(text));
        }
        let ghost all = state.index.deep_view();
        let mut index: Vec<Option<BlobId>> = Vec::new();
        let mut i: usize = 0;
        assert(index.deep_view() =~= all.take(0));
        while i < state.index.len()
            invariant
                i <= state.index@.len(),
                all == state.index.deep_view(),
                index.deep_view() == all.take(i as int),
            decreases state.index@.len() - i,
        {
            let ghost was = index.deep_view();
            index.push(state.index[i]);
            assert(index.deep_view() =~= was.push(all[i as int]));
            i = i + 1;
            assert(index.deep_view() =~= all.take(i as int));
        }
        proof {
            assert(all.take(i as int) =~= all);
            assert(index.deep_view().len() == index@.len());
        }
        let run = Capturing {
            image_bytes: state.image_bytes,
            index,
            at: 0,
            blocks: Vec::new(),
            bytes: 0,
            seen: Ghost(Seq::<Seq<u8>>::empty()),
        };
        assert(run.blocks.deep_view() =~= dirty(run.index.deep_view(), run.seen@));
        Ok(CaptureStart::Scan(run))
    }

    /// How many bytes to read for the next block, if one is left.
    pub fn next_len(&self) -> (r: Option<usize>)
        requires
            self.wf(),
        ensures
            match r {
                Some(len) => self.read().len() < blocks_in(self.size() as int) && len == length_of(
                    self.size() as int,
                    self.read().len() as int,
                ),
                None => self.read().len() == blocks_in(self.size() as int),
            },
    {
        proof {
            lemma_count_bound(self.image_bytes as int);
        }
        if self.at < self.index.len() {
            proof {
                lemma_inside(self.image_bytes as int, self.at as int);
            }
            Some(block_len(self.image_bytes, self.at as u32))
        } else {
            None
        }
    }

    /// Compare the next block with the committed one: whether it differs and must be
    /// stored.
    pub fn add_block(&mut self, block: &[u8]) -> (r: bool)
        requires
            old(self).wf(),
            old(self).read().len() < blocks_in(old(self).size() as int),
            block@.len() <= BLOCK_BYTES,
        ensures
            final(self).wf(),
            final(self).size() == old(self).size(),
            final(self).committed() == old(self).committed(),
            final(self).read() == old(self).read().push(block@),
            r == (old(self).committed()[old(self).read().len() as int] != Some(
                blake3_digest(block@),
            )),
    {
        proof {
            lemma_count_bound(self.image_bytes as int);
        }
        let idx: u32 = self.at as u32;
        let id = BlobId::of(block);
        let ghost was = self.blocks.deep_view();
        let ghost before = self.seen@;
        let ghost next = self.seen@.push(block@);
        let ghost base = self.index.deep_view();
        proof {
            assert(next.drop_last() =~= before);
            assert(next.last() == block@);
        }
        let same: bool = match self.index[self.at] {
            Some(held) => {
                assert(base[self.at as int] == Some(held@));
                held.same(&id)
            },
            None => {
                assert(base[self.at as int] is None);
                false
            },
        };
        assert(same == (base[before.len() as int] == Some(blake3_digest(block@))));
        if !same {
            self.bytes = self.bytes + block.len() as u64;
            self.blocks.push((idx, id));
            assert(self.blocks.deep_view() =~= was.push((idx, id@)));
        }
        self.at = self.at + 1;
        self.seen = Ghost(next);
        proof {
            assert forall|i: int| 0 <= i < self.blocks@.len() implies (
            #[trigger] self.blocks.deep_view()[i]).0 < self.at by {
                if i < was.len() {
                    assert(self.blocks.deep_view()[i] == was[i]);
                }
            }
        }
        !same
    }

    /// The manifest of what differs and its extent; none if nothing does.
    pub fn finish(self) -> (r: (Option<DiskManifest>, DiskCaptureStats))
        requires
            self.wf(),
            self.read().len() == blocks_in(self.size() as int),
        ensures
            ({
                let changed = dirty(self.committed(), self.read());
                &&& r.1 == (DiskCaptureStats {
                    blocks: changed.len() as u32,
                    bytes: dirty_bytes(self.committed(), self.read()) as u64,
                })
                &&& match r.0 {
                    Some(manifest) => changed.len() > 0 && manifest_ok(manifest.deep_view())
                        && manifest.deep_view() == (DiskManifestModel {
                        image_bytes: self.size(),
                        block_bytes: BLOCK_BYTES as u32,
                        blocks: changed,
                    }),
                    None => changed.len() == 0,
                }
            }),
    {
        proof {
            lemma_count_bound(self.image_bytes as int);
            if self.blocks@.len() == 0 {
                lemma_no_dirty_bytes(self.index.deep_view(), self.seen@);
            }
        }
        if self.blocks.len() == 0 {
            return (None, DiskCaptureStats { blocks: 0, bytes: 0 });
        }
        let stats = DiskCaptureStats { blocks: self.blocks.len() as u32, bytes: self.bytes };
        let manifest = DiskManifest {
            image_bytes: self.image_bytes,
            block_bytes: BLOCK_BYTES as u32,
            blocks: self.blocks,
        };
        (Some(manifest), stats)
    }
}

proof fn lemma_no_dirty_bytes(index: Seq<Option<Seq<u8>>>, blocks: Seq<Seq<u8>>)
    requires
        dirty(index, blocks).len() == 0,
    ensures
        dirty_bytes(index, blocks) == 0,
    decreases blocks.len(),
{
    if blocks.len() > 0 {
        lemma_no_dirty_bytes(index, blocks.drop_last());
    }
}

// ---- Laws ----

proof fn lemma_dirty(index: Seq<Option<Seq<u8>>>, blocks: Seq<Seq<u8>>)
    requires
        blocks.len() <= index.len(),
        index.len() <= 16384,
    ensures
        forall|i: int| 0 <= i < dirty(index, blocks).len() ==> (#[trigger] dirty(
            index,
            blocks,
        )[i]).0 < blocks.len(),
        entered(index, dirty(index, blocks)).len() == index.len(),
        forall|k: int|
            0 <= k < index.len() ==> #[trigger] entered(index, dirty(index, blocks))[k] == if k
                < blocks.len() {
                Some(blake3_digest(blocks[k]))
            } else {
                index[k]
            },
    decreases blocks.len(),
{
    if blocks.len() > 0 {
        let front = blocks.drop_last();
        lemma_dirty(index, front);
        let n = front.len() as int;
        let before = dirty(index, front);
        let all = dirty(index, blocks);
        if index[n] != Some(blake3_digest(blocks.last())) {
            assert(all.drop_last() =~= before);
            assert(all.last() == (n as u32, blake3_digest(blocks.last())));
            assert forall|i: int| 0 <= i < all.len() implies (#[trigger] all[i]).0
                < blocks.len() by {
                if i < before.len() {
                    assert(all[i] == before[i]);
                }
            }
        } else {
            assert(all == before);
            assert(entered(index, before)[n] == index[n]);
        }
    }
}

/// A committed capture records the image exactly: the index then holds the digest of
/// every block of the image as it was scanned.
pub proof fn law_a_capture_records_the_image(d: DiskModel, blocks: Seq<Seq<u8>>)
    requires
        d.image_bytes <= MAX_IMAGE_BYTES,
        d.index.len() == blocks_in(d.image_bytes as int),
        blocks.len() == d.index.len(),
    ensures
        ({
            let m = DiskManifestModel {
                image_bytes: d.image_bytes,
                block_bytes: BLOCK_BYTES as u32,
                blocks: dirty(d.index, blocks),
            };
            manifest_applied(d, m, false).index == blocks.map_values(
                |b: Seq<u8>| Some(blake3_digest(b)),
            )
        }),
{
    lemma_count_bound(d.image_bytes as int);
    lemma_dirty(d.index, blocks);
    let n = blocks_in(d.image_bytes as int);
    assert(resized(d.index, n) =~= d.index);
    assert(entered(d.index, dirty(d.index, blocks)) =~= blocks.map_values(
        |b: Seq<u8>| Some(blake3_digest(b)),
    ));
}

proof fn lemma_digests_entered(index: Seq<Option<Seq<u8>>>, blocks: Seq<Seq<u8>>)
    requires
        blocks.len() == index.len(),
        index.len() <= 16384,
    ensures
        entered(index, digests(blocks)) == blocks.map_values(|b: Seq<u8>| Some(blake3_digest(b))),
{
    let list = digests(blocks);
    lemma_entered(index, list);
    assert forall|k: int| 0 <= k < index.len() implies entered(index, list)[k] == Some(
        blake3_digest(blocks[k]),
    ) by {
        assert(list[k].0 == k);
    }
    assert(entered(index, list) =~= blocks.map_values(|b: Seq<u8>| Some(blake3_digest(b))));
}

/// An import records the image exactly, and it makes no difference to the size and
/// the index whether its manifest replaces an earlier image (the live path) or is
/// replayed over it: the two paths cannot drift apart.
pub proof fn law_an_import_records_the_image(d: DiskModel, image_bytes: u64, blocks: Seq<Seq<u8>>)
    requires
        image_bytes <= MAX_IMAGE_BYTES,
        blocks.len() == blocks_in(image_bytes as int),
    ensures
        ({
            let m = DiskManifestModel {
                image_bytes,
                block_bytes: BLOCK_BYTES as u32,
                blocks: digests(blocks),
            };
            &&& manifest_applied(d, m, true).index == blocks.map_values(
                |b: Seq<u8>| Some(blake3_digest(b)),
            )
            &&& manifest_applied(d, m, false) == manifest_applied(d, m, true)
        }),
{
    lemma_count_bound(image_bytes as int);
    let n = blocks_in(image_bytes as int);
    lemma_digests_entered(resized(d.index, n), blocks);
    lemma_digests_entered(resized(seq![], n), blocks);
}

proof fn lemma_covered(index: Seq<Option<Seq<u8>>>, n: int)
    requires
        0 <= n <= index.len(),
        index.len() <= 16384,
    ensures
        forall|i: int| 0 <= i < covered(index, n).len() ==> (#[trigger] covered(index, n)[i]).0 < n,
        entered(resized(seq![], index.len() as int), covered(index, n)).len() == index.len(),
        forall|k: int|
            0 <= k < index.len() ==> #[trigger] entered(
                resized(seq![], index.len() as int),
                covered(index, n),
            )[k] == if k < n {
                index[k]
            } else {
                None
            },
    decreases n,
{
    let blank = resized(seq![], index.len() as int);
    if n > 0 {
        lemma_covered(index, n - 1);
        let before = covered(index, n - 1);
        let all = covered(index, n);
        match index[n - 1] {
            Some(id) => {
                assert(all.drop_last() =~= before);
                assert(all.last() == ((n - 1) as u32, id));
                assert forall|i: int| 0 <= i < all.len() implies (#[trigger] all[i]).0 < n by {
                    if i < before.len() {
                        assert(all[i] == before[i]);
                    }
                }
            },
            None => {
                assert(all == before);
                assert(entered(blank, before)[n - 1] is None);
            },
        }
    }
}

/// A checkpoint reproduces the committed image: materialized over nothing, its
/// manifest gives the same size and the same index, and so the same content
/// identifier.
pub proof fn law_a_checkpoint_reproduces_the_image(d: DiskModel)
    requires
        d.image_bytes <= MAX_IMAGE_BYTES,
        d.index.len() == blocks_in(d.image_bytes as int),
    ensures
        manifest_ok(full_manifest(d)),
        manifest_applied(no_image(), full_manifest(d), false).image_bytes == d.image_bytes,
        manifest_applied(no_image(), full_manifest(d), false).index == d.index,
        full_manifest(manifest_applied(no_image(), full_manifest(d), false)) == full_manifest(d),
{
    lemma_count_bound(d.image_bytes as int);
    let n = d.index.len() as int;
    lemma_covered(d.index, n);
    let after = manifest_applied(no_image(), full_manifest(d), false);
    assert(after.index =~= d.index);
}

/// A checkpoint's contribution restores to the manifest it was written from.
pub proof fn law_snapshot_round_trips(d: DiskModel)
    requires
        d.image_bytes <= MAX_IMAGE_BYTES,
        d.index.len() == blocks_in(d.image_bytes as int),
        DiskManifest::fits(full_manifest(d)),
    ensures
        Disk::restored(Some(DiskManifest::enc(full_manifest(d)))) == Ok::<
            Option<DiskModel>,
            Seq<char>,
        >(Some(DiskModel { pending: seq![full_manifest(d)], ..no_image() })),
{
    law_a_checkpoint_reproduces_the_image(d);
    lemma_decoded::<DiskManifest>(full_manifest(d));
    lemma_refusal(full_manifest(d));
}

/// The blobs kept alive only grow while manifests are applied, and every block that
/// the index then refers to by the manifest is among them.
pub proof fn law_applied_blocks_are_rooted(
    d: DiskModel,
    m: DiskManifestModel,
    replace: bool,
    i: int,
)
    requires
        0 <= i < m.blocks.len(),
    ensures
        d.roots.subset_of(manifest_applied(d, m, replace).roots),
        manifest_applied(d, m, replace).roots.contains(m.blocks[i].1),
{
    let ids = m.blocks.map_values(|b: (u32, Seq<u8>)| b.1);
    assert(ids[i] == m.blocks[i].1);
    assert(ids.contains(m.blocks[i].1));
}

/// Blocks are a mebibyte each, but for the last, which ends with the image: together they
/// cover it exactly.
pub proof fn law_blocks_cover_the_image(image_bytes: int, idx: int)
    requires
        0 <= image_bytes,
        0 <= idx < blocks_in(image_bytes),
    ensures
        idx < blocks_in(image_bytes) - 1 ==> length_of(image_bytes, idx) == 1048576,
        0 < length_of(image_bytes, idx) <= 1048576,
        idx * 1048576 + length_of(image_bytes, idx) <= image_bytes,
        idx == blocks_in(image_bytes) - 1 ==> idx * 1048576 + length_of(image_bytes, idx)
            == image_bytes,
        blocks_in(0) == 0,
{
}

/// A capture names exactly the blocks that differ from the committed ones, each by its
/// number and its digest, and counts their bytes.
pub proof fn law_a_capture_names_what_changed(
    index: Seq<Option<Seq<u8>>>,
    blocks: Seq<Seq<u8>>,
    block: Seq<u8>,
)
    requires
        blocks.len() < index.len() <= 16384,
    ensures
        dirty(index, seq![]).len() == 0,
        dirty_bytes(index, seq![]) == 0,
        ({
            let n = blocks.len() as int;
            let changed = index[n] != Some(blake3_digest(block));
            &&& changed ==> dirty(index, blocks.push(block)) == dirty(index, blocks).push(
                (n as u32, blake3_digest(block)),
            ) && dirty_bytes(index, blocks.push(block)) == dirty_bytes(index, blocks) + block.len()
            &&& !changed ==> dirty(index, blocks.push(block)) == dirty(index, blocks)
                && dirty_bytes(index, blocks.push(block)) == dirty_bytes(index, blocks)
        }),
{
    assert(blocks.push(block).drop_last() =~= blocks);
}

/// An import names every block of its source, in order, by its digest.
pub proof fn law_an_import_names_every_block(blocks: Seq<Seq<u8>>, i: int)
    requires
        0 <= i < blocks.len() <= 16384,
    ensures
        digests(blocks).len() == blocks.len(),
        digests(blocks)[i] == (i as u32, blake3_digest(blocks[i])),
{
}

/// A manifest sets the image's size, and each block it names is found in the index under
/// its number; what it does not name stays, unless the image is replaced or cut.
pub proof fn law_a_manifest_amends_the_index(
    d: DiskModel,
    m: DiskManifestModel,
    replace: bool,
    k: int,
)
    requires
        manifest_ok(m),
        0 <= k < blocks_in(m.image_bytes as int),
        forall|i: int| 0 <= i < m.blocks.len() ==> (#[trigger] m.blocks[i]).0 != k,
    ensures
        ({
            let after = manifest_applied(d, m, replace);
            &&& after.image_bytes == m.image_bytes
            &&& after.pending == d.pending
            &&& after.index.len() == blocks_in(m.image_bytes as int)
            &&& replace || k >= d.index.len() ==> after.index[k] is None
            &&& !replace && k < d.index.len() ==> after.index[k] == d.index[k]
        }),
{
    let base = resized(
        if replace {
            seq![]
        } else {
            d.index
        },
        blocks_in(m.image_bytes as int),
    );
    lemma_entered(base, m.blocks);
}

/// A block that a manifest names last is the one that its number leads to.
pub proof fn law_a_named_block_is_found(
    d: DiskModel,
    m: DiskManifestModel,
    replace: bool,
    i: int,
)
    requires
        manifest_ok(m),
        0 <= i < m.blocks.len(),
        forall|j: int| i < j < m.blocks.len() ==> (#[trigger] m.blocks[j]).0 != m.blocks[i].0,
    ensures
        manifest_applied(d, m, replace).index[m.blocks[i].0 as int] == Some(m.blocks[i].1),
{
    let base = resized(
        if replace {
            seq![]
        } else {
            d.index
        },
        blocks_in(m.image_bytes as int),
    );
    lemma_entered(base, m.blocks);
}

/// A manifest is refused exactly if its blocks are of another size, its image is beyond
/// sixteen gibibytes, or one of its blocks begins beyond the image.
pub proof fn law_a_manifest_out_of_bounds_is_refused(m: DiskManifestModel)
    ensures
        manifest_refusal(m) is None <==> m.block_bytes == 1048576 && m.image_bytes <= 17179869184
            && forall|i: int|
            0 <= i < m.blocks.len() ==> (#[trigger] m.blocks[i]).0 * 1048576 < m.image_bytes,
{
    lemma_refusal(m);
    assert forall|i: int| 0 <= i < m.blocks.len() implies ((#[trigger] m.blocks[i]).0 < blocks_in(
        m.image_bytes as int,
    ) <==> m.blocks[i].0 * 1048576 < m.image_bytes) by {
        lemma_inside(m.image_bytes as int, m.blocks[i].0 as int);
    }
}

/// The facet: its image is a materialization that a failed commit discards; a command
/// begins only over an image whose file is there; a captured manifest is its one record,
/// and a replayed one waits, behind those before it, until its blocks are fetched.
pub proof fn law_the_image_is_rebuilt_from_its_manifests(
    d: DiskModel,
    m: DiskManifestModel,
    bytes: Seq<u8>,
    present: bool,
)
    ensures
        Disk::tag() == 6,
        Disk::physical(),
        Disk::empty_form() is None,
        Disk::discarded(Some(d)) is None,
        Disk::rooted(Some(d)) == d.roots,
        Disk::begin_refusal(None, present) is Some,
        Disk::begin_refusal(Some(d), present) is Some <==> d.image_bytes > 0 && !present,
        Disk::drained(None).len() == 0,
        Disk::drained(Some(bytes)) == seq![bytes],
        DiskManifest::fits(m) ==> Disk::folded(Some(d), DiskManifest::enc(m)) == Ok::<
            Option<DiskModel>,
            Seq<char>,
        >(Some(DiskModel { pending: d.pending.push(m), ..d })),
        DiskManifest::fits(m) ==> Disk::folded(None, DiskManifest::enc(m)) is Err,
        Disk::restored(None) == Ok::<Option<DiskModel>, Seq<char>>(
            Some(
                DiskModel {
                    image_bytes: 0,
                    index: seq![],
                    roots: Set::empty(),
                    pending: seq![],
                },
            ),
        ),
{
    if DiskManifest::fits(m) {
        lemma_decoded::<DiskManifest>(m);
    }
}

/// A manifest's record: the image's size, the blocks' size, and each block's number and id.
pub proof fn law_manifests_are_laid_out(m: DiskManifestModel)
    ensures
        DiskManifest::enc(m) == u64::enc(m.image_bytes) + (u32::enc(m.block_bytes) + <Vec<
            (u32, BlobId),
        > as Wire>::enc(m.blocks)),
{
}

/// Every record of the image can be folded into whatever image.
pub proof fn law_every_record_can_be_folded(form: Option<DiskModel>, payload: Seq<u8>)
    ensures
        Disk::fold_ok(form, payload),
        Disk::always_ok(payload),
{
}

/// A form stands for its image, a stage for its manifest, and an image for its size, its
/// index, its blobs and the manifests that wait for it.
pub proof fn law_views_of_the_image_leave_nothing_out(
    state: DiskState,
    stage: DiskStage,
    bytes: Vec<u8>,
)
    ensures
        DiskForm(Some(state)).deep_view() == Some(state.deep_view()),
        DiskForm(None).deep_view() is None,
        (DiskStage { manifest: Some(bytes) }).deep_view() == Some(bytes@),
        (DiskStage { manifest: None }).deep_view() is None,
        state.deep_view().image_bytes == state.image_bytes,
        state.deep_view().index == state.index.deep_view(),
        state.deep_view().roots == state.roots@,
        state.deep_view().pending == state.pending.deep_view(),
{
}

} // verus!
