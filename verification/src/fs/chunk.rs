//! The data path: a write becomes content blocks, and a read is assembled from
//! the shadowing slices.
//!
//! Nothing here touches the blob area. A write hands back the chunks to store
//! before its slice is journaled; a read hands back what to fetch and puts the
//! fetched bytes together.
use vstd::prelude::*;

use crate::blobs::blake3_digest;
use crate::blobs::BlobId;
use crate::fs::meta::Block;
use crate::fs::meta::BlockModel;
use crate::fs::meta::FileData;
use crate::fs::meta::FileModel;
use crate::fs::meta::Slice;
use crate::fs::meta::SliceModel;
use crate::fs::meta::BLOCK_BYTES;
use crate::fs::op::end_of;

verus! {

// ---- Writing ----

/// A byte string cut into chunks of `size` bytes, the last one possibly shorter.
pub open spec fn chunks(content: Seq<u8>, size: int) -> Seq<Seq<u8>>
    decreases content.len(),
{
    if content.len() == 0 || size <= 0 {
        seq![]
    } else if content.len() <= size {
        seq![content]
    } else {
        seq![content.take(size)] + chunks(content.skip(size), size)
    }
}

/// The block that a stored chunk becomes.
pub open spec fn block_for(chunk: Seq<u8>) -> BlockModel {
    BlockModel { id: blake3_digest(chunk), len: chunk.len() as u32 }
}

/// The slice that a write of `content` at `off` becomes.
pub open spec fn slice_for(seq: u64, off: u64, content: Seq<u8>) -> SliceModel {
    SliceModel {
        seq,
        off,
        len: content.len() as u64,
        blocks: chunks(content, BLOCK_BYTES as int).map_values(|c: Seq<u8>| block_for(c)),
    }
}

/// Cut `content` into blocks: the slice that describes the write, and the chunks
/// to store, in order. The chunks must be durable before the slice is journaled.
pub fn write_slice(seq: u64, off: u64, content: &[u8]) -> (r: (Slice, Vec<Vec<u8>>))
    ensures
        r.0.deep_view() == slice_for(seq, off, content@),
        r.1.deep_view() == chunks(content@, BLOCK_BYTES as int),
{
    let mut blocks: Vec<Block> = Vec::new();
    let mut parts: Vec<Vec<u8>> = Vec::new();
    let mut at: usize = 0;
    let ghost all = content@;
    let ghost size = BLOCK_BYTES as int;
    let ghost f = |c: Seq<u8>| block_for(c);
    proof {
        assert(all.skip(0) =~= all);
        assert(parts.deep_view() + chunks(all, size) =~= chunks(all, size));
        assert(blocks.deep_view() =~= parts.deep_view().map_values(f));
    }
    while at < content.len()
        invariant
            at <= content@.len(),
            all == content@,
            size == BLOCK_BYTES,
            f == (|c: Seq<u8>| block_for(c)),
            chunks(all, size) == parts.deep_view() + chunks(all.skip(at as int), size),
            blocks.deep_view() == parts.deep_view().map_values(f),
        decreases content@.len() - at,
    {
        let rest: usize = content.len() - at;
        let len: usize = if rest <= BLOCK_BYTES {
            rest
        } else {
            BLOCK_BYTES
        };
        let chunk = vstd::slice::slice_subrange(content, at, at + len);
        let ghost tail = all.skip(at as int);
        let ghost done = parts.deep_view();
        let block = Block { id: BlobId::of(chunk), len: len as u32 };
        let part = vstd::slice::slice_to_vec(chunk);
        assert(part.deep_view() =~= chunk@);
        let ghost was = blocks.deep_view();
        blocks.push(block);
        parts.push(part);
        proof {
            assert(parts.deep_view() =~= done.push(chunk@));
            assert(block.deep_view() == block_for(chunk@));
            assert(blocks.deep_view() =~= was.push(block_for(chunk@)));
            assert(blocks.deep_view() =~= parts.deep_view().map_values(f));
            assert(all.skip(at + len) =~= tail.skip(len as int));
            if rest <= BLOCK_BYTES {
                assert(chunk@ =~= tail);
                assert(tail.skip(len as int) =~= seq![]);
                assert(chunks(tail.skip(len as int), size) =~= seq![]);
                assert(chunks(tail, size) =~= seq![chunk@]);
            } else {
                assert(chunk@ =~= tail.take(size));
            }
            assert(done + chunks(tail, size) =~= done.push(chunk@) + chunks(
                tail.skip(len as int),
                size,
            ));
        }
        at = at + len;
    }
    proof {
        assert(all.skip(at as int) =~= seq![]);
        assert(chunks(all.skip(at as int), size) =~= seq![]);
        assert(parts.deep_view() + Seq::<Seq<u8>>::empty() =~= parts.deep_view());
    }
    (Slice { seq, off, len: content.len() as u64, blocks }, parts)
}

// ---- Reading ----

/// One range of one blob.
#[derive(Clone, Copy, Debug, PartialEq, Eq)]
pub struct Fetch {
    pub id: BlobId,
    pub lo: u64,
    pub hi: u64,
}

/// What one slice contributes to a read: the ranges to fetch, whose bytes follow
/// each other from `dst` on.
#[derive(Clone, Debug, PartialEq, Eq)]
pub struct Piece {
    pub dst: u64,
    pub fetches: Vec<Fetch>,
}

/// A read before its bytes are fetched: how long it is, and its pieces in the
/// order to lay them down.
#[derive(Clone, Debug, PartialEq, Eq)]
pub struct ReadPlan {
    pub len: u64,
    pub pieces: Vec<Piece>,
}

pub struct FetchModel {
    pub id: Seq<u8>,
    pub lo: int,
    pub hi: int,
}

#[verifier::ext_equal]
pub struct PieceModel {
    pub dst: int,
    pub fetches: Seq<FetchModel>,
}

impl DeepView for Fetch {
    type V = FetchModel;

    open spec fn deep_view(&self) -> FetchModel {
        FetchModel { id: self.id@, lo: self.lo as int, hi: self.hi as int }
    }
}

impl DeepView for Piece {
    type V = PieceModel;

    open spec fn deep_view(&self) -> PieceModel {
        PieceModel { dst: self.dst as int, fetches: self.fetches.deep_view() }
    }
}

/// Put a slice behind all that were written no later.
pub open spec fn placed(sorted: Seq<SliceModel>, s: SliceModel) -> Seq<SliceModel>
    decreases sorted.len(),
{
    if sorted.len() == 0 || sorted.last().seq <= s.seq {
        sorted.push(s)
    } else {
        placed(sorted.drop_last(), s).push(sorted.last())
    }
}

/// The slices by birth order; slices of equal order keep their places.
pub open spec fn by_seq(slices: Seq<SliceModel>) -> Seq<SliceModel>
    decreases slices.len(),
{
    if slices.len() == 0 {
        seq![]
    } else {
        placed(by_seq(slices.drop_last()), slices.last())
    }
}

pub open spec fn larger(a: int, b: int) -> int {
    if a >= b {
        a
    } else {
        b
    }
}

pub open spec fn smaller(a: int, b: int) -> int {
    if a <= b {
        a
    } else {
        b
    }
}

/// The ranges that hold the bytes `[off, end)` of a run of blocks whose first one
/// begins at `pos`.
pub open spec fn wanted(blocks: Seq<BlockModel>, pos: int, off: int, end: int) -> Seq<FetchModel>
    decreases blocks.len(),
{
    if blocks.len() == 0 {
        seq![]
    } else {
        let next = pos + blocks[0].len;
        let rest = wanted(blocks.skip(1), next, off, end);
        if next <= off || pos >= end {
            rest
        } else {
            seq![
                FetchModel {
                    id: blocks[0].id,
                    lo: larger(off, pos) - pos,
                    hi: smaller(end, next) - pos,
                },
            ] + rest
        }
    }
}

/// What a slice contributes to a read of `[start, end)`.
pub open spec fn piece_of(s: SliceModel, start: int, end: int) -> Option<PieceModel> {
    let lo = larger(s.off as int, start);
    let hi = smaller(end_of(s), end);
    if lo >= hi {
        None
    } else {
        Some(PieceModel { dst: lo - start, fetches: wanted(s.blocks, 0, lo - s.off, hi - s.off) })
    }
}

/// How long a read of `[start, end)` is: it stops at the file's size.
pub open spec fn read_len(file: FileModel, start: int, end: int) -> int {
    larger(smaller(end, file.size as int) - start, 0)
}

/// The pieces of a read of `[start, end)`.
pub open spec fn read_pieces(file: FileModel, start: int, end: int) -> Seq<PieceModel> {
    let stop = smaller(end, file.size as int);
    if start >= stop {
        seq![]
    } else {
        by_seq(file.slices).filter_map(|s: SliceModel| piece_of(s, start, stop))
    }
}

/// The views of a list of borrowed slices.
spec fn models(v: Seq<&Slice>) -> Seq<SliceModel> {
    Seq::new(v.len(), |i: int| v[i].deep_view())
}

proof fn lemma_placed_at(sorted: Seq<SliceModel>, s: SliceModel, at: int)
    requires
        0 <= at <= sorted.len(),
        at > 0 ==> sorted[at - 1].seq <= s.seq,
        forall|i: int| at <= i < sorted.len() ==> (#[trigger] sorted[i]).seq > s.seq,
    ensures
        placed(sorted, s) == sorted.insert(at, s),
    decreases sorted.len(),
{
    if at == sorted.len() {
        assert(sorted.insert(at, s) =~= sorted.push(s));
    } else {
        assert(sorted.last().seq > s.seq);
        lemma_placed_at(sorted.drop_last(), s, at);
        assert(sorted.insert(at, s) =~= sorted.drop_last().insert(at, s).push(sorted.last()));
    }
}

/// The slices by birth order.
fn order_slices(slices: &Vec<Slice>) -> (r: Vec<&Slice>)
    ensures
        models(r@) == by_seq(slices.deep_view()),
{
    let mut out: Vec<&Slice> = Vec::new();
    let ghost all = slices.deep_view();
    let mut i: usize = 0;
    assert(models(out@) =~= by_seq(all.take(0)));
    while i < slices.len()
        invariant
            i <= slices@.len(),
            all == slices.deep_view(),
            models(out@) == by_seq(all.take(i as int)),
        decreases slices@.len() - i,
    {
        let slice = &slices[i];
        let ghost s = slice.deep_view();
        let ghost sorted = models(out@);
        let mut at: usize = out.len();
        while at > 0 && out[at - 1].seq > slice.seq
            invariant
                at <= out@.len(),
                sorted == models(out@),
                s == slice.deep_view(),
                forall|j: int| at <= j < sorted.len() ==> (#[trigger] sorted[j]).seq > s.seq,
            decreases at,
        {
            assert(sorted[at - 1] == out@[at - 1].deep_view());
            at = at - 1;
        }
        proof {
            if at > 0 {
                assert(sorted[at - 1] == out@[at - 1].deep_view());
            }
            lemma_placed_at(sorted, s, at as int);
            assert(all.take(i + 1).drop_last() =~= all.take(i as int));
            assert(all.take(i + 1).last() == s);
        }
        out.insert(at, slice);
        assert(models(out@) =~= sorted.insert(at as int, s));
        i = i + 1;
    }
    assert(all.take(i as int) =~= all);
    out
}

/// The ranges that hold the bytes `[off, end)` of a slice's blocks.
fn slice_fetches(slice: &Slice, off: u64, end: u64) -> (r: Vec<Fetch>)
    requires
        off < end,
    ensures
        r.deep_view() == wanted(slice.deep_view().blocks, 0, off as int, end as int),
{
    let ghost all = slice.blocks.deep_view();
    let mut out: Vec<Fetch> = Vec::new();
    let mut pos: u64 = 0;
    let mut i: usize = 0;
    assert(all.skip(0) =~= all);
    assert(out.deep_view() + wanted(all, 0, off as int, end as int) =~= wanted(
        all,
        0,
        off as int,
        end as int,
    ));
    while i < slice.blocks.len() && pos < end
        invariant
            i <= slice.blocks@.len(),
            all == slice.blocks.deep_view(),
            off < end,
            pos <= end + u32::MAX,
            wanted(all, 0, off as int, end as int) == out.deep_view() + wanted(
                all.skip(i as int),
                pos as int,
                off as int,
                end as int,
            ),
        decreases slice.blocks@.len() - i,
    {
        let len: u64 = slice.blocks[i].len as u64;
        let ghost rest = all.skip(i as int);
        let ghost was = out.deep_view();
        proof {
            assert(rest[0] == slice.blocks@[i as int].deep_view());
            assert(rest.skip(1) =~= all.skip(i + 1));
        }
        // The block ends at or past `end` exactly when its length reaches there.
        let last: bool = len >= end - pos;
        if !last && pos + len <= off {
            pos = pos + len;
        } else {
            let lo: u64 = if off >= pos {
                off - pos
            } else {
                0
            };
            let hi: u64 = if last {
                end - pos
            } else {
                len
            };
            let fetch = Fetch { id: slice.blocks[i].id, lo, hi };
            out.push(fetch);
            proof {
                assert(out.deep_view() =~= was.push(fetch.deep_view()));
                let next = pos + rest[0].len;
                assert(wanted(rest, pos as int, off as int, end as int) == seq![fetch.deep_view()]
                    + wanted(rest.skip(1), next as int, off as int, end as int));
                assert(was + wanted(rest, pos as int, off as int, end as int) =~= out.deep_view()
                    + wanted(rest.skip(1), next as int, off as int, end as int));
                if last {
                    lemma_nothing_beyond(all.skip(i + 1), next as int, off as int, end as int);
                    lemma_nothing_beyond(all.skip(i + 1), end as int, off as int, end as int);
                }
            }
            pos = if last {
                end
            } else {
                pos + len
            };
        }
        i = i + 1;
    }
    proof {
        if i < slice.blocks@.len() {
            lemma_nothing_beyond(all.skip(i as int), pos as int, off as int, end as int);
        }
        assert(wanted(all.skip(i as int), pos as int, off as int, end as int) =~= seq![]);
        assert(out.deep_view() + Seq::<FetchModel>::empty() =~= out.deep_view());
    }
    out
}

/// Blocks from `end` on hold nothing of what comes before it.
proof fn lemma_nothing_beyond(blocks: Seq<BlockModel>, pos: int, off: int, end: int)
    requires
        pos >= end,
    ensures
        wanted(blocks, pos, off, end) == Seq::<FetchModel>::empty(),
    decreases blocks.len(),
{
    if blocks.len() > 0 {
        lemma_nothing_beyond(blocks.skip(1), pos + blocks[0].len, off, end);
    }
}

/// What a read of `[start, end)` must fetch, clamped to the file's size. A later
/// write is laid over an earlier one; what no slice covers stays zero.
pub fn read_file(file: &FileData, start: u64, end: u64) -> (r: ReadPlan)
    ensures
        r.len == read_len(file.deep_view(), start as int, end as int),
        r.pieces.deep_view() == read_pieces(file.deep_view(), start as int, end as int),
{
    let stop: u64 = if end <= file.size {
        end
    } else {
        file.size
    };
    let mut pieces: Vec<Piece> = Vec::new();
    if start >= stop {
        assert(pieces.deep_view() =~= seq![]);
        return ReadPlan { len: 0, pieces };
    }
    let order = order_slices(&file.slices);
    let ghost sorted = models(order@);
    let ghost f = |s: SliceModel| piece_of(s, start as int, stop as int);
    let mut i: usize = 0;
    assert(pieces.deep_view() =~= sorted.take(0).filter_map(f));
    while i < order.len()
        invariant
            start < stop,
            i <= order@.len(),
            sorted == models(order@),
            f == (|s: SliceModel| piece_of(s, start as int, stop as int)),
            pieces.deep_view() == sorted.take(i as int).filter_map(f),
        decreases order@.len() - i,
    {
        let slice = order[i];
        let ghost s = slice.deep_view();
        proof {
            assert(sorted[i as int] == s);
            assert(sorted.take(i + 1).drop_last() =~= sorted.take(i as int));
            assert(sorted.take(i + 1).last() == s);
            assert(f(s) == piece_of(s, start as int, stop as int));
        }
        let lo: u64 = if slice.off >= start {
            slice.off
        } else {
            start
        };
        let far: u128 = slice.off as u128 + slice.len as u128;
        let hi: u64 = if far <= stop as u128 {
            far as u64
        } else {
            stop
        };
        if lo < hi {
            let fetches = slice_fetches(slice, lo - slice.off, hi - slice.off);
            let piece = Piece { dst: lo - start, fetches };
            let ghost was = pieces.deep_view();
            pieces.push(piece);
            proof {
                assert(Some(piece.deep_view()) == piece_of(s, start as int, stop as int));
                assert(pieces.deep_view() =~= was.push(piece.deep_view()));
                assert(was + seq![piece.deep_view()] =~= was.push(piece.deep_view()));
            }
        }
        i = i + 1;
    }
    assert(sorted.take(i as int) =~= sorted);
    ReadPlan { len: stop - start, pieces }
}

/// Lay `bytes` over `out` from `dst` on.
pub open spec fn overlaid(out: Seq<u8>, dst: int, bytes: Seq<u8>) -> Seq<u8> {
    Seq::new(
        out.len(),
        |i: int|
            if dst <= i < dst + bytes.len() {
                bytes[i - dst]
            } else {
                out[i]
            },
    )
}

/// Lay each piece's fetched bytes over what came before, on zeros.
pub open spec fn painted(len: int, dsts: Seq<int>, bytes: Seq<Seq<u8>>) -> Seq<u8>
    decreases dsts.len(),
{
    if dsts.len() == 0 || bytes.len() != dsts.len() {
        Seq::new(len as nat, |i: int| 0u8)
    } else {
        overlaid(painted(len, dsts.drop_last(), bytes.drop_last()), dsts.last(), bytes.last())
    }
}

/// The ranges a piece fetched, one after the other.
pub open spec fn concat(parts: Seq<Seq<u8>>) -> Seq<u8>
    decreases parts.len(),
{
    if parts.len() == 0 {
        seq![]
    } else {
        concat(parts.drop_last()) + parts.last()
    }
}

/// One byte string after the other.
pub fn concat_all(parts: &Vec<Vec<u8>>) -> (r: Vec<u8>)
    ensures
        r@ == concat(parts.deep_view()),
{
    let mut out: Vec<u8> = Vec::new();
    let ghost all = parts.deep_view();
    let mut i: usize = 0;
    assert(out@ =~= concat(all.take(0)));
    while i < parts.len()
        invariant
            i <= parts@.len(),
            all == parts.deep_view(),
            out@ == concat(all.take(i as int)),
        decreases parts@.len() - i,
    {
        let ghost was = out@;
        let part = &parts[i];
        let mut j: usize = 0;
        assert(was + part@.take(0) =~= was);
        while j < part.len()
            invariant
                j <= part@.len(),
                out@ == was + part@.take(j as int),
            decreases part@.len() - j,
        {
            out.push(part[j]);
            j = j + 1;
            assert(out@ =~= was + part@.take(j as int));
        }
        proof {
            assert(part@.take(j as int) =~= part@);
            assert(all[i as int] =~= part@);
            assert(all.take(i + 1).drop_last() =~= all.take(i as int));
        }
        i = i + 1;
    }
    assert(all.take(i as int) =~= all);
    out
}

/// The positions of a plan's pieces.
pub open spec fn dsts_of(pieces: Seq<PieceModel>) -> Seq<int> {
    pieces.map_values(|p: PieceModel| p.dst)
}

/// Put a read together from the bytes fetched for each piece (those of one piece
/// already one after the other). Each fits behind its position.
pub fn assemble(plan: &ReadPlan, fetched: &Vec<Vec<u8>>) -> (r: Vec<u8>)
    requires
        plan.len <= usize::MAX,
        fetched@.len() == plan.pieces@.len(),
        forall|i: int|
            0 <= i < fetched@.len() ==> plan.pieces@[i].dst + (#[trigger] fetched@[i])@.len()
                <= plan.len,
    ensures
        r@ == painted(plan.len as int, dsts_of(plan.pieces.deep_view()), fetched.deep_view()),
{
    let len: usize = plan.len as usize;
    let mut out: Vec<u8> = Vec::new();
    while out.len() < len
        invariant
            out@.len() <= len,
            forall|i: int| 0 <= i < out@.len() ==> out@[i] == 0,
        decreases len - out@.len(),
    {
        out.push(0u8);
    }
    let ghost dsts = dsts_of(plan.pieces.deep_view());
    let ghost all = fetched.deep_view();
    let mut i: usize = 0;
    assert(out@ =~= painted(plan.len as int, dsts.take(0), all.take(0)));
    while i < fetched.len()
        invariant
            i <= fetched@.len(),
            len == plan.len,
            fetched@.len() == plan.pieces@.len(),
            forall|k: int|
                0 <= k < fetched@.len() ==> plan.pieces@[k].dst + (#[trigger] fetched@[k])@.len()
                    <= plan.len,
            dsts == dsts_of(plan.pieces.deep_view()),
            all == fetched.deep_view(),
            out@.len() == len,
            out@ == painted(plan.len as int, dsts.take(i as int), all.take(i as int)),
        decreases fetched@.len() - i,
    {
        let dst: usize = plan.pieces[i].dst as usize;
        let bytes = &fetched[i];
        let ghost was = out@;
        let mut j: usize = 0;
        assert(out@ =~= overlaid(was, dst as int, bytes@.take(0)));
        while j < bytes.len()
            invariant
                j <= bytes@.len(),
                out@.len() == len,
                was.len() == len,
                dst + bytes@.len() <= len,
                out@ == overlaid(was, dst as int, bytes@.take(j as int)),
            decreases bytes@.len() - j,
        {
            out[dst + j] = bytes[j];
            j = j + 1;
            assert(out@ =~= overlaid(was, dst as int, bytes@.take(j as int)));
        }
        proof {
            assert(bytes@.take(j as int) =~= bytes@);
            assert(all[i as int] =~= bytes@);
            assert(dsts[i as int] == dst);
            assert(dsts.take(i + 1).drop_last() =~= dsts.take(i as int));
            assert(all.take(i + 1).drop_last() =~= all.take(i as int));
        }
        i = i + 1;
    }
    assert(dsts.take(i as int) =~= dsts);
    assert(all.take(i as int) =~= all);
    out
}

} // verus!
