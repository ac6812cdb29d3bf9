//! What holds of the filesystem as a whole.
//!
//! A read gives back what was written last; reclaiming shadowed slices never
//! changes a read; a shrink followed by a grow reads zeros; and every op keeps the
//! tree sound.
use vstd::prelude::*;

use crate::blobs::range_of;
use crate::fs::chunk::block_for;
use crate::fs::chunk::by_seq;
use crate::fs::chunk::chunks;
use crate::fs::chunk::concat;
use crate::fs::chunk::dsts_of;
use crate::fs::chunk::larger;
use crate::fs::chunk::painted;
use crate::fs::chunk::piece_of;
use crate::fs::chunk::placed;
use crate::fs::chunk::read_len;
use crate::fs::chunk::read_pieces;
use crate::fs::chunk::slice_for;
use crate::fs::chunk::smaller;
use crate::fs::chunk::wanted;
use crate::fs::chunk::FetchModel;
use crate::fs::chunk::PieceModel;
use crate::fs::meta::BlockModel;
use crate::fs::meta::FileModel;
use crate::fs::meta::SliceModel;
use crate::fs::meta::BLOCK_BYTES;
use crate::fs::op::clipped_slice;
use crate::fs::op::end_of;
use crate::fs::op::is_shadowed;
use crate::fs::op::shadows;
use crate::fs::op::truncated;
use crate::fs::op::unshadowed;
use crate::fs::op::written;

verus! {

// ---- Which slice a byte is read from ----

pub open spec fn covers(s: SliceModel, p: int) -> bool {
    s.off <= p < end_of(s)
}

/// The slice that the byte at `p` is read from: of those that cover it the one
/// written last.
pub open spec fn visible(slices: Seq<SliceModel>, p: int) -> Option<SliceModel>
    decreases slices.len(),
{
    if slices.len() == 0 {
        None
    } else {
        let before = visible(slices.drop_last(), p);
        let s = slices.last();
        if covers(s, p) && (before is None || before->0.seq <= s.seq) {
            Some(s)
        } else {
            before
        }
    }
}

/// The visible slice covers the byte and no covering slice was written later.
pub proof fn lemma_visible(slices: Seq<SliceModel>, p: int)
    ensures
        match visible(slices, p) {
            Some(v) => slices.contains(v) && covers(v, p) && (forall|i: int|
                0 <= i < slices.len() && covers(#[trigger] slices[i], p) ==> slices[i].seq
                    <= v.seq),
            None => forall|i: int| 0 <= i < slices.len() ==> !covers(#[trigger] slices[i], p),
        },
    decreases slices.len(),
{
    if slices.len() > 0 {
        let front = slices.drop_last();
        lemma_visible(front, p);
        match visible(slices, p) {
            Some(v) => {
                if v == slices.last() {
                    assert(slices[slices.len() - 1] == v);
                } else {
                    let i = front.index_of(v);
                    assert(slices[i] == v);
                }
                assert forall|i: int| 0 <= i < slices.len() && covers(
                    #[trigger] slices[i],
                    p,
                ) implies slices[i].seq <= v.seq by {
                    if i < front.len() {
                        assert(front[i] == slices[i]);
                    }
                }
            },
            None => {
                assert forall|i: int| 0 <= i < slices.len() implies !covers(
                    #[trigger] slices[i],
                    p,
                ) by {
                    if i < front.len() {
                        assert(front[i] == slices[i]);
                    }
                }
            },
        }
    }
}

proof fn lemma_visible_filter(slices: Seq<SliceModel>, keep: spec_fn(SliceModel) -> bool, p: int)
    requires
        visible(slices, p) is Some ==> keep(visible(slices, p)->0),
    ensures
        visible(slices.filter(keep), p) == visible(slices, p),
    decreases slices.len(),
{
    reveal(Seq::filter);
    if slices.len() > 0 {
        let front = slices.drop_last();
        let s = slices.last();
        let kept = front.filter(keep);
        lemma_visible(front, p);
        lemma_visible(kept, p);
        if keep(s) {
            assert(slices.filter(keep) == kept.push(s));
            assert(kept.push(s).drop_last() =~= kept);
        } else {
            assert(slices.filter(keep) == kept);
        }
        if visible(slices, p) == Some(s) && covers(s, p) && (visible(front, p) is None || visible(
            front,
            p,
        )->0.seq <= s.seq) {
            match visible(kept, p) {
                Some(b) => {
                    front.lemma_filter_contains_rev(keep, b);
                    assert(front.contains(b));
                    let j = front.index_of(b);
                    assert(covers(front[j], p));
                },
                None => {},
            }
        } else {
            assert(visible(slices, p) == visible(front, p));
            lemma_visible_filter(front, keep, p);
        }
    }
}

/// Reclaiming shadowed slices changes no read: every byte is still read from the
/// slice it was read from.
pub proof fn law_reclaiming_slices_changes_no_read(slices: Seq<SliceModel>, p: int)
    ensures
        visible(unshadowed(slices), p) == visible(slices, p),
{
    let keep = |s: SliceModel| !is_shadowed(slices, s);
    lemma_visible(slices, p);
    if let Some(v) = visible(slices, p) {
        if is_shadowed(slices, v) {
            let j = choose|j: int| 0 <= j < slices.len() && shadows(#[trigger] slices[j], v);
            assert(covers(slices[j], p));
        }
    }
    lemma_visible_filter(slices, keep, p);
}

proof fn lemma_visible_clipped(slices: Seq<SliceModel>, size: u64, p: int)
    ensures
        visible(slices.filter_map(|s: SliceModel| clipped_slice(s, size)), p) == if p < size {
            match visible(slices, p) {
                Some(v) => clipped_slice(v, size),
                None => None,
            }
        } else {
            None
        },
        p < size && visible(slices, p) is Some ==> clipped_slice(
            visible(slices, p)->0,
            size,
        ) is Some,
    decreases slices.len(),
{
    let cut = |s: SliceModel| clipped_slice(s, size);
    if slices.len() > 0 {
        let front = slices.drop_last();
        let s = slices.last();
        lemma_visible_clipped(front, size, p);
        lemma_visible(front, p);
        assert(cut(s) == clipped_slice(s, size));
        match cut(s) {
            Some(c) => {
                let all = slices.filter_map(cut);
                assert(all == front.filter_map(cut) + seq![c]);
                assert(all.drop_last() =~= front.filter_map(cut));
                assert(all.last() == c);
                assert(covers(c, p) == (covers(s, p) && p < size));
                assert(c.seq == s.seq);
            },
            None => {
                assert(!covers(s, p) || p >= size);
            },
        }
    }
}

/// After a truncation to `size`, nothing at or beyond `size` is read from a slice (a
/// later grow reads zeros there), and every byte below is read from what is left of
/// the slice it was read from.
pub proof fn law_truncation_discards_exactly_the_tail(file: FileModel, size: u64, p: int)
    ensures
        p >= size ==> visible(truncated(file, size).slices, p) is None,
        p < size ==> visible(truncated(file, size).slices, p) == match visible(file.slices, p) {
            Some(v) => clipped_slice(v, size),
            None => None,
        },
{
    let left = file.slices.filter_map(|s: SliceModel| clipped_slice(s, size));
    law_reclaiming_slices_changes_no_read(left, p);
    lemma_visible_clipped(file.slices, size, p);
}

/// A write is what its range reads from afterwards, and the rest of the file reads
/// as before, if it is the file's youngest.
pub proof fn law_the_youngest_write_wins(file: FileModel, slice: SliceModel, p: int)
    requires
        forall|i: int| 0 <= i < file.slices.len() ==> (#[trigger] file.slices[i]).seq <= slice.seq,
    ensures
        visible(written(file, slice).slices, p) == if covers(slice, p) {
            Some(slice)
        } else {
            visible(file.slices, p)
        },
{
    let all = file.slices.push(slice);
    law_reclaiming_slices_changes_no_read(all, p);
    assert(all.drop_last() =~= file.slices);
    lemma_visible(file.slices, p);
    if let Some(v) = visible(file.slices, p) {
        let i = file.slices.index_of(v);
        assert(file.slices[i].seq <= slice.seq);
    }
}

/// Rewriting the whole of a file keeps one slice: a slice that covers all earlier
/// ones, written later, replaces them.
pub proof fn law_a_covering_write_leaves_one_slice(file: FileModel, slice: SliceModel)
    requires
        forall|i: int| 0 <= i < file.slices.len() ==> shadows(slice, #[trigger] file.slices[i]),
    ensures
        written(file, slice).slices == seq![slice],
{
    let all = file.slices.push(slice);
    let keep = |s: SliceModel| !is_shadowed(all, s);
    reveal(Seq::filter);
    assert(all.drop_last() =~= file.slices);
    assert(all[all.len() - 1] == slice);
    assert forall|i: int| 0 <= i < file.slices.len() implies !keep(#[trigger] file.slices[i]) by {
        assert(shadows(all[all.len() - 1], file.slices[i]));
    }
    lemma_filter_none(file.slices, keep);
    assert(!is_shadowed(all, slice)) by {
        assert forall|j: int| 0 <= j < all.len() implies !shadows(#[trigger] all[j], slice) by {
            if j < file.slices.len() {
                assert(all[j] == file.slices[j]);
                assert(shadows(slice, file.slices[j]));
            }
        }
    }
    assert(file.slices.filter(keep).push(slice) =~= seq![slice]);
}

proof fn lemma_filter_none(slices: Seq<SliceModel>, keep: spec_fn(SliceModel) -> bool)
    requires
        forall|i: int| 0 <= i < slices.len() ==> !keep(#[trigger] slices[i]),
    ensures
        slices.filter(keep) == Seq::<SliceModel>::empty(),
    decreases slices.len(),
{
    reveal(Seq::filter);
    if slices.len() > 0 {
        let front = slices.drop_last();
        assert forall|i: int| 0 <= i < front.len() implies !keep(#[trigger] front[i]) by {
            assert(front[i] == slices[i]);
        }
        assert(slices[slices.len() - 1] == slices.last());
        lemma_filter_none(front, keep);
    } else {
        assert(slices.filter(keep) =~= Seq::<SliceModel>::empty());
    }
}

// ---- The bytes of a file ----

/// What the blob area holds, by id.
pub type Store = Map<Seq<u8>, Seq<u8>>;

/// The bytes of a run of blocks.
pub open spec fn run_bytes(store: Store, blocks: Seq<BlockModel>) -> Seq<u8>
    decreases blocks.len(),
{
    if blocks.len() == 0 {
        seq![]
    } else {
        store[blocks[0].id].take(blocks[0].len as int) + run_bytes(store, blocks.skip(1))
    }
}

/// Every block's blob is stored and long enough.
pub open spec fn blocks_stored(store: Store, blocks: Seq<BlockModel>) -> bool {
    forall|i: int|
        0 <= i < blocks.len() ==> store.contains_key((#[trigger] blocks[i]).id)
            && store[blocks[i].id].len() >= blocks[i].len
}

/// A slice's blocks are stored and make up its length.
pub open spec fn slice_stored(store: Store, s: SliceModel) -> bool {
    blocks_stored(store, s.blocks) && run_bytes(store, s.blocks).len() == s.len
}

/// The byte of a file at `p`.
pub open spec fn file_byte(store: Store, slices: Seq<SliceModel>, p: int) -> u8 {
    match visible(slices, p) {
        Some(s) => run_bytes(store, s.blocks)[p - s.off],
        None => 0,
    }
}

/// The bytes that a fetch brings.
pub open spec fn fetched(store: Store, f: FetchModel) -> Seq<u8> {
    range_of(store[f.id], Some((f.lo as u64, f.hi as u64)))
}

/// The bytes that a piece's fetches bring, one after the other.
pub open spec fn piece_bytes(store: Store, piece: PieceModel) -> Seq<u8> {
    concat(piece.fetches.map_values(|f: FetchModel| fetched(store, f)))
}

/// What a read of `[start, end)` answers: its pieces fetched from the blob area and
/// put together.
pub open spec fn read_result(store: Store, file: FileModel, start: int, end: int) -> Seq<u8> {
    let pieces = read_pieces(file, start, end);
    painted(
        read_len(file, start, end),
        dsts_of(pieces),
        pieces.map_values(|p: PieceModel| piece_bytes(store, p)),
    )
}

pub proof fn lemma_concat_front(x: Seq<u8>, rest: Seq<Seq<u8>>)
    ensures
        concat(seq![x] + rest) == x + concat(rest),
    decreases rest.len(),
{
    let all = seq![x] + rest;
    if rest.len() == 0 {
        assert(all.drop_last() =~= seq![]);
        assert(concat(all.drop_last()) =~= seq![]);
        assert(all.last() == x);
        assert(concat(rest) =~= seq![]);
        assert(concat(all) =~= x + concat(rest));
    } else {
        assert(all.drop_last() =~= seq![x] + rest.drop_last());
        assert(all.last() == rest.last());
        lemma_concat_front(x, rest.drop_last());
        assert(concat(all) =~= x + concat(rest));
    }
}

pub open spec fn clamped(x: int, len: int) -> int {
    if x < 0 {
        0
    } else if x > len {
        len
    } else {
        x
    }
}

/// The wanted ranges of a run of blocks hold exactly the wanted bytes.
proof fn lemma_wanted(store: Store, blocks: Seq<BlockModel>, pos: int, off: int, end: int)
    requires
        blocks_stored(store, blocks),
        0 <= pos,
        0 <= off < end <= u64::MAX,
    ensures
        concat(
            wanted(blocks, pos, off, end).map_values(|f: FetchModel| fetched(store, f)),
        ) == run_bytes(store, blocks).subrange(
            clamped(off - pos, run_bytes(store, blocks).len() as int),
            clamped(end - pos, run_bytes(store, blocks).len() as int),
        ),
    decreases blocks.len(),
{
    let f = |f: FetchModel| fetched(store, f);
    let all = run_bytes(store, blocks);
    if blocks.len() == 0 {
        assert(concat(wanted(blocks, pos, off, end).map_values(f)) =~= all.subrange(0, 0));
    } else {
        let b = blocks[0];
        let rest = blocks.skip(1);
        let next = pos + b.len;
        assert forall|i: int| 0 <= i < rest.len() implies store.contains_key(
            (#[trigger] rest[i]).id,
        ) && store[rest[i].id].len() >= rest[i].len by {
            assert(rest[i] == blocks[i + 1]);
        }
        lemma_wanted(store, rest, next, off, end);
        let head = store[b.id].take(b.len as int);
        let tail = run_bytes(store, rest);
        assert(all == head + tail);
        assert(head.len() == b.len);
        let want_rest = wanted(rest, next, off, end);
        let t = tail.len() as int;
        if next <= off || pos >= end {
            assert(all.subrange(clamped(off - pos, all.len() as int), clamped(end - pos, all.len() as int))
                =~= tail.subrange(clamped(off - next, t), clamped(end - next, t)));
        } else {
            let lo = larger(off, pos) - pos;
            let hi = smaller(end, next) - pos;
            let one = FetchModel { id: b.id, lo, hi };
            assert(wanted(blocks, pos, off, end) == seq![one] + want_rest);
            assert((seq![one] + want_rest).map_values(f) =~= seq![f(one)] + want_rest.map_values(f));
            lemma_concat_front(f(one), want_rest.map_values(f));
            assert(f(one) == fetched(store, one));
            assert(fetched(store, one) =~= head.subrange(lo, hi));
            assert(all.subrange(clamped(off - pos, all.len() as int), clamped(end - pos, all.len() as int))
                =~= head.subrange(lo, hi) + tail.subrange(
                clamped(off - next, t),
                clamped(end - next, t),
            ));
        }
    }
}

/// The last slice of a run that covers a byte.
pub open spec fn last_cover(sorted: Seq<SliceModel>, p: int) -> Option<SliceModel>
    decreases sorted.len(),
{
    if sorted.len() == 0 {
        None
    } else if covers(sorted.last(), p) {
        Some(sorted.last())
    } else {
        last_cover(sorted.drop_last(), p)
    }
}

pub open spec fn ordered(sorted: Seq<SliceModel>) -> bool {
    forall|i: int, j: int| 0 <= i <= j < sorted.len() ==> (#[trigger] sorted[i]).seq <= (
    #[trigger] sorted[j]).seq
}

proof fn lemma_placed_ordered(sorted: Seq<SliceModel>, s: SliceModel)
    requires
        ordered(sorted),
    ensures
        ordered(placed(sorted, s)),
        placed(sorted, s).len() == sorted.len() + 1,
        forall|x: SliceModel| #[trigger] placed(sorted, s).contains(x) ==> sorted.contains(x) || x
            == s,
    decreases sorted.len(),
{
    let out = placed(sorted, s);
    if sorted.len() == 0 || sorted.last().seq <= s.seq {
        assert forall|i: int, j: int| 0 <= i <= j < out.len() implies (#[trigger] out[i]).seq <= (
        #[trigger] out[j]).seq by {
            if i < sorted.len() {
                assert(sorted[i].seq <= sorted[sorted.len() - 1].seq);
            }
        }
        assert forall|x: SliceModel| #[trigger] out.contains(x) implies sorted.contains(x) || x
            == s by {
            let i = out.index_of(x);
            if i < sorted.len() {
                assert(sorted[i] == x);
            }
        }
    } else {
        let front = sorted.drop_last();
        assert forall|i: int, j: int| 0 <= i <= j < front.len() implies (#[trigger] front[i]).seq
            <= (#[trigger] front[j]).seq by {
            assert(sorted[i].seq <= sorted[j].seq);
        }
        lemma_placed_ordered(front, s);
        let inner = placed(front, s);
        assert forall|i: int, j: int| 0 <= i <= j < out.len() implies (#[trigger] out[i]).seq <= (
        #[trigger] out[j]).seq by {
            if j == inner.len() && i < inner.len() {
                assert(inner.contains(inner[i]));
                if front.contains(inner[i]) {
                    let k = front.index_of(inner[i]);
                    assert(sorted[k].seq <= sorted[sorted.len() - 1].seq);
                }
            }
        }
        assert forall|x: SliceModel| #[trigger] out.contains(x) implies sorted.contains(x) || x
            == s by {
            let i = out.index_of(x);
            if i < inner.len() {
                assert(inner[i] == x);
                assert(inner.contains(x));
                if front.contains(x) {
                    let k = front.index_of(x);
                    assert(sorted[k] == x);
                }
            } else {
                assert(sorted[sorted.len() - 1] == x);
            }
        }
    }
}

proof fn lemma_last_cover_in(sorted: Seq<SliceModel>, p: int)
    ensures
        last_cover(sorted, p) is Some ==> sorted.contains(last_cover(sorted, p)->0) && covers(
            last_cover(sorted, p)->0,
            p,
        ),
    decreases sorted.len(),
{
    if sorted.len() > 0 {
        if covers(sorted.last(), p) {
            assert(sorted[sorted.len() - 1] == sorted.last());
        } else {
            lemma_last_cover_in(sorted.drop_last(), p);
            if let Some(v) = last_cover(sorted.drop_last(), p) {
                let i = sorted.drop_last().index_of(v);
                assert(sorted[i] == v);
            }
        }
    }
}

proof fn lemma_placed_cover(sorted: Seq<SliceModel>, s: SliceModel, p: int)
    requires
        ordered(sorted),
    ensures
        last_cover(placed(sorted, s), p) == if covers(s, p) && (last_cover(sorted, p) is None
            || last_cover(sorted, p)->0.seq <= s.seq) {
            Some(s)
        } else {
            last_cover(sorted, p)
        },
    decreases sorted.len(),
{
    lemma_last_cover_in(sorted, p);
    if sorted.len() == 0 || sorted.last().seq <= s.seq {
        assert(sorted.push(s).drop_last() =~= sorted);
        if let Some(v) = last_cover(sorted, p) {
            let i = sorted.index_of(v);
            assert(sorted[i].seq <= sorted[sorted.len() - 1].seq);
        }
    } else {
        let front = sorted.drop_last();
        assert forall|i: int, j: int| 0 <= i <= j < front.len() implies (#[trigger] front[i]).seq
            <= (#[trigger] front[j]).seq by {
            assert(sorted[i].seq <= sorted[j].seq);
        }
        lemma_placed_cover(front, s, p);
        assert(placed(front, s).push(sorted.last()).drop_last() =~= placed(front, s));
    }
}

/// Ordering slices by birth keeps what each byte is read from.
pub proof fn lemma_by_seq(slices: Seq<SliceModel>, p: int)
    ensures
        ordered(by_seq(slices)),
        last_cover(by_seq(slices), p) == visible(slices, p),
        forall|x: SliceModel| #[trigger] by_seq(slices).contains(x) ==> slices.contains(x),
    decreases slices.len(),
{
    if slices.len() > 0 {
        let front = slices.drop_last();
        lemma_by_seq(front, p);
        lemma_placed_ordered(by_seq(front), slices.last());
        lemma_placed_cover(by_seq(front), slices.last(), p);
        assert forall|x: SliceModel| #[trigger] by_seq(slices).contains(x) implies slices.contains(
            x,
        ) by {
            if by_seq(front).contains(x) {
                let i = front.index_of(x);
                assert(slices[i] == x);
            } else {
                assert(slices[slices.len() - 1] == x);
            }
        }
    }
}

/// Laying pieces down in order leaves at every position the byte of the last slice
/// that covers it.
proof fn lemma_painted(store: Store, sorted: Seq<SliceModel>, start: int, stop: int, i: int)
    requires
        0 <= start < stop <= u64::MAX,
        forall|k: int| 0 <= k < sorted.len() ==> slice_stored(store, #[trigger] sorted[k]),
        0 <= i < stop - start,
    ensures
        ({
            let pieces = sorted.filter_map(|s: SliceModel| piece_of(s, start, stop));
            let out = painted(
                stop - start,
                dsts_of(pieces),
                pieces.map_values(|p: PieceModel| piece_bytes(store, p)),
            );
            &&& out.len() == stop - start
            &&& out[i] == match last_cover(sorted, start + i) {
                Some(s) => run_bytes(store, s.blocks)[start + i - s.off],
                None => 0,
            }
        }),
    decreases sorted.len(),
{
    let cut = |s: SliceModel| piece_of(s, start, stop);
    let f = |p: PieceModel| piece_bytes(store, p);
    let pieces = sorted.filter_map(cut);
    if sorted.len() > 0 {
        let front = sorted.drop_last();
        let s = sorted.last();
        assert forall|k: int| 0 <= k < front.len() implies slice_stored(
            store,
            #[trigger] front[k],
        ) by {
            assert(front[k] == sorted[k]);
        }
        lemma_painted(store, front, start, stop, i);
        let before = front.filter_map(cut);
        assert(sorted[sorted.len() - 1] == s);
        assert(cut(s) == piece_of(s, start, stop));
        match cut(s) {
            None => {
                assert(pieces == before);
                assert(!covers(s, start + i));
            },
            Some(piece) => {
                assert(pieces == before + seq![piece]);
                assert(dsts_of(pieces).drop_last() =~= dsts_of(before));
                assert(pieces.map_values(f).drop_last() =~= before.map_values(f));
                assert(dsts_of(pieces).last() == piece.dst);
                assert(pieces.map_values(f).last() == piece_bytes(store, piece));
                let lo = larger(s.off as int, start);
                let hi = smaller(end_of(s), stop);
                lemma_wanted(store, s.blocks, 0, lo - s.off, hi - s.off);
                let run = run_bytes(store, s.blocks);
                assert(piece_bytes(store, piece) == run.subrange(lo - s.off, hi - s.off));
                if covers(s, start + i) {
                    assert(piece.dst <= i < piece.dst + (hi - lo));
                    assert(piece_bytes(store, piece)[i - piece.dst] == run[start + i - s.off]);
                }
            },
        }
    }
}

/// A read answers, for every position of the range below the file's size, the byte
/// that was written there last, and zero where nothing was written.
pub proof fn law_a_read_is_the_file(store: Store, file: FileModel, start: int, end: int)
    requires
        0 <= start,
        forall|k: int| 0 <= k < file.slices.len() ==> slice_stored(store, #[trigger] file.slices[k]),
    ensures
        read_result(store, file, start, end) == Seq::new(
            read_len(file, start, end) as nat,
            |i: int| file_byte(store, file.slices, start + i),
        ),
{
    let stop = smaller(end, file.size as int);
    let out = read_result(store, file, start, end);
    let want = Seq::new(
        read_len(file, start, end) as nat,
        |i: int| file_byte(store, file.slices, start + i),
    );
    if start >= stop {
        assert(out =~= want);
    } else {
        let sorted = by_seq(file.slices);
        lemma_by_seq(file.slices, 0);
        assert forall|k: int| 0 <= k < sorted.len() implies slice_stored(
            store,
            #[trigger] sorted[k],
        ) by {
            assert(sorted.contains(sorted[k]));
            let j = file.slices.index_of(sorted[k]);
            assert(file.slices[j] == sorted[k]);
        }
        lemma_painted(store, sorted, start, stop, 0);
        assert forall|i: int| 0 <= i < want.len() implies out[i] == want[i] by {
            lemma_painted(store, sorted, start, stop, i);
            lemma_by_seq(file.slices, start + i);
        }
        assert(out =~= want);
    }
}

// ---- What a write stores ----

/// The blob area holds every chunk of a byte string.
pub open spec fn chunks_stored(store: Store, content: Seq<u8>) -> bool {
    forall|i: int|
        0 <= i < chunks(content, BLOCK_BYTES as int).len() ==> {
            let c = #[trigger] chunks(content, BLOCK_BYTES as int)[i];
            store.contains_key(block_for(c).id) && store[block_for(c).id] == c
        }
}

proof fn lemma_chunk_run(store: Store, content: Seq<u8>)
    requires
        chunks_stored(store, content),
    ensures
        ({
            let blocks = chunks(content, BLOCK_BYTES as int).map_values(
                |c: Seq<u8>| block_for(c),
            );
            &&& run_bytes(store, blocks) == content
            &&& blocks_stored(store, blocks)
        }),
    decreases content.len(),
{
    let size = BLOCK_BYTES as int;
    let cs = chunks(content, size);
    let f = |c: Seq<u8>| block_for(c);
    let blocks = cs.map_values(f);
    if content.len() == 0 {
        assert(run_bytes(store, blocks) =~= content);
    } else {
        let rest = if content.len() <= size {
            Seq::<u8>::empty()
        } else {
            content.skip(size)
        };
        let head = if content.len() <= size {
            content
        } else {
            content.take(size)
        };
        let tail = chunks(rest, size);
        assert(cs =~= seq![head] + tail);
        assert forall|i: int| 0 <= i < tail.len() implies {
            let c = #[trigger] tail[i];
            store.contains_key(block_for(c).id) && store[block_for(c).id] == c
        } by {
            assert(cs[i + 1] == tail[i]);
        }
        lemma_chunk_run(store, rest);
        assert(cs[0] == head);
        assert(blocks[0] == block_for(head));
        assert(blocks.skip(1) =~= tail.map_values(f));
        assert(head.len() <= size);
        assert(store[blocks[0].id].take(blocks[0].len as int) =~= head);
        assert(head + rest =~= content);
        assert forall|i: int| 0 <= i < blocks.len() implies store.contains_key(
            (#[trigger] blocks[i]).id,
        ) && store[blocks[i].id].len() >= blocks[i].len by {
            if i > 0 {
                assert(blocks[i] == tail.map_values(f)[i - 1]);
            }
        }
    }
}

/// A file that holds one write of `content` from its beginning reads as `content`,
/// once the write's chunks are stored.
pub proof fn law_a_written_file_reads_back(
    store: Store,
    file: FileModel,
    seq: u64,
    content: Seq<u8>,
)
    requires
        chunks_stored(store, content),
        content.len() <= u64::MAX,
        file.size == content.len(),
        file.slices == seq![slice_for(seq, 0, content)],
    ensures
        read_result(store, file, 0, file.size as int) == content,
{
    let s = slice_for(seq, 0, content);
    lemma_chunk_run(store, content);
    assert(slice_stored(store, s));
    assert forall|k: int| 0 <= k < file.slices.len() implies slice_stored(
        store,
        #[trigger] file.slices[k],
    ) by {
        assert(file.slices[k] == s);
    }
    law_a_read_is_the_file(store, file, 0, file.size as int);
    let out = read_result(store, file, 0, file.size as int);
    assert forall|i: int| 0 <= i < content.len() implies out[i] == content[i] by {
        assert(out[i] == file_byte(store, file.slices, i));
        assert(file.slices.drop_last() =~= seq![]);
        assert(visible(file.slices.drop_last(), i) is None);
        assert(file.slices.last() == s);
        assert(covers(s, i));
    }
    assert(out =~= content);
}

} // verus!
