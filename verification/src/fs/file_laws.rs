//! What a file's bytes are after each operation on it, as its reader sees them.
use vstd::prelude::*;

use crate::blobs::blake3_digest;
use crate::facet::law_replay_splits;
use crate::facet::replayed;
use crate::facet::Facet;
use crate::fs::chunk::by_seq;
use crate::fs::chunk::chunks;
use crate::fs::chunk::concat;
use crate::fs::chunk::larger;
use crate::fs::chunk::piece_of;
use crate::fs::chunk::read_pieces;
use crate::fs::chunk::slice_for;
use crate::fs::chunk::smaller;
use crate::fs::chunk::wanted;
use crate::fs::facet::applied_all;
use crate::fs::facet::listing;
use crate::fs::facet::plan_truncate;
use crate::fs::facet::Fs;
use crate::fs::facet::FsStage;
use crate::fs::facet::FsStageModel;
use crate::fs::grain::FsError;
use crate::fs::laws::blocks_stored;
use crate::fs::laws::file_byte;
use crate::fs::laws::law_a_read_is_the_file;
use crate::fs::laws::law_the_youngest_write_wins;
use crate::fs::laws::law_truncation_discards_exactly_the_tail;
use crate::fs::laws::lemma_by_seq;
use crate::fs::laws::lemma_concat_front;
use crate::fs::laws::lemma_visible;
use crate::fs::laws::read_result;
use crate::fs::laws::run_bytes;
use crate::fs::laws::slice_stored;
use crate::fs::laws::visible;
use crate::fs::laws::Store;
use crate::fs::meta::child;
use crate::fs::meta::climbs;
use crate::fs::meta::is_dir;
use crate::fs::meta::is_file;
use crate::fs::meta::is_live;
use crate::fs::meta::meta_of;
use crate::fs::meta::names_something;
use crate::fs::meta::parent_of;
use crate::fs::meta::path_parts;
use crate::fs::meta::raw_parts;
use crate::fs::meta::refers;
use crate::fs::meta::resolved;
use crate::fs::meta::walk;
use crate::fs::meta::BlockModel;
use crate::fs::meta::FileModel;
use crate::fs::meta::InodeModel;
use crate::fs::meta::SliceModel;
use crate::fs::meta::TreeModel;
use crate::fs::meta::BLOCK_BYTES;
use crate::fs::meta::ROOT;
use crate::fs::op::applied;
use crate::fs::op::clipped;
use crate::fs::op::clipped_slice;
use crate::fs::op::end_of;
use crate::fs::op::is_shadowed;
use crate::fs::op::truncated;
use crate::fs::op::written;
use crate::fs::op::FsOp;
use crate::fs::op::OpModel;
use crate::key::str_lt;
use crate::ordmap::ascending;
use crate::wire::lemma_decoded;
use crate::wire::sorted_keys;
use crate::wire::Wire;

verus! {

/// The blocks of every slice of a file are stored.
pub open spec fn all_stored(store: Store, file: FileModel) -> bool {
    forall|k: int| 0 <= k < file.slices.len() ==> slice_stored(store, #[trigger] file.slices[k])
}

/// No slice of a file reaches beyond its size.
pub open spec fn within_size(file: FileModel) -> bool {
    forall|k: int| 0 <= k < file.slices.len() ==> end_of(#[trigger] file.slices[k]) <= file.size
}

// ---- Reading ----

/// How long a read is: from its start to its end or the end of the file, whichever comes
/// first; and the byte it answers at each position is the file's.
pub proof fn law_a_read_covers_its_range(store: Store, file: FileModel, start: int, end: int)
    requires
        0 <= start,
        all_stored(store, file),
    ensures
        start < end <= file.size ==> read_result(store, file, start, end).len() == end - start,
        start < file.size < end ==> read_result(store, file, start, end).len() == file.size - start,
        end <= start || file.size <= start ==> read_result(store, file, start, end).len() == 0,
        forall|i: int|
            0 <= i < read_result(store, file, start, end).len() ==> #[trigger] read_result(
                store,
                file,
                start,
                end,
            )[i] == file_byte(store, file.slices, start + i),
{
    law_a_read_is_the_file(store, file, start, end);
}

/// A read of a range is that part of a read of the whole.
pub proof fn law_a_range_is_a_part_of_the_whole(store: Store, file: FileModel, start: int, end: int)
    requires
        0 <= start <= end <= file.size,
        all_stored(store, file),
    ensures
        read_result(store, file, 0, file.size as int).len() == file.size,
        read_result(store, file, start, end) == read_result(
            store,
            file,
            0,
            file.size as int,
        ).subrange(start, end),
{
    law_a_read_is_the_file(store, file, 0, file.size as int);
    law_a_read_is_the_file(store, file, start, end);
    let whole = read_result(store, file, 0, file.size as int);
    assert(read_result(store, file, start, end) =~= whole.subrange(start, end));
}

// ---- Truncating ----

proof fn lemma_clipped_run(store: Store, blocks: Seq<BlockModel>, n: int)
    requires
        blocks_stored(store, blocks),
        0 <= n <= run_bytes(store, blocks).len(),
    ensures
        blocks_stored(store, clipped(blocks, n)),
        run_bytes(store, clipped(blocks, n)) == run_bytes(store, blocks).take(n),
    decreases blocks.len(),
{
    let all = run_bytes(store, blocks);
    if blocks.len() == 0 || n <= 0 {
        assert(run_bytes(store, clipped(blocks, n)) =~= all.take(n));
    } else {
        let b = blocks[0];
        let rest = blocks.skip(1);
        assert forall|i: int| 0 <= i < rest.len() implies store.contains_key(
            (#[trigger] rest[i]).id,
        ) && store[rest[i].id].len() >= rest[i].len by {
            assert(rest[i] == blocks[i + 1]);
        }
        let take = if b.len <= n {
            b.len
        } else {
            n as u32
        };
        let head = store[b.id].take(b.len as int);
        let tail = run_bytes(store, rest);
        assert(all == head + tail);
        assert(head.len() == b.len);
        lemma_clipped_run(store, rest, n - take);
        let cut = clipped(blocks, n);
        let one = BlockModel { id: b.id, len: take };
        assert(cut == seq![one] + clipped(rest, n - take));
        assert(cut[0] == one);
        assert(cut.skip(1) =~= clipped(rest, n - take));
        assert(run_bytes(store, cut) == store[b.id].take(take as int) + tail.take(n - take));
        assert(run_bytes(store, cut) =~= all.take(n));
        assert forall|i: int| 0 <= i < cut.len() implies store.contains_key((#[trigger] cut[i]).id)
            && store[cut[i].id].len() >= cut[i].len by {
            if i > 0 {
                assert(cut[i] == clipped(rest, n - take)[i - 1]);
            }
        }
    }
}

proof fn lemma_clipped_stored(store: Store, s: SliceModel, size: u64)
    requires
        slice_stored(store, s),
        clipped_slice(s, size) is Some,
    ensures
        slice_stored(store, clipped_slice(s, size)->0),
        forall|p: int|
            s.off <= p < size && p < end_of(s) ==> #[trigger] run_bytes(
                store,
                clipped_slice(s, size)->0.blocks,
            )[p - s.off] == run_bytes(store, s.blocks)[p - s.off],
{
    if end_of(s) > size {
        lemma_clipped_run(store, s.blocks, size - s.off);
    }
}

proof fn lemma_filter_map_contains(slices: Seq<SliceModel>, size: u64, x: SliceModel) -> (s:
    SliceModel)
    requires
        slices.filter_map(|s: SliceModel| clipped_slice(s, size)).contains(x),
    ensures
        slices.contains(s),
        clipped_slice(s, size) == Some(x),
    decreases slices.len(),
{
    let cut = |s: SliceModel| clipped_slice(s, size);
    let all = slices.filter_map(cut);
    let front = slices.drop_last();
    let last = slices.last();
    let before = front.filter_map(cut);
    assert(slices[slices.len() - 1] == last);
    assert(cut(last) == clipped_slice(last, size));
    if cut(last) == Some(x) {
        last
    } else {
        let i = all.index_of(x);
        match cut(last) {
            Some(c) => {
                assert(all == before + seq![c]);
                assert(i < before.len());
                assert(before[i] == x);
            },
            None => {
                assert(all == before);
            },
        }
        assert(before.contains(x));
        let s = lemma_filter_map_contains(front, size, x);
        let j = front.index_of(s);
        assert(slices[j] == s);
        s
    }
}

/// The slices of a truncated file are what is left of slices it had.
proof fn lemma_truncated_slice(file: FileModel, size: u64, k: int) -> (s: SliceModel)
    requires
        0 <= k < truncated(file, size).slices.len(),
    ensures
        file.slices.contains(s),
        clipped_slice(s, size) == Some(truncated(file, size).slices[k]),
{
    let left = file.slices.filter_map(|s: SliceModel| clipped_slice(s, size));
    let keep = |s: SliceModel| !is_shadowed(left, s);
    let x = truncated(file, size).slices[k];
    assert(left.filter(keep).contains(x));
    left.lemma_filter_contains_rev(keep, x);
    lemma_filter_map_contains(file.slices, size, x)
}

/// A truncated file has exactly the asked size. Below the cut it reads as it did, and
/// nothing is left beyond it: where it grew it reads as zeros.
pub proof fn law_a_truncated_file_keeps_its_head(store: Store, file: FileModel, size: u64)
    requires
        all_stored(store, file),
    ensures
        truncated(file, size).size == size,
        all_stored(store, truncated(file, size)),
        within_size(truncated(file, size)),
        forall|p: int|
            0 <= p < size ==> #[trigger] file_byte(store, truncated(file, size).slices, p)
                == file_byte(store, file.slices, p),
        forall|p: int|
            size <= p ==> #[trigger] file_byte(store, truncated(file, size).slices, p) == 0,
{
    let after = truncated(file, size);
    assert forall|k: int| 0 <= k < after.slices.len() implies slice_stored(
        store,
        #[trigger] after.slices[k],
    ) && end_of(after.slices[k]) <= size by {
        let s = lemma_truncated_slice(file, size, k);
        let j = file.slices.index_of(s);
        assert(slice_stored(store, file.slices[j]));
        lemma_clipped_stored(store, s, size);
    }
    assert forall|p: int| 0 <= p < size implies #[trigger] file_byte(store, after.slices, p)
        == file_byte(store, file.slices, p) by {
        law_truncation_discards_exactly_the_tail(file, size, p);
        lemma_visible(file.slices, p);
        lemma_visible(after.slices, p);
        if let Some(v) = visible(file.slices, p) {
            let j = file.slices.index_of(v);
            assert(slice_stored(store, file.slices[j]));
            assert(clipped_slice(v, size) is Some);
            lemma_clipped_stored(store, v, size);
        }
    }
    assert forall|p: int| size <= p implies #[trigger] file_byte(store, after.slices, p) == 0 by {
        law_truncation_discards_exactly_the_tail(file, size, p);
    }
}

/// Beyond its size a file has no bytes to show later.
proof fn lemma_nothing_beyond_the_size(store: Store, file: FileModel, p: int)
    requires
        within_size(file),
        file.size <= p,
    ensures
        file_byte(store, file.slices, p) == 0,
{
    lemma_visible(file.slices, p);
    if let Some(v) = visible(file.slices, p) {
        let j = file.slices.index_of(v);
        assert(end_of(file.slices[j]) <= file.size);
    }
}

/// What a file reads as after its size was set: its first bytes, up to the lesser of the
/// two sizes, and zeros where it grew.
pub open spec fn resized(store: Store, before: FileModel, after: FileModel, size: u64) -> bool {
    let old_bytes = read_result(store, before, 0, before.size as int);
    let new_bytes = read_result(store, after, 0, after.size as int);
    &&& new_bytes.len() == size
    &&& forall|i: int|
        0 <= i < size && i < before.size ==> #[trigger] new_bytes[i] == old_bytes[i]
    &&& forall|i: int| before.size <= i < size ==> #[trigger] new_bytes[i] == 0
}

/// Setting a file's size keeps its first bytes and adds only zeros.
pub proof fn law_a_resized_file_reads_as_its_head_and_zeros(
    store: Store,
    file: FileModel,
    size: u64,
)
    requires
        all_stored(store, file),
        within_size(file),
    ensures
        resized(store, file, truncated(file, size), size),
{
    let after = truncated(file, size);
    law_a_truncated_file_keeps_its_head(store, file, size);
    law_a_read_is_the_file(store, file, 0, file.size as int);
    law_a_read_is_the_file(store, after, 0, size as int);
    let old_bytes = read_result(store, file, 0, file.size as int);
    let new_bytes = read_result(store, after, 0, after.size as int);
    assert forall|i: int| 0 <= i < size && i < file.size implies #[trigger] new_bytes[i]
        == old_bytes[i] by {
        assert(new_bytes[i] == file_byte(store, after.slices, 0 + i));
        assert(old_bytes[i] == file_byte(store, file.slices, 0 + i));
    }
    assert forall|i: int| file.size <= i < size implies #[trigger] new_bytes[i] == 0 by {
        assert(new_bytes[i] == file_byte(store, after.slices, 0 + i));
        assert(file_byte(store, after.slices, i) == file_byte(store, file.slices, i));
        lemma_nothing_beyond_the_size(store, file, i);
    }
}

/// The file that a path leads to has been resized, and nothing else of the tree changed.
pub open spec fn path_resized(
    before: TreeModel,
    after: TreeModel,
    path: Seq<char>,
    size: u64,
) -> bool {
    resolved(before, path) matches Ok(ino) && {
        &&& resolved(after, path) == resolved(before, path)
        &&& is_file(before, ino)
        &&& is_file(after, ino)
        &&& after.inodes[ino]->File_0.size == size
        &&& after.next_ino == before.next_ino
        &&& forall|x: u64|
            x != ino ==> (#[trigger] after.inodes.contains_key(x) == before.inodes.contains_key(x))
                && after.inodes[x] == before.inodes[x]
        &&& forall|store: Store| #[trigger]
            all_stored(store, before.inodes[ino]->File_0) && within_size(
                before.inodes[ino]->File_0,
            ) ==> resized(
                store,
                before.inodes[ino]->File_0,
                after.inodes[ino]->File_0,
                size,
            )
    }
}

proof fn lemma_same_children(t: TreeModel, more: TreeModel, from: u64, parts: Seq<Seq<char>>)
    requires
        forall|d: u64, n: Seq<char>| #[trigger] child(more, d, n) == child(t, d, n),
    ensures
        walk(more, from, parts) == walk(t, from, parts),
    decreases parts.len(),
{
    if parts.len() > 0 {
        if let Some(next) = child(t, from, parts[0]) {
            lemma_same_children(t, more, next, parts.skip(1));
        }
        assert(child(more, from, parts[0]) == child(t, from, parts[0]));
    }
}

/// A truncation sets the size of the file at its path, shrunk or grown, and reports
/// whether it cut anything off. It is refused where the path leads nowhere, and at a
/// directory.
pub proof fn law_a_truncation_resizes_its_file(t: TreeModel, path: Seq<char>, size: u64)
    ensures
        match plan_truncate(t, path, size) {
            Ok((op, orphaned)) => path_resized(t, applied(t, op), path, size) && orphaned == (size
                < t.inodes[resolved(t, path)->Ok_0]->File_0.size),
            Err(e) => match resolved(t, path) {
                Ok(ino) => !is_file(t, ino) && e == FsError::IsADirectory,
                Err(why) => e == why,
            },
        },
{
    if let Ok((op, _)) = plan_truncate(t, path, size) {
        let ino = resolved(t, path)->Ok_0;
        let after = applied(t, op);
        assert forall|d: u64, n: Seq<char>| #[trigger] child(after, d, n) == child(t, d, n) by {}
        lemma_same_children(t, after, ROOT, path_parts(path));
        assert forall|store: Store| #[trigger] all_stored(store, t.inodes[ino]->File_0)
            && within_size(t.inodes[ino]->File_0) implies resized(
            store,
            t.inodes[ino]->File_0,
            after.inodes[ino]->File_0,
            size,
        ) by {
            law_a_resized_file_reads_as_its_head_and_zeros(store, t.inodes[ino]->File_0, size);
        }
    }
}

// ---- Writing ----

/// The youngest write to a file is what its range reads as; the rest reads as before, and
/// the file ends no earlier than either.
pub proof fn law_a_write_shows_in_its_range_alone(
    store: Store,
    file: FileModel,
    slice: SliceModel,
    p: int,
)
    requires
        end_of(slice) <= u64::MAX,
        forall|i: int| 0 <= i < file.slices.len() ==> (#[trigger] file.slices[i]).seq <= slice.seq,
    ensures
        slice.off <= p < slice.off + slice.len ==> file_byte(
            store,
            written(file, slice).slices,
            p,
        ) == run_bytes(store, slice.blocks)[p - slice.off],
        p < slice.off || slice.off + slice.len <= p ==> file_byte(
            store,
            written(file, slice).slices,
            p,
        ) == file_byte(store, file.slices, p),
        slice.off + slice.len <= file.size ==> written(file, slice).size == file.size,
        slice.off + slice.len > file.size ==> written(file, slice).size == slice.off + slice.len,
        slice.seq < u64::MAX ==> written(file, slice).next_seq > slice.seq && written(
            file,
            slice,
        ).next_seq >= file.next_seq,
{
    law_the_youngest_write_wins(file, slice, p);
}

// ---- Sizes stay above the slices ----

/// Every file's slices stay within its size.
pub open spec fn all_within_size(t: TreeModel) -> bool {
    forall|ino: u64| #[trigger] is_file(t, ino) ==> within_size(t.inodes[ino]->File_0)
}

/// Every op keeps every file's slices within its size, so that a file that grows never
/// shows what was cut off before.
pub proof fn law_ops_keep_slices_within_sizes(t: TreeModel, op: OpModel)
    requires
        all_within_size(t),
        op matches OpModel::Write { slice, .. } ==> end_of(slice) <= u64::MAX,
    ensures
        all_within_size(applied(t, op)),
{
    let after = applied(t, op);
    assert forall|ino: u64| #[trigger] is_file(after, ino) implies within_size(
        after.inodes[ino]->File_0,
    ) by {
        match op {
            OpModel::Write { ino: at, slice } => {
                if ino == at && is_file(t, at) {
                    let file = t.inodes[at]->File_0;
                    assert(within_size(file));
                    let all = file.slices.push(slice);
                    let keep = |s: SliceModel| !is_shadowed(all, s);
                    let new = written(file, slice);
                    assert forall|k: int| 0 <= k < new.slices.len() implies end_of(
                        #[trigger] new.slices[k],
                    ) <= new.size by {
                        let x = new.slices[k];
                        assert(all.filter(keep).contains(x));
                        all.lemma_filter_contains_rev(keep, x);
                        let j = all.index_of(x);
                        if j < file.slices.len() {
                            assert(file.slices[j] == x);
                        }
                    }
                } else {
                    assert(is_file(t, ino));
                }
            },
            OpModel::Truncate { ino: at, size } => {
                if ino == at && is_file(t, at) {
                    let file = t.inodes[at]->File_0;
                    let new = truncated(file, size);
                    assert forall|k: int| 0 <= k < new.slices.len() implies end_of(
                        #[trigger] new.slices[k],
                    ) <= new.size by {
                        let s = lemma_truncated_slice(file, size, k);
                    }
                } else {
                    assert(is_file(t, ino));
                }
            },
            OpModel::Create { ino: at, .. } => {
                if ino != at {
                    assert(is_file(t, ino));
                }
            },
            OpModel::Destroyed => {},
            _ => {
                assert(is_file(t, ino));
            },
        }
    }
}

// ---- Looking ----

/// A listing names each entry of a directory once, in ascending order of the names, and
/// shows what it leads to: a directory, or a file with its size.
pub proof fn law_a_listing_shows_every_entry(t: TreeModel, dir: u64)
    requires
        is_dir(t, dir),
        t.inodes[dir]->Dir_0.dom().finite(),
        exists|names: Seq<Seq<char>>| #[trigger]
            ascending::<String>(names) && names.to_set() == t.inodes[dir]->Dir_0.dom(),
    ensures
        forall|i: int, j: int|
            0 <= i < j < listing(t, dir).len() ==> str_lt(
                (#[trigger] listing(t, dir)[i]).0,
                (#[trigger] listing(t, dir)[j]).0,
            ),
        forall|i: int|
            0 <= i < listing(t, dir).len() ==> {
                let (name, is_directory, size) = #[trigger] listing(t, dir)[i];
                child(t, dir, name) matches Some(ino) && {
                    &&& is_dir(t, ino) ==> is_directory && size == 0
                    &&& is_file(t, ino) ==> !is_directory && size == t.inodes[ino]->File_0.size
                }
            },
        forall|name: Seq<char>|
            (#[trigger] child(t, dir, name)) is Some ==> exists|i: int|
                0 <= i < listing(t, dir).len() && (#[trigger] listing(t, dir)[i]).0 == name,
{
    let entries = t.inodes[dir]->Dir_0;
    let names = sorted_keys::<String, u64>(entries);
    let all = listing(t, dir);
    assert(ascending::<String>(names) && names.to_set() == entries.dom());
    assert forall|i: int| 0 <= i < all.len() implies {
        let (name, is_directory, size) = #[trigger] all[i];
        child(t, dir, name) matches Some(ino) && {
            &&& is_dir(t, ino) ==> is_directory && size == 0
            &&& is_file(t, ino) ==> !is_directory && size == t.inodes[ino]->File_0.size
        }
    } by {
        assert(names.to_set().contains(names[i]));
        assert(entries.contains_key(names[i]));
    }
    assert forall|name: Seq<char>| (#[trigger] child(t, dir, name)) is Some implies exists|i: int|
        0 <= i < all.len() && (#[trigger] all[i]).0 == name by {
        assert(names.to_set().contains(name));
        let i = names.index_of(name);
        assert(all[i].0 == name);
    }
}

/// What is shown of an inode: that it is a directory, or a file of its size.
pub proof fn law_an_inode_shows_what_it_is(t: TreeModel, ino: u64)
    requires
        t.inodes.contains_key(ino),
    ensures
        is_dir(t, ino) ==> meta_of(t.inodes[ino]) == (true, 0u64),
        is_file(t, ino) ==> meta_of(t.inodes[ino]) == (false, t.inodes[ino]->File_0.size),
{
}

/// Whatever a read of a file fetches is live: a sweep that keeps the live blocks never
/// takes what some file still reads.
pub proof fn law_what_a_read_fetches_is_live(
    t: TreeModel,
    ino: u64,
    start: int,
    end: int,
    piece: int,
    fetch: int,
)
    requires
        is_file(t, ino),
        0 <= piece < read_pieces(t.inodes[ino]->File_0, start, end).len(),
        0 <= fetch < read_pieces(t.inodes[ino]->File_0, start, end)[piece].fetches.len(),
    ensures
        is_live(
            t,
            read_pieces(t.inodes[ino]->File_0, start, end)[piece].fetches[fetch].id,
        ),
{
    let file = t.inodes[ino]->File_0;
    let stop = smaller(end, file.size as int);
    let sorted = by_seq(file.slices);
    let cut = |s: SliceModel| piece_of(s, start, stop);
    let pieces = sorted.filter_map(cut);
    let k = lemma_piece_of_slice(sorted, start, stop, piece);
    lemma_by_seq(file.slices, 0);
    assert(sorted.contains(sorted[k]));
    let j = file.slices.index_of(sorted[k]);
    let s = file.slices[j];
    let lo = larger(s.off as int, start);
    let hi = smaller(end_of(s), stop);
    let b = lemma_wanted_from_blocks(s.blocks, 0, lo - s.off, hi - s.off, fetch);
    assert(refers(t, ino, j, b, pieces[piece].fetches[fetch].id));
}

proof fn lemma_piece_of_slice(sorted: Seq<SliceModel>, start: int, stop: int, i: int) -> (k: int)
    requires
        0 <= i < sorted.filter_map(|s: SliceModel| piece_of(s, start, stop)).len(),
    ensures
        0 <= k < sorted.len(),
        piece_of(sorted[k], start, stop) == Some(
            sorted.filter_map(|s: SliceModel| piece_of(s, start, stop))[i],
        ),
    decreases sorted.len(),
{
    let cut = |s: SliceModel| piece_of(s, start, stop);
    let all = sorted.filter_map(cut);
    let front = sorted.drop_last();
    let before = front.filter_map(cut);
    let last = sorted.last();
    assert(sorted[sorted.len() - 1] == last);
    assert(cut(last) == piece_of(last, start, stop));
    match cut(last) {
        Some(p) => {
            assert(all == before + seq![p]);
        },
        None => {
            assert(all == before);
        },
    }
    if i < before.len() {
        let k = lemma_piece_of_slice(front, start, stop, i);
        assert(front[k] == sorted[k]);
        k
    } else {
        sorted.len() - 1
    }
}

proof fn lemma_wanted_from_blocks(
    blocks: Seq<BlockModel>,
    pos: int,
    off: int,
    end: int,
    i: int,
) -> (b: int)
    requires
        0 <= i < wanted(blocks, pos, off, end).len(),
    ensures
        0 <= b < blocks.len(),
        blocks[b].id == wanted(blocks, pos, off, end)[i].id,
    decreases blocks.len(),
{
    let next = pos + blocks[0].len;
    let rest = wanted(blocks.skip(1), next, off, end);
    let skipped = next <= off || pos >= end;
    if !skipped && i == 0 {
        0
    } else {
        let j = if skipped {
            i
        } else {
            i - 1
        };
        let b = lemma_wanted_from_blocks(blocks.skip(1), next, off, end, j);
        b + 1
    }
}

// ---- Paths ----

/// Pieces with a slash between each two.
pub open spec fn slashed(parts: Seq<Seq<char>>) -> Seq<char>
    decreases parts.len(),
{
    if parts.len() == 0 {
        seq![]
    } else if parts.len() == 1 {
        parts[0]
    } else {
        slashed(parts.drop_last()) + seq!['/'] + parts.last()
    }
}

/// A path is its pieces with slashes between them, and no piece has a slash in it.
pub proof fn law_a_path_is_its_pieces(path: Seq<char>)
    ensures
        raw_parts(path).len() > 0,
        slashed(raw_parts(path)) == path,
        forall|i: int|
            0 <= i < raw_parts(path).len() ==> !(#[trigger] raw_parts(path)[i]).contains('/'),
    decreases path.len(),
{
    let parts = raw_parts(path);
    if path.len() == 0 {
        assert(parts.len() == 1);
        assert(slashed(parts) =~= path);
        assert(!parts[0].contains('/'));
    } else {
        let before = raw_parts(path.drop_last());
        law_a_path_is_its_pieces(path.drop_last());
        assert(path =~= path.drop_last().push(path.last()));
        if path.last() == '/' {
            assert(parts.drop_last() =~= before);
            assert(slashed(parts) =~= path);
            assert forall|i: int| 0 <= i < parts.len() implies !(#[trigger] parts[i]).contains(
                '/',
            ) by {
                if i < before.len() {
                    assert(parts[i] == before[i]);
                }
            }
        } else {
            let n = before.len() - 1;
            let grown = before.last().push(path.last());
            assert(parts[n] == grown);
            assert(parts.drop_last() =~= before.drop_last());
            assert(slashed(parts) =~= path);
            assert forall|i: int| 0 <= i < parts.len() implies !(#[trigger] parts[i]).contains(
                '/',
            ) by {
                if i < n {
                    assert(parts[i] == before[i]);
                } else {
                    assert(!before[n].contains('/'));
                    assert forall|k: int| 0 <= k < grown.len() implies grown[k] != '/' by {
                        if k < before.last().len() {
                            assert(before.last()[k] == grown[k]);
                            assert(before.last().contains(grown[k]));
                        }
                    }
                }
            }
        }
    }
}

/// The components of a path are its pieces, in order, without the empty ones and the dots
/// that stay; a path climbs if one of them is a double dot.
pub proof fn law_components_are_the_pieces_that_name_something(path: Seq<char>, part: Seq<char>)
    ensures
        path_parts(path).contains(part) <==> raw_parts(path).contains(part) && part.len() > 0
            && part != seq!['.'],
        climbs(path) <==> raw_parts(path).contains(seq!['.', '.']),
{
    let keep = |p: Seq<char>| names_something(p);
    let raw = raw_parts(path);
    let up = seq!['.', '.'];
    assert(up != seq!['.']) by {
        assert(up.len() == 2);
    }
    if path_parts(path).contains(part) {
        raw.lemma_filter_contains_rev(keep, part);
        let i = path_parts(path).index_of(part);
        raw.filter_lemma(keep);
        assert(keep(path_parts(path)[i]));
    }
    if raw.contains(part) && keep(part) {
        raw.filter_lemma(keep);
        let i = raw.index_of(part);
        assert(raw.filter(keep).contains(raw[i]));
    }
    if path_parts(path).contains(up) {
        raw.lemma_filter_contains_rev(keep, up);
    }
    if raw.contains(up) {
        raw.filter_lemma(keep);
        let i = raw.index_of(up);
        assert(keep(raw[i]));
        assert(raw.filter(keep).contains(raw[i]));
    }
}

// ---- Blocks ----

/// A content is stored in blocks of four mebibytes, the last one possibly shorter: put one
/// after the other they are the content, and each is known by its digest.
pub proof fn law_a_content_is_its_blocks(seq: u64, off: u64, content: Seq<u8>)
    requires
        content.len() <= u64::MAX,
    ensures
        concat(chunks(content, BLOCK_BYTES as int)) == content,
        slice_for(seq, off, content).seq == seq,
        slice_for(seq, off, content).off == off,
        slice_for(seq, off, content).len == content.len(),
        slice_for(seq, off, content).blocks.len() == chunks(content, BLOCK_BYTES as int).len(),
        forall|i: int|
            0 <= i < chunks(content, BLOCK_BYTES as int).len() ==> {
                let chunk = #[trigger] chunks(content, BLOCK_BYTES as int)[i];
                &&& 0 < chunk.len() <= 4194304
                &&& i < chunks(content, BLOCK_BYTES as int).len() - 1 ==> chunk.len() == 4194304
                &&& slice_for(seq, off, content).blocks[i] == (BlockModel {
                    id: blake3_digest(chunk),
                    len: chunk.len() as u32,
                })
            },
{
    lemma_chunks(content);
}

proof fn lemma_chunks(content: Seq<u8>)
    ensures
        concat(chunks(content, BLOCK_BYTES as int)) == content,
        forall|i: int|
            0 <= i < chunks(content, BLOCK_BYTES as int).len() ==> {
                let chunk = #[trigger] chunks(content, BLOCK_BYTES as int)[i];
                &&& 0 < chunk.len() <= 4194304
                &&& i < chunks(content, BLOCK_BYTES as int).len() - 1 ==> chunk.len() == 4194304
            },
        content.len() > 0 ==> chunks(content, BLOCK_BYTES as int).len() > 0,
    decreases content.len(),
{
    let size = BLOCK_BYTES as int;
    let all = chunks(content, size);
    if content.len() == 0 {
        assert(concat(all) =~= content);
    } else if content.len() <= size {
        assert(all.drop_last() =~= Seq::<Seq<u8>>::empty());
        assert(concat(all.drop_last()) =~= Seq::<u8>::empty());
        assert(concat(all) =~= content);
    } else {
        let (head, tail) = (content.take(size), content.skip(size));
        let rest = chunks(tail, size);
        lemma_chunks(tail);
        lemma_concat_front(head, rest);
        assert(head + tail =~= content);
        assert forall|i: int| 0 <= i < all.len() implies {
            let chunk = #[trigger] all[i];
            &&& 0 < chunk.len() <= 4194304
            &&& i < all.len() - 1 ==> chunk.len() == 4194304
        } by {
            if i > 0 {
                assert(all[i] == rest[i - 1]);
            }
        }
    }
}

// ---- Ops ----

/// A create enters a new and empty inode of the kind asked for, under the name asked for,
/// and mints numbers above it; every other inode is as it was.
pub proof fn law_a_create_enters_an_empty_inode(
    t: TreeModel,
    parent: u64,
    name: Seq<char>,
    ino: u64,
    dir: bool,
    other: u64,
)
    requires
        is_dir(t, parent),
        parent != ino,
        ino < u64::MAX,
        other != ino,
        other != parent,
    ensures
        ({
            let after = applied(t, OpModel::Create { parent, name, ino, dir });
            &&& child(after, parent, name) == Some(ino)
            &&& dir ==> is_dir(after, ino) && after.inodes[ino]->Dir_0 == Map::<
                Seq<char>,
                u64,
            >::empty()
            &&& !dir ==> is_file(after, ino) && after.inodes[ino]->File_0.size == 0
                && after.inodes[ino]->File_0.slices.len() == 0
            &&& after.next_ino > ino && after.next_ino >= t.next_ino
            &&& after.inodes.contains_key(other) == t.inodes.contains_key(other)
            &&& after.inodes[other] == t.inodes[other]
            &&& forall|n: Seq<char>|
                n != name ==> #[trigger] child(after, parent, n) == child(t, parent, n)
        }),
{
}

/// A write or a truncation changes one file and nothing else; a tree that is destroyed is
/// an empty root.
pub proof fn law_a_files_ops_change_that_file_alone(
    t: TreeModel,
    ino: u64,
    slice: SliceModel,
    size: u64,
    other: u64,
)
    requires
        other != ino,
    ensures
        ({
            let w = applied(t, OpModel::Write { ino, slice });
            let c = applied(t, OpModel::Truncate { ino, size });
            &&& is_file(t, ino) ==> w.inodes[ino] == InodeModel::File(
                written(t.inodes[ino]->File_0, slice),
            ) && c.inodes[ino] == InodeModel::File(truncated(t.inodes[ino]->File_0, size))
            &&& !is_file(t, ino) ==> w == t && c == t
            &&& w.inodes.contains_key(other) == t.inodes.contains_key(other) && w.inodes[other]
                == t.inodes[other]
            &&& c.inodes.contains_key(other) == t.inodes.contains_key(other) && c.inodes[other]
                == t.inodes[other]
            &&& w.next_ino == t.next_ino && c.next_ino == t.next_ino
        }),
        applied(t, OpModel::Destroyed).inodes == map![
            1u64 => InodeModel::Dir(Map::<Seq<char>, u64>::empty())
        ],
        applied(t, OpModel::Destroyed).next_ino == 2,
{
    assert(applied(t, OpModel::Destroyed).inodes =~= map![
        1u64 => InodeModel::Dir(Map::<Seq<char>, u64>::empty())
    ]);
}

/// The facet: what a command staged is what its records are, in order; each is folded as
/// its op says; its blobs are those that its files refer to.
pub proof fn law_the_tree_is_rebuilt_from_its_ops(
    t: TreeModel,
    op: OpModel,
    ops: Seq<OpModel>,
    scratch: Option<TreeModel>,
    present: bool,
)
    ensures
        Fs::tag() == 2,
        !Fs::physical(),
        Fs::discarded(t) == t,
        Fs::due(t) is None,
        Fs::begin_refusal(t, present) is None,
        Fs::drained(FsStageModel { ops, scratch }).len() == ops.len(),
        forall|i: int|
            0 <= i < ops.len() ==> #[trigger] Fs::drained(FsStageModel { ops, scratch })[i]
                == FsOp::enc(ops[i]),
        FsOp::fits(op) ==> Fs::folded(t, FsOp::enc(op)) == Ok::<TreeModel, Seq<char>>(
            applied(t, op),
        ),
        forall|id: Seq<u8>| #[trigger] Fs::rooted(t).contains(id) <==> is_live(t, id),
{
    if FsOp::fits(op) {
        lemma_decoded::<FsOp>(op);
    }
}

/// A run of ops is applied one after the other.
pub proof fn law_staged_ops_apply_in_order(t: TreeModel, ops: Seq<OpModel>, op: OpModel)
    ensures
        applied_all(t, seq![]) == t,
        applied_all(t, ops.push(op)) == applied(applied_all(t, ops), op),
{
    assert(ops.push(op).drop_last() =~= ops);
}

/// What a command saw through its stage is what the tree is once its records have been
/// folded, live or on replay.
pub proof fn law_folding_the_records_gives_what_the_command_saw(
    t: TreeModel,
    ops: Seq<OpModel>,
    scratch: Option<TreeModel>,
)
    requires
        forall|i: int| 0 <= i < ops.len() ==> FsOp::fits(#[trigger] ops[i]),
    ensures
        replayed::<Fs>(t, Fs::drained(FsStageModel { ops, scratch })) == Ok::<
            TreeModel,
            Seq<char>,
        >(applied_all(t, ops)),
    decreases ops.len(),
{
    let payloads = Fs::drained(FsStageModel { ops, scratch });
    if ops.len() > 0 {
        let front = ops.drop_last();
        let last = ops[ops.len() - 1];
        let before = Fs::drained(FsStageModel { ops: front, scratch });
        assert forall|i: int| 0 <= i < front.len() implies FsOp::fits(#[trigger] front[i]) by {
            assert(front[i] == ops[i]);
        }
        law_folding_the_records_gives_what_the_command_saw(t, front, scratch);
        lemma_decoded::<FsOp>(last);
        let one = seq![FsOp::enc(last)];
        assert(payloads =~= before + one);
        law_replay_splits::<Fs>(t, before, one);
        let middle = applied_all(t, front);
        assert(one[0] == FsOp::enc(last));
        assert(one.skip(1) =~= Seq::<Seq<u8>>::empty());
        assert(replayed::<Fs>(applied(middle, last), one.skip(1)) == Ok::<TreeModel, Seq<char>>(
            applied(middle, last),
        ));
        assert(Fs::folded(middle, one[0]) == Ok::<TreeModel, Seq<char>>(applied(middle, last)));
    }
}

/// A record of the tree can be folded if the numbers that it mints have successors.
pub proof fn law_a_record_can_be_folded_if_its_numbers_fit(t: TreeModel, op: OpModel)
    requires
        FsOp::fits(op),
        op matches OpModel::Create { ino, .. } ==> ino < u64::MAX,
        op matches OpModel::Write { slice, .. } ==> slice.off + slice.len <= u64::MAX && slice.seq
            < u64::MAX,
    ensures
        Fs::fold_ok(t, FsOp::enc(op)),
        Fs::always_ok(FsOp::enc(op)),
{
    lemma_decoded::<FsOp>(op);
}

/// The parent of a path is the directory that all but its last name lead to, if they do,
/// and its last name.
pub proof fn law_a_parent_is_the_directory_above(t: TreeModel, path: Seq<char>)
    ensures
        match parent_of(t, path) {
            Ok((dir, name)) => {
                &&& path_parts(path).len() > 0
                &&& !climbs(path)
                &&& name == path_parts(path).last()
                &&& walk(t, 1, path_parts(path).drop_last()) == Some(dir)
                &&& is_dir(t, dir)
            },
            Err(e) => if climbs(path) {
                e == FsError::InvalidPath
            } else {
                e == FsError::NotFound && (path_parts(path).len() == 0 || match walk(
                    t,
                    1,
                    path_parts(path).drop_last(),
                ) {
                    Some(at) => !is_dir(t, at),
                    None => true,
                })
            },
        },
{
}

/// A stage stands for its ops, all of them and as they are.
pub proof fn law_views_of_a_stage_leave_nothing_out(stage: FsStage, ino: u64, size: u64)
    ensures
        stage.deep_view().ops == stage.ops.deep_view(),
        (FsOp::Truncate { ino, size }).deep_view() == (OpModel::Truncate { ino, size }),
        FsOp::Destroyed.deep_view() == OpModel::Destroyed,
{
}

} // verus!
