//! The filesystem mutation record and its pure fold.
//!
//! [`apply`] folds an op into the tree. It reads no clock and draws no entropy:
//! the writer minted the inode numbers and slice orders before the op was
//! journaled, so the live commit path and a replay reach the same tree.
use vstd::prelude::*;

use crate::fs::meta::child;
use crate::fs::meta::empty_tree;
use crate::fs::meta::is_dir;
use crate::fs::meta::is_file;
use crate::fs::meta::Block;
use crate::fs::meta::BlockModel;
use crate::fs::meta::FileData;
use crate::fs::meta::FileModel;
use crate::fs::meta::FsTree;
use crate::fs::meta::Inode;
use crate::fs::meta::InodeModel;
use crate::fs::meta::Slice;
use crate::fs::meta::SliceModel;
use crate::fs::meta::TreeModel;
use crate::ordmap::OrdMap;

verus! {

/// One durable filesystem mutation.
#[derive(Clone, Debug, PartialEq, Eq)]
pub enum FsOp {
    /// Create a file or directory `ino` named `name` under the directory `parent`.
    Create { parent: u64, name: String, ino: u64, dir: bool },
    /// Append a slice to a file; an overwrite is a new, shadowing slice.
    Write { ino: u64, slice: Slice },
    /// Set a file's size, dropping what lies beyond it.
    Truncate { ino: u64, size: u64 },
    /// Remove `name` from the directory `parent`, with the whole subtree under it.
    Unlink { parent: u64, name: String },
    /// Move an entry, replacing any existing target (and its subtree).
    Rename { from_parent: u64, from: String, to_parent: u64, to: String },
    /// Reset the workspace to an empty tree.
    Destroyed,
}

#[verifier::ext_equal]
pub enum OpModel {
    Create { parent: u64, name: Seq<char>, ino: u64, dir: bool },
    Write { ino: u64, slice: SliceModel },
    Truncate { ino: u64, size: u64 },
    Unlink { parent: u64, name: Seq<char> },
    Rename { from_parent: u64, from: Seq<char>, to_parent: u64, to: Seq<char> },
    Destroyed,
}

impl DeepView for FsOp {
    type V = OpModel;

    open spec fn deep_view(&self) -> OpModel {
        match *self {
            FsOp::Create { parent, name, ino, dir } => OpModel::Create {
                parent,
                name: name@,
                ino,
                dir,
            },
            FsOp::Write { ino, slice } => OpModel::Write { ino, slice: slice.deep_view() },
            FsOp::Truncate { ino, size } => OpModel::Truncate { ino, size },
            FsOp::Unlink { parent, name } => OpModel::Unlink { parent, name: name@ },
            FsOp::Rename { from_parent, from, to_parent, to } => OpModel::Rename {
                from_parent,
                from: from@,
                to_parent,
                to: to@,
            },
            FsOp::Destroyed => OpModel::Destroyed,
        }
    }
}

// ---- Slices ----

/// The position after a slice's last byte.
pub open spec fn end_of(s: SliceModel) -> int {
    s.off + s.len
}

/// `t` was written after `s` and covers all of it.
pub open spec fn shadows(t: SliceModel, s: SliceModel) -> bool {
    t.seq > s.seq && t.off <= s.off && end_of(t) >= end_of(s)
}

pub open spec fn is_shadowed(slices: Seq<SliceModel>, s: SliceModel) -> bool {
    exists|j: int| 0 <= j < slices.len() && shadows(#[trigger] slices[j], s)
}

/// The slices that no later slice covers by itself, in their order.
pub open spec fn unshadowed(slices: Seq<SliceModel>) -> Seq<SliceModel> {
    slices.filter(|s: SliceModel| !is_shadowed(slices, s))
}

/// The first `n` bytes of a run of blocks: whole blocks, and the last one cut.
pub open spec fn clipped(blocks: Seq<BlockModel>, n: int) -> Seq<BlockModel>
    decreases blocks.len(),
{
    if blocks.len() == 0 || n <= 0 {
        seq![]
    } else {
        let take = if blocks[0].len <= n {
            blocks[0].len
        } else {
            n as u32
        };
        seq![BlockModel { id: blocks[0].id, len: take }] + clipped(blocks.skip(1), n - take)
    }
}

/// What a truncation to `size` leaves of a slice.
pub open spec fn clipped_slice(s: SliceModel, size: u64) -> Option<SliceModel> {
    if s.off >= size {
        None
    } else if end_of(s) > size {
        Some(
            SliceModel {
                seq: s.seq,
                off: s.off,
                len: (size - s.off) as u64,
                blocks: clipped(s.blocks, size - s.off),
            },
        )
    } else {
        Some(s)
    }
}

pub open spec fn max(a: u64, b: u64) -> u64 {
    if a >= b {
        a
    } else {
        b
    }
}

/// A file after one more slice.
pub open spec fn written(file: FileModel, slice: SliceModel) -> FileModel {
    FileModel {
        size: max(file.size, end_of(slice) as u64),
        next_seq: max(file.next_seq, (slice.seq + 1) as u64),
        slices: unshadowed(file.slices.push(slice)),
    }
}

/// A file cut (or grown) to `size`.
pub open spec fn truncated(file: FileModel, size: u64) -> FileModel {
    FileModel {
        size,
        next_seq: file.next_seq,
        slices: unshadowed(file.slices.filter_map(|s: SliceModel| clipped_slice(s, size))),
    }
}

// ---- The tree ----

pub open spec fn with_inode(t: TreeModel, ino: u64, inode: InodeModel) -> TreeModel {
    TreeModel { inodes: t.inodes.insert(ino, inode), next_ino: t.next_ino }
}

/// The tree with `name` in `parent` leading to `ino`, if `parent` is a directory.
pub open spec fn with_entry(t: TreeModel, parent: u64, name: Seq<char>, ino: u64) -> TreeModel {
    if is_dir(t, parent) {
        with_inode(t, parent, InodeModel::Dir(t.inodes[parent]->Dir_0.insert(name, ino)))
    } else {
        t
    }
}

/// The tree without the entry `name` of `parent`.
pub open spec fn without_entry(t: TreeModel, parent: u64, name: Seq<char>) -> TreeModel {
    if is_dir(t, parent) {
        with_inode(t, parent, InodeModel::Dir(t.inodes[parent]->Dir_0.remove(name)))
    } else {
        t
    }
}

/// Some entry of the directory `p` leads to `x`.
pub open spec fn links(inodes: Map<u64, InodeModel>, p: u64, x: u64) -> bool {
    &&& inodes.contains_key(p)
    &&& inodes[p] is Dir
    &&& exists|name: Seq<char>| #[trigger]
        inodes[p]->Dir_0.contains_key(name) && inodes[p]->Dir_0[name] == x
}

/// `x` is `n` entries below `root`.
pub open spec fn reaches(inodes: Map<u64, InodeModel>, root: u64, x: u64, n: nat) -> bool
    decreases n,
{
    if n == 0 {
        x == root
    } else {
        exists|p: u64|
            reaches(inodes, root, p, (n - 1) as nat) && #[trigger] links(inodes, p, x)
    }
}

/// `root` and everything below it.
pub open spec fn subtree(inodes: Map<u64, InodeModel>, root: u64) -> Set<u64> {
    Set::new(|x: u64| exists|n: nat| #[trigger] reaches(inodes, root, x, n))
}

/// The tree without `root` and everything below it.
pub open spec fn without_subtree(t: TreeModel, root: u64) -> TreeModel {
    TreeModel { inodes: t.inodes.remove_keys(subtree(t.inodes, root)), next_ino: t.next_ino }
}

/// A newly created inode.
pub open spec fn fresh_inode(dir: bool) -> InodeModel {
    if dir {
        InodeModel::Dir(Map::empty())
    } else {
        InodeModel::File(FileModel { size: 0, next_seq: 0, slices: seq![] })
    }
}

/// The tree after one op.
pub open spec fn applied(t: TreeModel, op: OpModel) -> TreeModel {
    match op {
        OpModel::Create { parent, name, ino, dir } => {
            let linked = with_entry(with_inode(t, ino, fresh_inode(dir)), parent, name, ino);
            TreeModel { inodes: linked.inodes, next_ino: max(t.next_ino, (ino + 1) as u64) }
        },
        OpModel::Write { ino, slice } => if is_file(t, ino) {
            with_inode(t, ino, InodeModel::File(written(t.inodes[ino]->File_0, slice)))
        } else {
            t
        },
        OpModel::Truncate { ino, size } => if is_file(t, ino) {
            with_inode(t, ino, InodeModel::File(truncated(t.inodes[ino]->File_0, size)))
        } else {
            t
        },
        OpModel::Unlink { parent, name } => match child(t, parent, name) {
            Some(ino) => without_subtree(without_entry(t, parent, name), ino),
            None => t,
        },
        OpModel::Rename { from_parent, from, to_parent, to } => match child(t, from_parent, from) {
            Some(ino) => {
                let taken = without_entry(t, from_parent, from);
                let placed = with_entry(taken, to_parent, to, ino);
                match child(taken, to_parent, to) {
                    Some(displaced) => without_subtree(placed, displaced),
                    None => placed,
                }
            },
            None => t,
        },
        OpModel::Destroyed => empty_tree(),
    }
}

/// The numbers an op mints have successors.
pub open spec fn in_range(t: TreeModel, op: OpModel) -> bool {
    match op {
        OpModel::Create { ino, .. } => ino < u64::MAX,
        OpModel::Write { ino, slice } => is_file(t, ino) ==> end_of(slice) <= u64::MAX && slice.seq
            < u64::MAX,
        _ => true,
    }
}

// ---- The fold ----

/// Whether `t` was written after `s` and covers all of it.
fn slice_shadows(t: &Slice, s: &Slice) -> (r: bool)
    ensures
        r == shadows(t.deep_view(), s.deep_view()),
{
    t.seq > s.seq && t.off <= s.off && t.off as u128 + t.len as u128 >= s.off as u128
        + s.len as u128
}

/// Drop every slice that a later slice covers by itself, so that repeated
/// whole-file rewrites keep one slice.
pub fn gc_slices(file: &mut FileData)
    ensures
        final(file).deep_view() == (FileModel {
            slices: unshadowed(old(file).deep_view().slices),
            ..old(file).deep_view()
        }),
{
    let mut kept: Vec<Slice> = Vec::new();
    let ghost all = file.slices.deep_view();
    let ghost keep = |s: SliceModel| !is_shadowed(all, s);
    let mut i: usize = 0;
    proof {
        reveal(Seq::filter);
        assert(kept.deep_view() =~= all.take(0).filter(keep));
    }
    while i < file.slices.len()
        invariant
            i <= file.slices@.len(),
            all == file.slices.deep_view(),
            all == old(file).slices.deep_view(),
            file.size == old(file).size,
            file.next_seq == old(file).next_seq,
            keep == (|s: SliceModel| !is_shadowed(all, s)),
            kept.deep_view() == all.take(i as int).filter(keep),
        decreases file.slices@.len() - i,
    {
        let ghost s = all[i as int];
        let mut shadowed: bool = false;
        let mut j: usize = 0;
        while j < file.slices.len() && !shadowed
            invariant
                i < file.slices@.len(),
                j <= file.slices@.len(),
                all == file.slices.deep_view(),
                s == all[i as int],
                shadowed ==> is_shadowed(all, s),
                !shadowed ==> forall|k: int| 0 <= k < j ==> !shadows(#[trigger] all[k], s),
            decreases file.slices@.len() - j,
        {
            if slice_shadows(&file.slices[j], &file.slices[i]) {
                assert(shadows(all[j as int], s));
                shadowed = true;
            }
            j = j + 1;
        }
        proof {
            reveal(Seq::filter);
            assert(all.take(i + 1).drop_last() =~= all.take(i as int));
            assert(all.take(i + 1).last() == s);
            assert(keep(s) == !is_shadowed(all, s));
        }
        if !shadowed {
            let slice = file.slices[i].dup();
            let ghost was = kept.deep_view();
            kept.push(slice);
            assert(kept.deep_view() =~= was.push(s));
        }
        i = i + 1;
    }
    assert(all.take(i as int) =~= all);
    file.slices = kept;
}

/// Keep the first `new_len` bytes of a run of blocks. The block ids stay: a clipped
/// block reads fewer of its blob's bytes.
pub fn clip_blocks(blocks: &mut Vec<Block>, new_len: u64)
    ensures
        final(blocks).deep_view() == clipped(old(blocks).deep_view(), new_len as int),
{
    let ghost all = blocks.deep_view();
    let mut left: u64 = new_len;
    let mut out: Vec<Block> = Vec::new();
    let mut i: usize = 0;
    assert(all.skip(0) =~= all);
    assert(out.deep_view() + clipped(all, new_len as int) =~= clipped(all, new_len as int));
    while i < blocks.len() && left > 0
        invariant
            i <= blocks@.len(),
            all == blocks.deep_view(),
            clipped(all, new_len as int) == out.deep_view() + clipped(all.skip(i as int), left as int),
        decreases blocks@.len() - i,
    {
        let len: u32 = blocks[i].len;
        let take: u32 = if len as u64 <= left {
            len
        } else {
            left as u32
        };
        let block = Block { id: blocks[i].id, len: take };
        let ghost was = out.deep_view();
        let ghost rest = all.skip(i as int);
        out.push(block);
        proof {
            assert(rest[0] == blocks@[i as int].deep_view());
            assert(rest.skip(1) =~= all.skip(i + 1));
            assert(out.deep_view() =~= was.push(block.deep_view()));
            assert(clipped(rest, left as int) == seq![block.deep_view()] + clipped(
                rest.skip(1),
                left - take,
            ));
            assert(was + clipped(rest, left as int) =~= out.deep_view() + clipped(
                all.skip(i + 1),
                left - take,
            ));
        }
        left = left - take as u64;
        i = i + 1;
    }
    proof {
        assert(clipped(all.skip(i as int), left as int) =~= seq![]);
        assert(out.deep_view() + Seq::<BlockModel>::empty() =~= out.deep_view());
    }
    *blocks = out;
}

/// Cut (or grow) a file to `size`: drop the slices that begin beyond it and clip
/// the ones that straddle it, so that a later grow reads the gap as zeros.
fn truncate_file(file: &mut FileData, size: u64)
    ensures
        final(file).deep_view() == truncated(old(file).deep_view(), size),
{
    let ghost all = file.slices.deep_view();
    let ghost cut = |s: SliceModel| clipped_slice(s, size);
    let mut kept: Vec<Slice> = Vec::new();
    let mut i: usize = 0;
    assert(kept.deep_view() =~= all.take(0).filter_map(cut));
    while i < file.slices.len()
        invariant
            i <= file.slices@.len(),
            all == file.slices.deep_view(),
            all == old(file).slices.deep_view(),
            file.next_seq == old(file).next_seq,
            cut == (|s: SliceModel| clipped_slice(s, size)),
            kept.deep_view() == all.take(i as int).filter_map(cut),
        decreases file.slices@.len() - i,
    {
        let ghost s = all[i as int];
        let ghost was = kept.deep_view();
        proof {
            assert(all.take(i + 1).drop_last() =~= all.take(i as int));
            assert(all.take(i + 1).last() == s);
            assert(cut(s) == clipped_slice(s, size));
        }
        if file.slices[i].off < size {
            let mut slice = file.slices[i].dup();
            if slice.off as u128 + slice.len as u128 > size as u128 {
                let new_len: u64 = size - slice.off;
                clip_blocks(&mut slice.blocks, new_len);
                slice.len = new_len;
            }
            assert(Some(slice.deep_view()) == clipped_slice(s, size));
            kept.push(slice);
            assert(kept.deep_view() =~= was.push(slice.deep_view()));
            assert(was + seq![slice.deep_view()] =~= was.push(slice.deep_view()));
        }
        i = i + 1;
    }
    assert(all.take(i as int) =~= all);
    file.slices = kept;
    file.size = size;
    gc_slices(file);
}

/// What the removal of everything below `root` must have removed: a set that is
/// closed under the directory entries holds the whole subtree.
proof fn lemma_closed_set(m: Map<u64, InodeModel>, root: u64, gone: Set<u64>, x: u64, n: nat)
    requires
        gone.contains(root) || !m.contains_key(root),
        forall|p: u64, c: u64| gone.contains(p) && #[trigger] links(m, p, c) ==> gone.contains(c)
            || !m.contains_key(c),
        reaches(m, root, x, n),
    ensures
        gone.contains(x) || !m.contains_key(x),
    decreases n,
{
    if n > 0 {
        let p = choose|p: u64|
            reaches(m, root, p, (n - 1) as nat) && #[trigger] links(m, p, x);
        lemma_closed_set(m, root, gone, p, (n - 1) as nat);
    }
}

/// Remove an inode and, if it is a directory, everything below it.
pub fn remove_subtree(tree: &mut FsTree, ino: u64)
    requires
        old(tree).wf(),
    ensures
        final(tree).wf(),
        final(tree).deep_view() == without_subtree(old(tree).deep_view(), ino),
{
    let ghost m0 = tree.inodes.deep_view();
    let ghost sub = subtree(m0, ino);
    let ghost mut gone: Set<u64> = Set::empty();
    let mut stack: Vec<u64> = Vec::new();
    stack.push(ino);
    proof {
        assert(reaches(m0, ino, ino, 0));
        assert(tree.inodes.deep_view() =~= m0.remove_keys(gone));
        assert(stack@[0] == ino);
        tree.inodes.lemma_keys();
    }
    while stack.len() > 0
        invariant
            tree.wf(),
            tree.next_ino == old(tree).next_ino,
            m0 == old(tree).inodes.deep_view(),
            sub == subtree(m0, ino),
            tree.inodes.deep_view() == m0.remove_keys(gone),
            forall|x: u64| #[trigger] gone.contains(x) ==> sub.contains(x) && m0.contains_key(x),
            forall|i: int| 0 <= i < stack@.len() ==> sub.contains(#[trigger] stack@[i]),
            gone.contains(ino) || !m0.contains_key(ino) || stack@.contains(ino),
            forall|p: u64, c: u64|
                gone.contains(p) && #[trigger] links(m0, p, c) ==> gone.contains(c)
                    || !m0.contains_key(c) || stack@.contains(c),
            tree.inodes@.dom().finite(),
        decreases tree.inodes@.dom().len(), stack@.len(),
    {
        let ghost before = *tree;
        let ghost was = stack@;
        let top: u64 = stack.pop().unwrap();
        proof {
            assert(was.last() == top);
            assert forall|c: u64| was.contains(c) && c != top implies stack@.contains(c) by {
                let i = was.index_of(c);
                assert(stack@[i] == c);
            }
        }
        match tree.inodes.remove(&top) {
            None => {
                assert(tree.inodes@ =~= before.inodes@);
                assert(!before.inodes.deep_view().contains_key(top));
            },
            Some(inode) => {
                let ghost held = gone;
                proof {
                    tree.inodes.lemma_keys();
                    before.inodes.lemma_keys();
                    assert(before.inodes@.contains_key(top));
                    assert(before.inodes.deep_view().contains_key(top));
                    assert(m0.remove_keys(held).contains_key(top));
                    assert(before.inodes.deep_view()[top] == inode.deep_view());
                    assert(m0[top] == inode.deep_view());
                    assert(tree.inodes.deep_view() =~= before.inodes.deep_view().remove(top));
                    gone = gone.insert(top);
                    assert(tree.inodes.deep_view() =~= m0.remove_keys(gone));
                    assert(sub.contains(top));
                }
                match &inode {
                    Inode::File(_) => {
                        assert(forall|c: u64| !links(m0, top, c));
                    },
                    Inode::Dir(entries) => {
                        let ghost m = entries.deep_view();
                        let n: usize = entries.len();
                        let ghost keys = entries.key_seq();
                        let ghost base = stack@;
                        let mut i: usize = 0;
                        assert(entries.wf());
                        while i < n
                            invariant
                                entries.wf(),
                                m == entries.deep_view(),
                                keys == entries.key_seq(),
                                n == keys.len(),
                                i <= n,
                                m0.contains_key(top),
                                m0[top] == InodeModel::Dir(m),
                                sub == subtree(m0, ino),
                                sub.contains(top),
                                base.len() <= stack@.len(),
                                forall|j: int| 0 <= j < base.len() ==> stack@[j] == base[j],
                                forall|j: int| 0 <= j < stack@.len() ==> sub.contains(
                                    #[trigger] stack@[j],
                                ),
                                forall|j: int|
                                    0 <= j < i ==> stack@.contains(m[#[trigger] keys[j]]),
                            decreases n - i,
                        {
                            let next: u64 = *entries.value_at(i);
                            let ghost pre = stack@;
                            stack.push(next);
                            proof {
                                let k = keys[i as int];
                                assert(m.contains_key(k) && m[k] == next);
                                assert(m0[top]->Dir_0.contains_key(k));
                                assert(links(m0, top, next));
                                let d = choose|d: nat| #[trigger] reaches(m0, ino, top, d);
                                assert(reaches(m0, ino, next, d + 1));
                                assert(sub.contains(next));
                                assert(stack@[pre.len() as int] == next);
                                assert forall|j: int| 0 <= j < i + 1 implies stack@.contains(
                                    m[#[trigger] keys[j]],
                                ) by {
                                    if j < i {
                                        let at = pre.index_of(m[keys[j]]);
                                        assert(stack@[at] == m[keys[j]]);
                                    }
                                }
                            }
                            i = i + 1;
                        }
                        proof {
                            entries.lemma_keys();
                            assert forall|c: u64| links(m0, top, c) implies stack@.contains(c) by {
                                let name = choose|name: Seq<char>| #[trigger]
                                    m.contains_key(name) && m[name] == c;
                                assert(entries@.contains_key(name));
                                let j = keys.index_of(name);
                                assert(keys[j] == name);
                            }
                            assert forall|c: u64| base.contains(c) implies stack@.contains(c) by {
                                let j = base.index_of(c);
                                assert(stack@[j] == c);
                            }
                        }
                    },
                }
            },
        }
    }
    proof {
        assert forall|x: u64| m0.contains_key(x) && sub.contains(x) implies gone.contains(x) by {
            let n = choose|n: nat| #[trigger] reaches(m0, ino, x, n);
            lemma_closed_set(m0, ino, gone, x, n);
        }
        assert(m0.remove_keys(gone) =~= m0.remove_keys(sub));
    }
}

/// Let `name` in the directory `parent` lead to `ino`, handing back what it led to.
fn insert_entry(tree: &mut FsTree, parent: u64, name: String, ino: u64) -> (r: Option<u64>)
    requires
        old(tree).wf(),
    ensures
        final(tree).wf(),
        final(tree).deep_view() == with_entry(old(tree).deep_view(), parent, name@, ino),
        r == child(old(tree).deep_view(), parent, name@),
{
    let ghost t = tree.deep_view();
    let ghost label = name@;
    let mut displaced: Option<u64> = None;
    match tree.inodes.get_mut(&parent) {
        Some(inode) => {
            if let Inode::Dir(entries) = inode {
                let ghost m = entries.deep_view();
                displaced = entries.insert(name, ino);
                assert(entries.deep_view() =~= m.insert(label, ino));
            }
        },
        None => {},
    }
    assert(tree.deep_view().inodes =~= with_entry(t, parent, label, ino).inodes);
    displaced
}

/// Take `name` out of the directory `parent`, handing back what it led to.
fn remove_entry(tree: &mut FsTree, parent: u64, name: &String) -> (r: Option<u64>)
    requires
        old(tree).wf(),
    ensures
        final(tree).wf(),
        final(tree).deep_view() == without_entry(old(tree).deep_view(), parent, name@),
        r == child(old(tree).deep_view(), parent, name@),
{
    let ghost t = tree.deep_view();
    let mut found: Option<u64> = None;
    match tree.inodes.get_mut(&parent) {
        Some(inode) => {
            if let Inode::Dir(entries) = inode {
                let ghost m = entries.deep_view();
                found = entries.remove(name);
                assert(entries.deep_view() =~= m.remove(name@));
            }
        },
        None => {},
    }
    assert(tree.deep_view().inodes =~= without_entry(t, parent, name@).inodes);
    found
}

/// Taking out an entry that is not there changes nothing.
proof fn lemma_absent_entry(t: TreeModel, parent: u64, name: Seq<char>)
    requires
        child(t, parent, name) is None,
    ensures
        without_entry(t, parent, name) == t,
{
    if is_dir(t, parent) {
        let entries = t.inodes[parent]->Dir_0;
        assert(entries.remove(name) =~= entries);
        assert(t.inodes.insert(parent, InodeModel::Dir(entries)) =~= t.inodes);
    }
}

/// Fold one op into the tree.
pub fn apply(tree: &mut FsTree, op: &FsOp)
    requires
        old(tree).wf(),
        in_range(old(tree).deep_view(), op.deep_view()),
    ensures
        final(tree).wf(),
        final(tree).deep_view() == applied(old(tree).deep_view(), op.deep_view()),
{
    let ghost t = tree.deep_view();
    match op {
        FsOp::Create { parent, name, ino, dir } => {
            let inode = if *dir {
                let entries: OrdMap<String, u64> = OrdMap::new();
                assert(entries.deep_view() =~= Map::<Seq<char>, u64>::empty());
                Inode::Dir(entries)
            } else {
                Inode::File(FileData::empty())
            };
            assert(inode.deep_view() == fresh_inode(*dir));
            tree.inodes.insert(*ino, inode);
            assert(tree.deep_view().inodes =~= with_inode(t, *ino, fresh_inode(*dir)).inodes);
            insert_entry(tree, *parent, name.clone(), *ino);
            if tree.next_ino < *ino + 1 {
                tree.next_ino = *ino + 1;
            }
        },
        FsOp::Write { ino, slice } => {
            match tree.inodes.get_mut(ino) {
                Some(inode) => {
                    if let Inode::File(file) = inode {
                        let ghost f = file.deep_view();
                        let copy = slice.dup();
                        let end: u64 = slice.off + slice.len;
                        if file.size < end {
                            file.size = end;
                        }
                        if file.next_seq < slice.seq + 1 {
                            file.next_seq = slice.seq + 1;
                        }
                        file.slices.push(copy);
                        assert(file.slices.deep_view() =~= f.slices.push(slice.deep_view()));
                        gc_slices(file);
                        assert(file.deep_view() =~= written(f, slice.deep_view()));
                    }
                },
                None => {},
            }
            assert(tree.deep_view().inodes =~= applied(t, op.deep_view()).inodes);
        },
        FsOp::Truncate { ino, size } => {
            match tree.inodes.get_mut(ino) {
                Some(inode) => {
                    if let Inode::File(file) = inode {
                        truncate_file(file, *size);
                    }
                },
                None => {},
            }
            assert(tree.deep_view().inodes =~= applied(t, op.deep_view()).inodes);
        },
        FsOp::Unlink { parent, name } => {
            match remove_entry(tree, *parent, name) {
                Some(ino) => {
                    remove_subtree(tree, ino);
                },
                None => {
                    proof {
                        lemma_absent_entry(t, *parent, name@);
                    }
                },
            }
        },
        FsOp::Rename { from_parent, from, to_parent, to } => {
            match remove_entry(tree, *from_parent, from) {
                Some(ino) => {
                    if let Some(displaced) = insert_entry(tree, *to_parent, to.clone(), ino) {
                        remove_subtree(tree, displaced);
                    }
                },
                None => {
                    proof {
                        lemma_absent_entry(t, *from_parent, from@);
                    }
                },
            }
        },
        FsOp::Destroyed => {
            *tree = FsTree::default();
        },
    }
}

} // verus!
