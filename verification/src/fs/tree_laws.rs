//! What holds of the tree: every op keeps it sound, a written file is found and read
//! back, and what is moved is found where it went.
use vstd::prelude::*;

use crate::fs::chunk::slice_for;
use crate::fs::facet::applied_all;
use crate::fs::facet::found;
use crate::fs::facet::no_dirs;
use crate::fs::facet::plan_dirs;
use crate::fs::facet::plan_remove;
use crate::fs::facet::plan_rename;
use crate::fs::facet::plan_write;
use crate::fs::facet::write_ops;
use crate::fs::facet::DirsModel;
use crate::fs::facet::WriteModel;
use crate::fs::grain::FsError;
use crate::fs::laws::chunks_stored;
use crate::fs::laws::law_a_written_file_reads_back;
use crate::fs::laws::read_result;
use crate::fs::laws::Store;
use crate::fs::meta::child;
use crate::fs::meta::climbs;
use crate::fs::meta::empty_tree;
use crate::fs::meta::is_dir;
use crate::fs::meta::is_file;
use crate::fs::meta::is_live;
use crate::fs::meta::parent_of;
use crate::fs::meta::path_parts;
use crate::fs::meta::refers;
use crate::fs::meta::resolved;
use crate::fs::meta::walk;
use crate::fs::meta::FileModel;
use crate::fs::meta::InodeModel;
use crate::fs::meta::SliceModel;
use crate::fs::meta::TreeModel;
use crate::fs::meta::ROOT;
use crate::fs::op::applied;
use crate::fs::op::clipped_slice;
use crate::fs::op::fresh_inode;
use crate::fs::op::in_range;
use crate::fs::op::links;
use crate::fs::op::reaches;
use crate::fs::op::subtree;
use crate::fs::op::truncated;
use crate::fs::op::unshadowed;
use crate::fs::op::with_entry;
use crate::fs::op::with_inode;
use crate::fs::op::without_entry;
use crate::fs::op::without_subtree;
use crate::fs::op::written;
use crate::fs::op::OpModel;

verus! {

/// A sound tree: the root is a directory that no entry leads to, every inode was
/// minted before the counter, every entry leads to an inode, no two entries lead to the
/// same one, and every inode is found by going down from the root.
pub open spec fn sound(t: TreeModel) -> bool {
    &&& shaped(t)
    &&& all_reachable(t)
}

/// A sound tree, but that some inodes may be cut off.
pub open spec fn shaped(t: TreeModel) -> bool {
    &&& is_dir(t, ROOT)
    &&& minted(t)
    &&& targets_exist(t)
    &&& one_entry_each(t)
}

pub open spec fn all_reachable(t: TreeModel) -> bool {
    forall|ino: u64| #[trigger]
        t.inodes.contains_key(ino) ==> subtree(t.inodes, ROOT).contains(ino)
}

pub open spec fn minted(t: TreeModel) -> bool {
    forall|ino: u64| #[trigger] t.inodes.contains_key(ino) ==> ino < t.next_ino
}

pub open spec fn targets_exist(t: TreeModel) -> bool {
    forall|dir: u64, name: Seq<char>|
        (#[trigger] child(t, dir, name)) is Some ==> t.inodes.contains_key(child(t, dir, name)->0)
            && child(t, dir, name)->0 != ROOT
}

pub open spec fn one_entry_each(t: TreeModel) -> bool {
    forall|d1: u64, n1: Seq<char>, d2: u64, n2: Seq<char>|
        (#[trigger] child(t, d1, n1)) is Some && child(t, d1, n1) == #[trigger] child(t, d2, n2)
            ==> d1 == d2 && n1 == n2
}

/// A create mints a fresh inode and enters it where nothing is entered; a move goes to a
/// directory that does not lie in what moves.
pub open spec fn well_placed(t: TreeModel, op: OpModel) -> bool {
    match op {
        OpModel::Create { parent, name, ino, .. } => is_dir(t, parent) && child(
            t,
            parent,
            name,
        ) is None && t.next_ino <= ino,
        OpModel::Rename { from_parent, from, to_parent, .. } => match child(t, from_parent, from) {
            Some(ino) => is_dir(t, to_parent) && !subtree(t.inodes, ino).contains(to_parent),
            None => true,
        },
        _ => true,
    }
}

// ---- Going up and down ----

/// A link is an entry.
proof fn lemma_link(t: TreeModel, p: u64, x: u64) -> (name: Seq<char>)
    requires
        links(t.inodes, p, x),
    ensures
        child(t, p, name) == Some(x),
{
    let name = choose|name: Seq<char>| #[trigger]
        t.inodes[p]->Dir_0.contains_key(name) && t.inodes[p]->Dir_0[name] == x;
    name
}

/// An entry is a link.
proof fn lemma_entry_links(t: TreeModel, p: u64, name: Seq<char>, x: u64)
    requires
        child(t, p, name) == Some(x),
    ensures
        links(t.inodes, p, x),
{
    assert(t.inodes[p]->Dir_0.contains_key(name) && t.inodes[p]->Dir_0[name] == x);
}

/// Nothing is entered twice.
proof fn lemma_one_parent(t: TreeModel, p: u64, q: u64, x: u64)
    requires
        shaped(t),
        links(t.inodes, p, x),
        links(t.inodes, q, x),
    ensures
        p == q,
        x != ROOT,
{
    let a = lemma_link(t, p, x);
    let b = lemma_link(t, q, x);
    assert(child(t, p, a) == child(t, q, b));
}

proof fn lemma_reaches_further(m: Map<u64, InodeModel>, a: u64, b: u64, c: u64, i: nat, j: nat)
    requires
        reaches(m, a, b, i),
        reaches(m, b, c, j),
    ensures
        reaches(m, a, c, i + j),
    decreases j,
{
    if j > 0 {
        let p = choose|p: u64| reaches(m, b, p, (j - 1) as nat) && #[trigger] links(m, p, c);
        lemma_reaches_further(m, a, b, p, i, (j - 1) as nat);
        assert(reaches(m, a, p, (i + j - 1) as nat) && links(m, p, c));
    }
}

/// One more step down.
proof fn lemma_step(m: Map<u64, InodeModel>, root: u64, p: u64, x: u64, n: nat)
    requires
        reaches(m, root, p, n),
        links(m, p, x),
    ensures
        reaches(m, root, x, n + 1),
        subtree(m, root).contains(x),
{
    assert(reaches(m, root, p, (n + 1 - 1) as nat) && links(m, p, x));
    assert(reaches(m, root, x, n + 1));
}

/// Of two that an inode lies below, the one further up has the other below it.
proof fn lemma_reaches_between(t: TreeModel, a: u64, b: u64, x: u64, i: nat, j: nat)
    requires
        shaped(t),
        reaches(t.inodes, a, x, i),
        reaches(t.inodes, b, x, j),
        i <= j,
    ensures
        reaches(t.inodes, b, a, (j - i) as nat),
    decreases i,
{
    let m = t.inodes;
    if i > 0 {
        let p = choose|p: u64| reaches(m, a, p, (i - 1) as nat) && #[trigger] links(m, p, x);
        let q = choose|q: u64| reaches(m, b, q, (j - 1) as nat) && #[trigger] links(m, q, x);
        lemma_one_parent(t, p, q, x);
        lemma_reaches_between(t, a, b, p, (i - 1) as nat, (j - 1) as nat);
    }
}

/// An inode that is found from the root lies below nothing that lies below it.
proof fn lemma_no_cycle(t: TreeModel, x: u64, n: nat, k: nat)
    requires
        shaped(t),
        reaches(t.inodes, ROOT, x, n),
        reaches(t.inodes, x, x, k),
    ensures
        k == 0,
    decreases n,
{
    if k > 0 {
        let m = t.inodes;
        if n == 0 {
            let p = choose|p: u64| reaches(m, x, p, (k - 1) as nat) && #[trigger] links(m, p, x);
            lemma_one_parent(t, p, p, x);
        } else {
            let p = choose|p: u64| reaches(m, ROOT, p, (n - 1) as nat) && #[trigger] links(m, p, x);
            let q = choose|q: u64| reaches(m, x, q, (k - 1) as nat) && #[trigger] links(m, q, x);
            lemma_one_parent(t, p, q, x);
            lemma_step(m, p, p, x, 0);
            lemma_reaches_further(m, p, x, p, 1, (k - 1) as nat);
            lemma_no_cycle(t, p, (n - 1) as nat, k);
        }
    }
}

/// Where every link of one table is in another, what is below an inode stays below it.
proof fn lemma_reaches_kept(
    m: Map<u64, InodeModel>,
    more: Map<u64, InodeModel>,
    root: u64,
    x: u64,
    n: nat,
)
    requires
        forall|p: u64, c: u64| #[trigger] links(m, p, c) ==> links(more, p, c),
        reaches(m, root, x, n),
    ensures
        reaches(more, root, x, n),
    decreases n,
{
    if n > 0 {
        let p = choose|p: u64| reaches(m, root, p, (n - 1) as nat) && #[trigger] links(m, p, x);
        lemma_reaches_kept(m, more, root, p, (n - 1) as nat);
        assert(reaches(more, root, p, (n - 1) as nat) && links(more, p, x));
    }
}

/// Where one table has every link of another but for those to `lost`, what was below an
/// inode is below it still, or below `lost`.
proof fn lemma_reaches_or_lost(
    m: Map<u64, InodeModel>,
    less: Map<u64, InodeModel>,
    root: u64,
    lost: u64,
    x: u64,
    n: nat,
)
    requires
        forall|p: u64, c: u64| #[trigger] links(m, p, c) && c != lost ==> links(less, p, c),
        reaches(m, root, x, n),
    ensures
        subtree(less, root).contains(x) || subtree(less, lost).contains(x),
    decreases n,
{
    if n == 0 {
        assert(reaches(less, root, x, 0));
    } else {
        let p = choose|p: u64| reaches(m, root, p, (n - 1) as nat) && #[trigger] links(m, p, x);
        lemma_reaches_or_lost(m, less, root, lost, p, (n - 1) as nat);
        if x == lost {
            assert(reaches(less, lost, x, 0));
        } else if subtree(less, root).contains(p) {
            let k = choose|k: nat| #[trigger] reaches(less, root, p, k);
            lemma_step(less, root, p, x, k);
        } else {
            let k = choose|k: nat| #[trigger] reaches(less, lost, p, k);
            lemma_step(less, lost, p, x, k);
        }
    }
}

/// What is found from the root, and does not lie below what is removed, is found still.
proof fn lemma_reaches_after_removal(t: TreeModel, top: u64, x: u64, n: nat)
    requires
        reaches(t.inodes, ROOT, x, n),
        !subtree(t.inodes, top).contains(x),
    ensures
        reaches(without_subtree(t, top).inodes, ROOT, x, n),
    decreases n,
{
    let m = t.inodes;
    let less = without_subtree(t, top).inodes;
    if n > 0 {
        let p = choose|p: u64| reaches(m, ROOT, p, (n - 1) as nat) && #[trigger] links(m, p, x);
        if subtree(m, top).contains(p) {
            let k = choose|k: nat| #[trigger] reaches(m, top, p, k);
            lemma_step(m, top, p, x, k);
        }
        lemma_reaches_after_removal(t, top, p, (n - 1) as nat);
        let name = lemma_link(t, p, x);
        assert(less.contains_key(p) && less[p] == m[p]);
        assert(less[p]->Dir_0.contains_key(name) && less[p]->Dir_0[name] == x);
        assert(reaches(less, ROOT, p, (n - 1) as nat) && links(less, p, x));
    }
}

/// Removing a subtree that no entry leads to leaves no entry dangling.
proof fn lemma_without_subtree_shaped(t: TreeModel, top: u64)
    requires
        shaped(t),
        top != ROOT,
        forall|dir: u64, name: Seq<char>| #[trigger] child(t, dir, name) != Some(top),
    ensures
        shaped(without_subtree(t, top)),
{
    let gone = subtree(t.inodes, top);
    let after = without_subtree(t, top);
    assert(!gone.contains(ROOT)) by {
        if gone.contains(ROOT) {
            let n = choose|n: nat| #[trigger] reaches(t.inodes, top, ROOT, n);
            if n > 0 {
                let p = choose|p: u64|
                    reaches(t.inodes, top, p, (n - 1) as nat) && #[trigger] links(
                        t.inodes,
                        p,
                        ROOT,
                    );
                let name = choose|name: Seq<char>| #[trigger]
                    t.inodes[p]->Dir_0.contains_key(name) && t.inodes[p]->Dir_0[name] == ROOT;
                assert(child(t, p, name) == Some(ROOT));
            }
        }
    }
    assert forall|dir: u64, name: Seq<char>| (#[trigger] child(after, dir, name)) is Some implies
        child(after, dir, name) == child(t, dir, name) by {}
    assert forall|dir: u64, name: Seq<char>| (#[trigger] child(after, dir, name)) is Some implies
        after.inodes.contains_key(child(after, dir, name)->0) && child(after, dir, name)->0
        != ROOT by {
        let c = child(t, dir, name)->0;
        assert(child(t, dir, name) == Some(c));
        if gone.contains(c) {
            let n = choose|n: nat| #[trigger] reaches(t.inodes, top, c, n);
            if n == 0 {
                assert(c == top);
            } else {
                let p = choose|p: u64|
                    reaches(t.inodes, top, p, (n - 1) as nat) && #[trigger] links(t.inodes, p, c);
                let other = choose|other: Seq<char>| #[trigger]
                    t.inodes[p]->Dir_0.contains_key(other) && t.inodes[p]->Dir_0[other] == c;
                assert(child(t, p, other) == Some(c));
                assert(p == dir);
                assert(gone.contains(p));
            }
        }
    }
    assert forall|d1: u64, n1: Seq<char>, d2: u64, n2: Seq<char>|
        (#[trigger] child(after, d1, n1)) is Some && child(after, d1, n1) == #[trigger] child(
            after,
            d2,
            n2,
        ) implies d1 == d2 && n1 == n2 by {
        assert(child(t, d1, n1) == child(t, d2, n2));
    }
}

/// The children of a tree with one more entry.
proof fn lemma_with_entry(t: TreeModel, parent: u64, name: Seq<char>, ino: u64)
    requires
        is_dir(t, parent),
    ensures
        forall|d: u64, n: Seq<char>| #[trigger]
            child(with_entry(t, parent, name, ino), d, n) == if d == parent && n == name {
                Some(ino)
            } else {
                child(t, d, n)
            },
{
}

proof fn lemma_without_entry(t: TreeModel, parent: u64, name: Seq<char>)
    requires
        is_dir(t, parent),
    ensures
        forall|d: u64, n: Seq<char>| #[trigger]
            child(without_entry(t, parent, name), d, n) == if d == parent && n == name {
                None
            } else {
                child(t, d, n)
            },
{
}

/// Every op keeps a tree's shape, given that a create is fresh.
proof fn lemma_ops_keep_the_shape(t: TreeModel, op: OpModel)
    requires
        shaped(t),
        in_range(t, op),
        well_placed(t, op),
    ensures
        shaped(applied(t, op)),
{
    let after = applied(t, op);
    match op {
        OpModel::Create { parent, name, ino, dir } => {
            let with = with_inode(t, ino, fresh_inode(dir));
            assert(!t.inodes.contains_key(ino));
            assert(!t.inodes.contains_key(ROOT) || ino != ROOT);
            assert forall|d: u64, n: Seq<char>| #[trigger] child(with, d, n) == child(t, d, n) by {}
            lemma_with_entry(with, parent, name, ino);
            assert forall|d: u64, n: Seq<char>| #[trigger] child(after, d, n) == if d == parent && n
                == name {
                Some(ino)
            } else {
                child(t, d, n)
            } by {
                assert(child(after, d, n) == child(with_entry(with, parent, name, ino), d, n));
            }
            assert forall|d: u64, n: Seq<char>| (#[trigger] child(after, d, n)) is Some implies
                after.inodes.contains_key(child(after, d, n)->0) && child(after, d, n)->0
                != ROOT by {
                if !(d == parent && n == name) {
                    assert(child(t, d, n) is Some);
                }
            }
            assert forall|d1: u64, n1: Seq<char>, d2: u64, n2: Seq<char>|
                (#[trigger] child(after, d1, n1)) is Some && child(after, d1, n1)
                    == #[trigger] child(after, d2, n2) implies d1 == d2 && n1 == n2 by {
                assert(child(t, d1, n1) is Some ==> child(t, d1, n1)->0 != ino);
                assert(child(t, d2, n2) is Some ==> child(t, d2, n2)->0 != ino);
            }
        },
        OpModel::Write { ino, .. } => {
            assert forall|d: u64, n: Seq<char>| #[trigger] child(after, d, n) == child(t, d, n) by {}
        },
        OpModel::Truncate { ino, .. } => {
            assert forall|d: u64, n: Seq<char>| #[trigger] child(after, d, n) == child(t, d, n) by {}
        },
        OpModel::Unlink { parent, name } => {
            if let Some(ino) = child(t, parent, name) {
                let cut = without_entry(t, parent, name);
                lemma_without_entry(t, parent, name);
                assert forall|d: u64, n: Seq<char>| #[trigger] child(cut, d, n) != Some(ino) by {
                    if child(cut, d, n) == Some(ino) {
                        assert(child(t, d, n) == child(t, parent, name));
                    }
                }
                assert forall|d: u64, n: Seq<char>| (#[trigger] child(cut, d, n)) is Some implies
                    cut.inodes.contains_key(child(cut, d, n)->0) && child(cut, d, n)->0 != ROOT by {
                    assert(child(t, d, n) is Some);
                }
                assert forall|d1: u64, n1: Seq<char>, d2: u64, n2: Seq<char>|
                    (#[trigger] child(cut, d1, n1)) is Some && child(cut, d1, n1)
                        == #[trigger] child(cut, d2, n2) implies d1 == d2 && n1 == n2 by {
                    assert(child(t, d1, n1) == child(t, d2, n2));
                }
                lemma_without_subtree_shaped(cut, ino);
            }
        },
        OpModel::Rename { from_parent, from, to_parent, to } => {
            if let Some(ino) = child(t, from_parent, from) {
                lemma_rename_keeps_the_shape(t, from_parent, from, to_parent, to, ino);
            }
        },
        OpModel::Destroyed => {
            law_an_empty_tree_is_sound();
        },
    }
}

proof fn lemma_rename_keeps_the_shape(
    t: TreeModel,
    from_parent: u64,
    from: Seq<char>,
    to_parent: u64,
    to: Seq<char>,
    ino: u64,
)
    requires
        shaped(t),
        child(t, from_parent, from) == Some(ino),
    ensures
        shaped(applied(t, OpModel::Rename { from_parent, from, to_parent, to })),
        shaped(without_entry(t, from_parent, from)),
        is_dir(t, to_parent) ==> shaped(
            with_entry(without_entry(t, from_parent, from), to_parent, to, ino),
        ),
{
    let cut = without_entry(t, from_parent, from);
    lemma_without_entry(t, from_parent, from);
    assert forall|d: u64, n: Seq<char>| #[trigger] child(cut, d, n) != Some(ino) by {
        if child(cut, d, n) == Some(ino) {
            assert(child(t, d, n) == child(t, from_parent, from));
        }
    }
    assert(is_dir(cut, to_parent) == is_dir(t, to_parent));
    assert(shaped(cut)) by {
        assert forall|d: u64, n: Seq<char>| (#[trigger] child(cut, d, n)) is Some implies
            cut.inodes.contains_key(child(cut, d, n)->0) && child(cut, d, n)->0 != ROOT by {
            assert(child(t, d, n) is Some);
        }
        assert forall|d1: u64, n1: Seq<char>, d2: u64, n2: Seq<char>|
            (#[trigger] child(cut, d1, n1)) is Some && child(cut, d1, n1) == #[trigger] child(
                cut,
                d2,
                n2,
            ) implies d1 == d2 && n1 == n2 by {
            assert(child(t, d1, n1) == child(t, d2, n2));
        }
    }
    if is_dir(cut, to_parent) {
        let placed = with_entry(cut, to_parent, to, ino);
        lemma_with_entry(cut, to_parent, to, ino);
        assert(shaped(placed)) by {
            assert forall|d: u64, n: Seq<char>| (#[trigger] child(placed, d, n)) is Some implies
                placed.inodes.contains_key(child(placed, d, n)->0) && child(placed, d, n)->0
                != ROOT by {
                if !(d == to_parent && n == to) {
                    assert(child(cut, d, n) is Some);
                } else {
                    assert(child(t, from_parent, from) is Some);
                }
            }
            assert forall|d1: u64, n1: Seq<char>, d2: u64, n2: Seq<char>|
                (#[trigger] child(placed, d1, n1)) is Some && child(placed, d1, n1)
                    == #[trigger] child(placed, d2, n2) implies d1 == d2 && n1 == n2 by {
                assert(child(cut, d1, n1) != Some(ino));
                assert(child(cut, d2, n2) != Some(ino));
                if !(d1 == to_parent && n1 == to) && !(d2 == to_parent && n2 == to) {
                    assert(child(cut, d1, n1) == child(cut, d2, n2));
                }
            }
        }
        if let Some(displaced) = child(cut, to_parent, to) {
            assert forall|d: u64, n: Seq<char>| #[trigger] child(placed, d, n) != Some(
                displaced,
            ) by {
                if child(placed, d, n) == Some(displaced) {
                    assert(child(cut, to_parent, to) != Some(ino));
                    assert(child(cut, d, n) == child(cut, to_parent, to));
                }
            }
            lemma_without_subtree_shaped(placed, displaced);
        }
    }
}

/// What a move makes of the tree before the displaced target goes: the target's parent
/// is still found from the root, and does not lie below the displaced target.
proof fn lemma_placed(
    t: TreeModel,
    from_parent: u64,
    from: Seq<char>,
    to_parent: u64,
    to: Seq<char>,
    ino: u64,
)
    requires
        sound(t),
        child(t, from_parent, from) == Some(ino),
        is_dir(t, to_parent),
        !subtree(t.inodes, ino).contains(to_parent),
    ensures
        ({
            let cut = without_entry(t, from_parent, from);
            let placed = with_entry(cut, to_parent, to, ino);
            let displaced = child(cut, to_parent, to);
            &&& shaped(placed)
            &&& subtree(placed.inodes, ROOT).contains(to_parent)
            &&& subtree(placed.inodes, ROOT).contains(ino)
            &&& displaced != Some(ino)
            &&& displaced is Some ==> !subtree(placed.inodes, displaced->0).contains(to_parent)
            &&& forall|x: u64| #[trigger]
                t.inodes.contains_key(x) ==> subtree(placed.inodes, ROOT).contains(x)
                    || displaced is Some && subtree(placed.inodes, displaced->0).contains(x)
        }),
{
    let cut = without_entry(t, from_parent, from);
    let placed = with_entry(cut, to_parent, to, ino);
    let displaced = child(cut, to_parent, to);
    let lost = match displaced {
        Some(d) => d,
        None => ino,
    };
    lemma_rename_keeps_the_shape(t, from_parent, from, to_parent, to, ino);
    lemma_without_entry(t, from_parent, from);
    assert(is_dir(cut, to_parent));
    lemma_with_entry(cut, to_parent, to, ino);
    assert forall|p: u64, x: u64| #[trigger] links(cut.inodes, p, x) implies links(
        t.inodes,
        p,
        x,
    ) by {
        let name = lemma_link(cut, p, x);
        lemma_entry_links(t, p, name, x);
    }
    assert forall|p: u64, x: u64| #[trigger] links(t.inodes, p, x) && x != ino implies links(
        cut.inodes,
        p,
        x,
    ) by {
        let name = lemma_link(t, p, x);
        lemma_entry_links(cut, p, name, x);
    }
    assert forall|p: u64, x: u64| #[trigger] links(cut.inodes, p, x) && x != lost implies links(
        placed.inodes,
        p,
        x,
    ) by {
        let name = lemma_link(cut, p, x);
        lemma_entry_links(placed, p, name, x);
    }
    assert forall|p: u64, x: u64| #[trigger] links(placed.inodes, p, x) && p
        != to_parent implies links(cut.inodes, p, x) by {
        let name = lemma_link(placed, p, x);
        lemma_entry_links(cut, p, name, x);
    }
    assert(child(cut, to_parent, to) != Some(ino)) by {
        if child(cut, to_parent, to) == Some(ino) {
            assert(child(t, to_parent, to) == child(t, from_parent, from));
        }
    }
    // The target's parent does not move.
    assert(t.inodes.contains_key(to_parent));
    let n = choose|n: nat| #[trigger] reaches(t.inodes, ROOT, to_parent, n);
    lemma_reaches_or_lost(t.inodes, cut.inodes, ROOT, ino, to_parent, n);
    assert(!subtree(cut.inodes, ino).contains(to_parent)) by {
        if subtree(cut.inodes, ino).contains(to_parent) {
            let k = choose|k: nat| #[trigger] reaches(cut.inodes, ino, to_parent, k);
            lemma_reaches_kept(cut.inodes, t.inodes, ino, to_parent, k);
        }
    }
    let n = choose|n: nat| #[trigger] reaches(cut.inodes, ROOT, to_parent, n);
    if let Some(d) = displaced {
        if subtree(placed.inodes, d).contains(to_parent) {
            let k = choose|k: nat| #[trigger] reaches(placed.inodes, d, to_parent, k);
            lemma_reaches_through(cut.inodes, placed.inodes, to_parent, d, to_parent, k);
            let j = choose|j: nat| #[trigger] reaches(cut.inodes, d, to_parent, j);
            lemma_entry_links(cut, to_parent, to, d);
            lemma_step(cut.inodes, to_parent, to_parent, d, 0);
            lemma_reaches_further(cut.inodes, to_parent, d, to_parent, 1, j);
            lemma_no_cycle(cut, to_parent, n, 1 + j);
        }
    }
    lemma_entry_links(placed, to_parent, to, ino);
    lemma_reaches_or_lost(cut.inodes, placed.inodes, ROOT, lost, to_parent, n);
    if !subtree(placed.inodes, ROOT).contains(to_parent) {
        // Without a displaced target every link is kept.
        assert(displaced is None);
        assert forall|p: u64, x: u64| #[trigger] links(cut.inodes, p, x) implies links(
            placed.inodes,
            p,
            x,
        ) by {
            let name = lemma_link(cut, p, x);
            lemma_entry_links(placed, p, name, x);
        }
        lemma_reaches_kept(cut.inodes, placed.inodes, ROOT, to_parent, n);
    }
    let n = choose|n: nat| #[trigger] reaches(placed.inodes, ROOT, to_parent, n);
    lemma_step(placed.inodes, ROOT, to_parent, ino, n);
    let top = choose|top: nat| #[trigger] reaches(placed.inodes, ROOT, ino, top);
    assert forall|x: u64| #[trigger] t.inodes.contains_key(x) implies subtree(
        placed.inodes,
        ROOT,
    ).contains(x) || displaced is Some && subtree(placed.inodes, displaced->0).contains(x) by {
        let k = choose|k: nat| #[trigger] reaches(t.inodes, ROOT, x, k);
        lemma_reaches_or_lost(t.inodes, cut.inodes, ROOT, ino, x, k);
        if subtree(cut.inodes, ROOT).contains(x) {
            let k = choose|k: nat| #[trigger] reaches(cut.inodes, ROOT, x, k);
            lemma_reaches_or_lost(cut.inodes, placed.inodes, ROOT, lost, x, k);
        } else {
            let k = choose|k: nat| #[trigger] reaches(cut.inodes, ino, x, k);
            lemma_reaches_or_lost(cut.inodes, placed.inodes, ino, lost, x, k);
        }
        if subtree(placed.inodes, ino).contains(x) {
            let k = choose|k: nat| #[trigger] reaches(placed.inodes, ino, x, k);
            lemma_reaches_further(placed.inodes, ROOT, ino, x, top, k);
            assert(reaches(placed.inodes, ROOT, x, top + k));
        }
    }
}

/// Where one table has every link of another but for those from `turn`, what is below an
/// inode in the one is below it in the other, or `turn` is.
proof fn lemma_reaches_through(
    m: Map<u64, InodeModel>,
    changed: Map<u64, InodeModel>,
    turn: u64,
    root: u64,
    x: u64,
    n: nat,
)
    requires
        forall|p: u64, c: u64| #[trigger] links(changed, p, c) && p != turn ==> links(m, p, c),
        reaches(changed, root, x, n),
    ensures
        reaches(m, root, x, n) || subtree(m, root).contains(turn),
    decreases n,
{
    if n > 0 {
        let p = choose|p: u64|
            reaches(changed, root, p, (n - 1) as nat) && #[trigger] links(changed, p, x);
        lemma_reaches_through(m, changed, turn, root, p, (n - 1) as nat);
        if reaches(m, root, p, (n - 1) as nat) && p != turn {
            assert(reaches(m, root, p, (n - 1) as nat) && links(m, p, x));
        }
    }
}

/// Every op keeps a sound tree sound: no inode without an entry, no entry without an
/// inode, no inode with two, none that is not found from the root. It is asked that a
/// create is fresh and that a move goes to a directory outside what moves.
pub proof fn law_ops_keep_the_tree_sound(t: TreeModel, op: OpModel)
    requires
        sound(t),
        in_range(t, op),
        well_placed(t, op),
    ensures
        sound(applied(t, op)),
{
    lemma_ops_keep_the_shape(t, op);
    let after = applied(t, op);
    match op {
        OpModel::Create { parent, name, ino, dir } => {
            let with = with_inode(t, ino, fresh_inode(dir));
            assert(!t.inodes.contains_key(ino));
            assert(is_dir(with, parent));
            lemma_with_entry(with, parent, name, ino);
            assert forall|p: u64, x: u64| #[trigger] links(t.inodes, p, x) implies links(
                after.inodes,
                p,
                x,
            ) by {
                let label = lemma_link(t, p, x);
                assert(child(with, p, label) == Some(x));
                assert(child(with_entry(with, parent, name, ino), p, label) == Some(x));
                assert(child(after, p, label) == Some(x));
                lemma_entry_links(after, p, label, x);
            }
            assert forall|x: u64| #[trigger] after.inodes.contains_key(x) implies subtree(
                after.inodes,
                ROOT,
            ).contains(x) by {
                if x == ino {
                    let n = choose|n: nat| #[trigger] reaches(t.inodes, ROOT, parent, n);
                    lemma_reaches_kept(t.inodes, after.inodes, ROOT, parent, n);
                    assert(child(with_entry(with, parent, name, ino), parent, name) == Some(ino));
                    assert(child(after, parent, name) == Some(ino));
                    lemma_entry_links(after, parent, name, ino);
                    lemma_step(after.inodes, ROOT, parent, ino, n);
                } else {
                    assert(t.inodes.contains_key(x));
                    let n = choose|n: nat| #[trigger] reaches(t.inodes, ROOT, x, n);
                    lemma_reaches_kept(t.inodes, after.inodes, ROOT, x, n);
                }
            }
        },
        OpModel::Write { .. } => {
            lemma_same_entries_reach(t, after);
        },
        OpModel::Truncate { .. } => {
            lemma_same_entries_reach(t, after);
        },
        OpModel::Unlink { parent, name } => {
            if let Some(top) = child(t, parent, name) {
                let cut = without_entry(t, parent, name);
                lemma_without_entry(t, parent, name);
                assert forall|p: u64, x: u64| #[trigger]
                    links(t.inodes, p, x) && x != top implies links(cut.inodes, p, x) by {
                    let label = lemma_link(t, p, x);
                    lemma_entry_links(cut, p, label, x);
                }
                assert forall|x: u64| #[trigger] after.inodes.contains_key(x) implies subtree(
                    after.inodes,
                    ROOT,
                ).contains(x) by {
                    assert(t.inodes.contains_key(x));
                    let n = choose|n: nat| #[trigger] reaches(t.inodes, ROOT, x, n);
                    lemma_reaches_or_lost(t.inodes, cut.inodes, ROOT, top, x, n);
                    let k = choose|k: nat| #[trigger] reaches(cut.inodes, ROOT, x, k);
                    lemma_reaches_after_removal(cut, top, x, k);
                }
            }
        },
        OpModel::Rename { from_parent, from, to_parent, to } => {
            if let Some(ino) = child(t, from_parent, from) {
                let cut = without_entry(t, from_parent, from);
                let placed = with_entry(cut, to_parent, to, ino);
                lemma_placed(t, from_parent, from, to_parent, to, ino);
                assert(is_dir(cut, to_parent));
                assert forall|x: u64| #[trigger] after.inodes.contains_key(x) implies subtree(
                    after.inodes,
                    ROOT,
                ).contains(x) by {
                    assert(t.inodes.contains_key(x));
                    if let Some(displaced) = child(cut, to_parent, to) {
                        let k = choose|k: nat| #[trigger] reaches(placed.inodes, ROOT, x, k);
                        lemma_reaches_after_removal(placed, displaced, x, k);
                    }
                }
            }
        },
        OpModel::Destroyed => {
            law_an_empty_tree_is_sound();
        },
    }
}

/// Trees with the same entries have the same inodes below the root.
proof fn lemma_same_entries_reach(t: TreeModel, after: TreeModel)
    requires
        sound(t),
        forall|x: u64| after.inodes.contains_key(x) ==> #[trigger] t.inodes.contains_key(x),
        forall|x: u64| #[trigger] is_dir(t, x) ==> after.inodes.contains_key(x)
            && after.inodes[x] == t.inodes[x],
    ensures
        all_reachable(after),
{
    assert forall|p: u64, x: u64| #[trigger] links(t.inodes, p, x) implies links(
        after.inodes,
        p,
        x,
    ) by {
        assert(is_dir(t, p));
    }
    assert forall|x: u64| #[trigger] after.inodes.contains_key(x) implies subtree(
        after.inodes,
        ROOT,
    ).contains(x) by {
        assert(t.inodes.contains_key(x));
        let n = choose|n: nat| #[trigger] reaches(t.inodes, ROOT, x, n);
        lemma_reaches_kept(t.inodes, after.inodes, ROOT, x, n);
    }
}

/// In a sound tree nothing lies below itself.
pub proof fn law_a_sound_tree_has_no_cycle(t: TreeModel, x: u64, n: nat)
    requires
        sound(t),
        t.inodes.contains_key(x),
        reaches(t.inodes, x, x, n),
    ensures
        n == 0,
{
    let depth = choose|depth: nat| #[trigger] reaches(t.inodes, ROOT, x, depth);
    lemma_no_cycle(t, x, depth, n);
}

/// The tree with only a root is sound.
pub proof fn law_an_empty_tree_is_sound()
    ensures
        sound(empty_tree()),
{
    let t = empty_tree();
    assert(t.inodes[ROOT] is Dir);
    assert forall|d: u64, n: Seq<char>| #[trigger] child(t, d, n) is None by {}
    assert(reaches(t.inodes, ROOT, ROOT, 0));
}

// ---- Writing and reading back ----

/// A walk follows the steps of a longer walk.
proof fn lemma_walk_push(t: TreeModel, from: u64, parts: Seq<Seq<char>>, name: Seq<char>)
    ensures
        walk(t, from, parts.push(name)) == match walk(t, from, parts) {
            Some(at) => child(t, at, name),
            None => None,
        },
    decreases parts.len(),
{
    if parts.len() == 0 {
        let one = parts.push(name);
        assert(one[0] == name);
        assert(one.skip(1) =~= seq![]);
        match child(t, from, name) {
            Some(next) => {
                assert(walk(t, next, one.skip(1)) == Some(next));
            },
            None => {},
        }
    } else {
        assert(parts.push(name)[0] == parts[0]);
        assert(parts.push(name).skip(1) =~= parts.skip(1).push(name));
        match child(t, from, parts[0]) {
            Some(next) => {
                lemma_walk_push(t, next, parts.skip(1), name);
            },
            None => {},
        }
    }
}

/// Entries that are added disturb no walk.
proof fn lemma_walk_kept(t: TreeModel, more: TreeModel, from: u64, parts: Seq<Seq<char>>)
    requires
        forall|d: u64, n: Seq<char>|
            (#[trigger] child(t, d, n)) is Some ==> child(more, d, n) == child(t, d, n),
        walk(t, from, parts) is Some,
    ensures
        walk(more, from, parts) == walk(t, from, parts),
    decreases parts.len(),
{
    if parts.len() > 0 {
        let next = child(t, from, parts[0])->0;
        assert(child(more, from, parts[0]) == Some(next));
        lemma_walk_kept(t, more, next, parts.skip(1));
    }
}

/// What the planned directories make of the tree.
spec fn dirs_made(t: TreeModel, d: DirsModel, parts: Seq<Seq<char>>) -> bool {
    let made = applied_all(t, d.ops);
    &&& sound(made)
    &&& made.next_ino == d.next_ino
    &&& walk(made, ROOT, parts) == Some(d.cur)
    &&& is_dir(made, d.cur)
    &&& forall|p: u64, n: Seq<char>| #[trigger]
        child(made, p, n) == if d.planned.contains_key((p, n)) {
            Some(d.planned[(p, n)])
        } else {
            child(t, p, n)
        }
    &&& forall|i: u64| #[trigger] is_file(made, i) == is_file(t, i)
    &&& forall|i: u64| is_file(t, i) ==> #[trigger] made.inodes[i] == t.inodes[i]
    &&& forall|i: u64| is_dir(t, i) ==> #[trigger] is_dir(made, i)
    &&& forall|i: u64| #[trigger] is_dir(made, i) && i < t.next_ino ==> is_dir(t, i)
    &&& forall|p: u64, n: Seq<char>| #[trigger]
        d.planned.contains_key((p, n)) ==> is_dir(made, d.planned[(p, n)])
    &&& t.next_ino <= d.next_ino
    &&& forall|p: u64, n: Seq<char>|
        (#[trigger] child(t, p, n)) is Some ==> child(made, p, n) == child(t, p, n)
}

proof fn lemma_plan_dirs(t: TreeModel, parts: Seq<Seq<char>>)
    requires
        sound(t),
        plan_dirs(t, no_dirs(t), parts) is Some,
        t.next_ino + parts.len() < u64::MAX,
    ensures
        dirs_made(t, plan_dirs(t, no_dirs(t), parts)->0, parts),
        plan_dirs(t, no_dirs(t), parts)->0.next_ino <= t.next_ino + parts.len(),
    decreases parts.len(),
{
    if parts.len() == 0 {
        let d = no_dirs(t);
        assert(applied_all(t, d.ops) == t);
    } else {
        let front = parts.drop_last();
        let name = parts.last();
        lemma_plan_dirs(t, front);
        let d = plan_dirs(t, no_dirs(t), front)->0;
        let made = applied_all(t, d.ops);
        assert(parts =~= front.push(name));
        lemma_walk_push(made, ROOT, front, name);
        lemma_found(t, d, front, name);
        match found(t, d.planned, d.cur, name) {
            Some((ino, true)) => {},
            Some((_, false)) => {},
            None => {
                let op = OpModel::Create { parent: d.cur, name, ino: d.next_ino, dir: true };
                let next = plan_dirs(t, no_dirs(t), parts)->0;
                assert(next.ops.drop_last() =~= d.ops);
                assert(next.ops.last() == op);
                let after = applied(made, op);
                assert(applied_all(t, next.ops) == after);
                law_ops_keep_the_tree_sound(made, op);
                let with = with_inode(made, d.next_ino, fresh_inode(true));
                assert(!made.inodes.contains_key(d.next_ino));
                assert forall|p: u64, n: Seq<char>| #[trigger] child(with, p, n) == child(
                    made,
                    p,
                    n,
                ) by {}
                lemma_with_entry(with, d.cur, name, d.next_ino);
                assert forall|p: u64, n: Seq<char>| #[trigger] child(after, p, n) == if p == d.cur
                    && n == name {
                    Some(d.next_ino)
                } else {
                    child(made, p, n)
                } by {
                    assert(child(after, p, n) == child(
                        with_entry(with, d.cur, name, d.next_ino),
                        p,
                        n,
                    ));
                }
                assert(child(made, d.cur, name) is None);
                lemma_walk_kept(made, after, ROOT, front);
                lemma_walk_push(after, ROOT, front, name);
                assert(is_dir(after, d.next_ino));
                assert forall|p: u64, n: Seq<char>| #[trigger] child(after, p, n)
                    == if next.planned.contains_key((p, n)) {
                    Some(next.planned[(p, n)])
                } else {
                    child(t, p, n)
                } by {
                    assert(next.planned == d.planned.insert((d.cur, name), d.next_ino));
                }
                assert forall|i: u64| #[trigger] is_file(after, i) == is_file(t, i) by {
                    assert(is_file(made, i) == is_file(t, i));
                }
                assert forall|i: u64| is_file(t, i) implies #[trigger] after.inodes[i]
                    == t.inodes[i] by {
                    assert(is_file(made, i));
                    assert(made.inodes[i] == t.inodes[i]);
                }
                assert forall|i: u64| is_dir(t, i) implies #[trigger] is_dir(after, i) by {
                    assert(is_dir(made, i));
                }
                assert forall|i: u64| #[trigger] is_dir(after, i) && i < t.next_ino implies is_dir(
                    t,
                    i,
                ) by {
                    assert(is_dir(made, i));
                }
                assert forall|p: u64, n: Seq<char>| #[trigger]
                    next.planned.contains_key((p, n)) implies is_dir(
                    after,
                    next.planned[(p, n)],
                ) by {
                    if !(p == d.cur && n == name) {
                        assert(d.planned.contains_key((p, n)));
                        assert(is_dir(made, d.planned[(p, n)]));
                    }
                }
            },
        }
    }
}

/// Looking a name up among planned directories is looking it up in the tree they
/// make.
proof fn lemma_found(t: TreeModel, d: DirsModel, parts: Seq<Seq<char>>, name: Seq<char>)
    requires
        sound(t),
        dirs_made(t, d, parts),
    ensures
        ({
            let made = applied_all(t, d.ops);
            match found(t, d.planned, d.cur, name) {
                Some((ino, dir)) => child(made, d.cur, name) == Some(ino) && dir == is_dir(
                    made,
                    ino,
                ) && (!dir ==> is_file(t, ino)),
                None => child(made, d.cur, name) is None,
            }
        }),
{
    let made = applied_all(t, d.ops);
    if !d.planned.contains_key((d.cur, name)) {
        if let Some(ino) = child(t, d.cur, name) {
            assert(t.inodes.contains_key(ino));
            assert(ino < t.next_ino);
            assert(is_dir(made, ino) == is_dir(t, ino));
        }
    } else {
        assert(child(made, d.cur, name) == Some(d.planned[(d.cur, name)]));
    }
}

proof fn lemma_truncated_to_nothing(file: FileModel)
    ensures
        truncated(file, 0) == (FileModel { size: 0, next_seq: file.next_seq, slices: seq![] }),
{
    let cut = |s: SliceModel| clipped_slice(s, 0);
    lemma_cut_to_nothing(file.slices);
    let none = file.slices.filter_map(cut);
    reveal(Seq::filter);
    assert(unshadowed(none) =~= seq![]);
}

proof fn lemma_cut_to_nothing(slices: Seq<SliceModel>)
    ensures
        slices.filter_map(|s: SliceModel| clipped_slice(s, 0)) == Seq::<SliceModel>::empty(),
    decreases slices.len(),
{
    let cut = |s: SliceModel| clipped_slice(s, 0);
    if slices.len() > 0 {
        lemma_cut_to_nothing(slices.drop_last());
        assert(cut(slices.last()) is None);
    }
}

proof fn lemma_only_slice(file: FileModel, slice: SliceModel)
    requires
        file.slices.len() == 0,
    ensures
        written(file, slice).slices == seq![slice],
{
    crate::fs::laws::law_a_covering_write_leaves_one_slice(file, slice);
}

/// Every entry and every file of one tree is in another as it was, but for the file `ino`.
pub open spec fn others_kept(t: TreeModel, after: TreeModel, ino: u64) -> bool {
    &&& forall|d: u64, n: Seq<char>|
        (#[trigger] child(t, d, n)) is Some ==> child(after, d, n) == child(t, d, n)
    &&& forall|x: u64| #[trigger]
        is_file(t, x) && x != ino ==> is_file(after, x) && after.inodes[x] == t.inodes[x]
}

/// What a whole-file write makes of the tree.
proof fn lemma_written(t: TreeModel, path: Seq<char>, content: Seq<u8>)
    requires
        sound(t),
        plan_write(t, path) is Ok,
        plan_write(t, path)->Ok_0.seq < u64::MAX,
        t.next_ino + path_parts(path).len() <= u64::MAX,
        content.len() <= u64::MAX,
    ensures
        ({
            let w = plan_write(t, path)->Ok_0;
            let after = applied_all(t, write_ops(w, content));
            &&& resolved(after, path) == Ok::<u64, FsError>(w.ino)
            &&& is_file(after, w.ino)
            &&& after.inodes[w.ino]->File_0.size == content.len()
            &&& after.inodes[w.ino]->File_0.slices == seq![slice_for(w.seq, 0, content)]
            &&& sound(after)
            &&& others_kept(t, after, w.ino)
        }),
{
    let w = plan_write(t, path)->Ok_0;
    let parts = path_parts(path);
    let front = parts.drop_last();
    let name = parts.last();
    let d = plan_dirs(t, no_dirs(t), front)->0;
    lemma_plan_dirs(t, front);
    let made = applied_all(t, d.ops);
    lemma_found(t, d, front, name);
    let first = w.ops.last();
    assert(w.ops.drop_last() =~= d.ops);
    let ready = applied(made, first);
    assert(applied_all(t, w.ops) == ready);
    let slice = slice_for(w.seq, 0, content);
    let last = OpModel::Write { ino: w.ino, slice };
    assert(write_ops(w, content).drop_last() =~= w.ops);
    assert(write_ops(w, content).last() == last);
    let after = applied(ready, last);
    assert(applied_all(t, write_ops(w, content)) == after);
    assert(parts =~= front.push(name));
    law_ops_keep_the_tree_sound(made, first);
    match found(t, d.planned, d.cur, name) {
        Some((ino, _)) => {
            assert(is_file(made, ino));
            lemma_truncated_to_nothing(made.inodes[ino]->File_0);
            assert forall|p: u64, n: Seq<char>| #[trigger] child(ready, p, n) == child(
                made,
                p,
                n,
            ) by {}
        },
        None => {
            let with = with_inode(made, w.ino, fresh_inode(false));
            assert(!made.inodes.contains_key(w.ino));
            assert forall|p: u64, n: Seq<char>| #[trigger] child(with, p, n) == child(made, p, n) by {}
            lemma_with_entry(with, d.cur, name, w.ino);
            assert forall|p: u64, n: Seq<char>| #[trigger] child(ready, p, n) == if p == d.cur && n
                == name {
                Some(w.ino)
            } else {
                child(made, p, n)
            } by {
                assert(child(ready, p, n) == child(with_entry(with, d.cur, name, w.ino), p, n));
            }
        },
    }
    assert(is_file(ready, w.ino));
    let file = ready.inodes[w.ino]->File_0;
    assert(file.slices =~= seq![]);
    assert(file.size == 0);
    lemma_only_slice(file, slice);
    assert(child(ready, d.cur, name) == Some(w.ino));
    assert forall|p: u64, n: Seq<char>| #[trigger] child(after, p, n) == child(ready, p, n) by {}
    assert forall|p: u64, n: Seq<char>| (#[trigger] child(made, p, n)) is Some implies child(
        after,
        p,
        n,
    ) == child(made, p, n) by {
        assert(child(after, p, n) == child(ready, p, n));
    }
    lemma_walk_kept(made, after, ROOT, front);
    lemma_walk_push(after, ROOT, front, name);
    assert(child(after, d.cur, name) == Some(w.ino));
    law_ops_keep_the_tree_sound(ready, last);
    let done = after.inodes[w.ino]->File_0;
    assert(done == written(file, slice));
    assert forall|d2: u64, n: Seq<char>| (#[trigger] child(t, d2, n)) is Some implies child(
        after,
        d2,
        n,
    ) == child(t, d2, n) by {
        assert(child(made, d2, n) == child(t, d2, n));
    }
    assert forall|x: u64| #[trigger] is_file(t, x) && x != w.ino implies is_file(after, x)
        && after.inodes[x] == t.inodes[x] by {
        assert(is_file(made, x));
        assert(made.inodes[x] == t.inodes[x]);
    }
}

/// What a read gives back of a write: after a whole-file write at a path, the path
/// leads to a file, and reading it, with the write's chunks stored, gives exactly the
/// written bytes.
pub proof fn law_a_read_gives_back_what_was_written(
    t: TreeModel,
    path: Seq<char>,
    content: Seq<u8>,
    store: Store,
)
    requires
        sound(t),
        plan_write(t, path) is Ok,
        plan_write(t, path)->Ok_0.seq < u64::MAX,
        t.next_ino + path_parts(path).len() <= u64::MAX,
        content.len() <= u64::MAX,
        chunks_stored(store, content),
    ensures
        ({
            let w = plan_write(t, path)->Ok_0;
            let after = applied_all(t, write_ops(w, content));
            &&& resolved(after, path) == Ok::<u64, FsError>(w.ino)
            &&& is_file(after, w.ino)
            &&& after.inodes[w.ino]->File_0.size == content.len()
            &&& read_result(
                store,
                after.inodes[w.ino]->File_0,
                0,
                after.inodes[w.ino]->File_0.size as int,
            ) == content
            &&& sound(after)
        }),
{
    let w = plan_write(t, path)->Ok_0;
    let after = applied_all(t, write_ops(w, content));
    lemma_written(t, path, content);
    law_a_written_file_reads_back(store, after.inodes[w.ino]->File_0, w.seq, content);
}

/// Where planned directories begin. Up to there the plan walks the tree; from there on
/// nothing is found, neither in the tree nor among what is planned.
spec fn follows(t: TreeModel, d: DirsModel, parts: Seq<Seq<char>>) -> bool {
    &&& t.next_ino <= d.next_ino <= t.next_ino + parts.len()
    &&& if d.planned.dom() =~= Set::empty() {
        walk(t, ROOT, parts) == Some(d.cur) && is_dir(t, d.cur)
    } else {
        &&& walk(t, ROOT, parts) is None
        &&& t.next_ino <= d.cur < d.next_ino
        &&& forall|p: u64, n: Seq<char>| #[trigger] d.planned.contains_key((p, n)) ==> p < d.cur
    }
}

/// What a plan finds under the directory it has come to is what the tree has there.
proof fn lemma_follows_found(t: TreeModel, d: DirsModel, parts: Seq<Seq<char>>, name: Seq<char>)
    requires
        sound(t),
        follows(t, d, parts),
    ensures
        match found(t, d.planned, d.cur, name) {
            Some((ino, dir)) => walk(t, ROOT, parts.push(name)) == Some(ino) && dir == is_dir(
                t,
                ino,
            ) && dir != is_file(t, ino) && d.planned.dom() =~= Set::empty(),
            None => walk(t, ROOT, parts.push(name)) is None,
        },
{
    lemma_walk_push(t, ROOT, parts, name);
    if d.planned.dom() =~= Set::empty() {
        assert(!d.planned.contains_key((d.cur, name)));
        if let Some(ino) = child(t, d.cur, name) {
            assert(t.inodes.contains_key(ino));
        }
    } else {
        assert(!d.planned.contains_key((d.cur, name)));
        assert(!t.inodes.contains_key(d.cur));
        assert(child(t, d.cur, name) is None);
    }
}

proof fn lemma_follows(t: TreeModel, parts: Seq<Seq<char>>)
    requires
        sound(t),
        t.next_ino + parts.len() < u64::MAX,
    ensures
        match plan_dirs(t, no_dirs(t), parts) {
            Some(d) => follows(t, d, parts) && forall|n: int|
                0 < n <= parts.len() ==> !file_at(t, #[trigger] parts.take(n)),
            None => exists|n: int| 0 < n <= parts.len() && file_at(t, #[trigger] parts.take(n)),
        },
    decreases parts.len(),
{
    if parts.len() == 0 {
        assert(no_dirs(t).planned.dom() =~= Set::empty());
    } else {
        let front = parts.drop_last();
        let name = parts.last();
        lemma_follows(t, front);
        assert(parts =~= front.push(name));
        assert(parts.take(parts.len() as int) =~= parts);
        assert forall|n: int| 0 < n <= front.len() implies #[trigger] parts.take(n) == front.take(
            n,
        ) by {
            assert(parts.take(n) =~= front.take(n));
        }
        match plan_dirs(t, no_dirs(t), front) {
            None => {
                let n = choose|n: int| 0 < n <= front.len() && file_at(t, #[trigger] front.take(n));
                assert(file_at(t, parts.take(n)));
            },
            Some(d) => {
                lemma_follows_found(t, d, front, name);
                match found(t, d.planned, d.cur, name) {
                    Some((ino, true)) => {},
                    Some((ino, false)) => {
                        assert(file_at(t, parts.take(parts.len() as int)));
                    },
                    None => {
                        let next = plan_dirs(t, no_dirs(t), parts)->0;
                        assert(next.planned.contains_key((d.cur, name)));
                        assert(next.planned.dom().contains((d.cur, name)));
                        assert(!(next.planned.dom() =~= Set::empty()));
                        if is_dir(t, d.cur) {
                            assert(d.cur < t.next_ino);
                        }
                        assert forall|p: u64, n: Seq<char>| #[trigger]
                            next.planned.contains_key((p, n)) implies p < next.cur by {
                            if !(p == d.cur && n == name) {
                                assert(d.planned.contains_key((p, n)));
                                assert(d.planned.dom().contains((p, n)));
                            }
                        }
                    },
                }
                if plan_dirs(t, no_dirs(t), parts) is Some {
                    assert forall|n: int| 0 < n <= parts.len() implies !file_at(
                        t,
                        #[trigger] parts.take(n),
                    ) by {
                        if n <= front.len() {
                            assert(!file_at(t, front.take(n)));
                        }
                    }
                }
            },
        }
    }
}

/// A walk leads to a file.
pub open spec fn file_at(t: TreeModel, parts: Seq<Seq<char>>) -> bool {
    match walk(t, ROOT, parts) {
        Some(ino) => is_file(t, ino),
        None => false,
    }
}

/// What a whole-file write is answered, by what its path leads to: a directory is
/// refused, so is a path through a file; else the write replaces blocks exactly where
/// the path leads to a file that is not empty.
pub proof fn law_what_a_write_is_answered(t: TreeModel, path: Seq<char>)
    requires
        sound(t),
        !climbs(path),
        path_parts(path).len() > 0,
        t.next_ino + path_parts(path).len() <= u64::MAX,
    ensures
        plan_write(t, path) == Err::<WriteModel, FsError>(FsError::IsADirectory) <==> (resolved(
            t,
            path,
        ) matches Ok(ino) && is_dir(t, ino)),
        plan_write(t, path) == Err::<WriteModel, FsError>(FsError::NotADirectory) <==> exists|
            n: int,
        |
            0 < n < path_parts(path).len() && file_at(t, #[trigger] path_parts(path).take(n)),
        plan_write(t, path) matches Ok(w) ==> w.orphaned == (resolved(t, path) matches Ok(ino)
            && is_file(t, ino) && t.inodes[ino]->File_0.size > 0),
        plan_write(t, path) matches Err(e) ==> e == FsError::IsADirectory || e
            == FsError::NotADirectory,
{
    let parts = path_parts(path);
    let front = parts.drop_last();
    let name = parts.last();
    lemma_follows(t, front);
    assert(parts =~= front.push(name));
    assert forall|n: int| 0 < n < parts.len() implies #[trigger] parts.take(n) == front.take(n) by {
        assert(parts.take(n) =~= front.take(n));
    }
    match plan_dirs(t, no_dirs(t), front) {
        None => {
            let n = choose|n: int| 0 < n <= front.len() && file_at(t, #[trigger] front.take(n));
            assert(file_at(t, parts.take(n)));
            if let Some(ino) = walk(t, ROOT, parts) {
                lemma_walk_through(t, ROOT, parts, n);
            }
        },
        Some(d) => {
            lemma_follows_found(t, d, front, name);
            assert forall|n: int| 0 < n < parts.len() implies !file_at(t, #[trigger] parts.take(n)) by {
                assert(!file_at(t, front.take(n)));
            }
        },
    }
}

/// A walk that goes on beyond a place has come to a directory there.
proof fn lemma_walk_through(t: TreeModel, from: u64, parts: Seq<Seq<char>>, n: int)
    requires
        walk(t, from, parts) is Some,
        0 <= n < parts.len(),
    ensures
        walk(t, from, parts.take(n)) is Some,
        is_dir(t, walk(t, from, parts.take(n))->0),
    decreases parts.len(),
{
    if n > 0 {
        let next = child(t, from, parts[0])->0;
        assert(parts.take(n)[0] == parts[0]);
        assert(parts.take(n).skip(1) =~= parts.skip(1).take(n - 1));
        lemma_walk_through(t, next, parts.skip(1), n - 1);
    }
}

/// A path that leads somewhere leads to an inode, and only through directories.
pub proof fn lemma_a_resolved_path_passes_no_file(t: TreeModel, path: Seq<char>)
    requires
        sound(t),
        resolved(t, path) is Ok,
    ensures
        t.inodes.contains_key(resolved(t, path)->Ok_0),
        forall|n: int|
            0 <= n < path_parts(path).len() ==> !file_at(t, #[trigger] path_parts(path).take(n)),
{
    let parts = path_parts(path);
    assert forall|n: int| 0 <= n < parts.len() implies !file_at(t, #[trigger] parts.take(n)) by {
        lemma_walk_through(t, ROOT, parts, n);
    }
    if parts.len() > 0 {
        let front = parts.drop_last();
        assert(parts =~= front.push(parts.last()));
        lemma_walk_push(t, ROOT, front, parts.last());
    }
}

/// A path leads to a file that reads as `content`, wherever the blocks of `content` are
/// stored.
pub open spec fn holds_file(t: TreeModel, path: Seq<char>, content: Seq<u8>) -> bool {
    match resolved(t, path) {
        Ok(ino) => {
            let file = t.inodes[ino]->File_0;
            &&& is_file(t, ino)
            &&& file.size == content.len()
            &&& forall|store: Store| #[trigger]
                chunks_stored(store, content) ==> read_result(store, file, 0, file.size as int)
                    == content
        },
        Err(_) => false,
    }
}

/// A planned write, staged on the tree it was planned for, leaves the file where it was
/// to go.
pub proof fn law_a_write_leaves_its_file(t: TreeModel, path: Seq<char>, content: Seq<u8>)
    requires
        sound(t),
        plan_write(t, path) is Ok,
        plan_write(t, path)->Ok_0.seq < u64::MAX,
        t.next_ino + path_parts(path).len() <= u64::MAX,
        content.len() <= u64::MAX,
    ensures
        ({
            let after = applied_all(t, write_ops(plan_write(t, path)->Ok_0, content));
            &&& sound(after)
            &&& holds_file(after, path, content)
            &&& others_kept(t, after, resolved(after, path)->Ok_0)
        }),
{
    let after = applied_all(t, write_ops(plan_write(t, path)->Ok_0, content));
    lemma_written(t, path, content);
    let file = after.inodes[resolved(after, path)->Ok_0]->File_0;
    assert forall|store: Store| #[trigger] chunks_stored(store, content) implies read_result(
        store,
        file,
        0,
        file.size as int,
    ) == content by {
        law_a_read_gives_back_what_was_written(t, path, content, store);
    }
}

// ---- Moving ----

/// A walk goes down.
proof fn lemma_walk_reaches(t: TreeModel, from: u64, parts: Seq<Seq<char>>)
    requires
        walk(t, from, parts) is Some,
    ensures
        reaches(t.inodes, from, walk(t, from, parts)->0, parts.len()),
        subtree(t.inodes, from).contains(walk(t, from, parts)->0),
    decreases parts.len(),
{
    let at = walk(t, from, parts)->0;
    if parts.len() > 0 {
        let next = child(t, from, parts[0])->0;
        lemma_walk_reaches(t, next, parts.skip(1));
        lemma_entry_links(t, from, parts[0], next);
        assert(reaches(t.inodes, from, from, 0));
        lemma_step(t.inodes, from, from, next, 0);
        lemma_reaches_further(t.inodes, from, next, at, 1, (parts.len() - 1) as nat);
    }
    assert(reaches(t.inodes, from, at, parts.len()));
}

/// A move disturbs no walk to the target's parent.
proof fn lemma_walk_to_target(
    t: TreeModel,
    placed: TreeModel,
    from_parent: u64,
    from: Seq<char>,
    to_parent: u64,
    to: Seq<char>,
    ino: u64,
    start: u64,
    parts: Seq<Seq<char>>,
)
    requires
        child(t, from_parent, from) == Some(ino),
        !subtree(t.inodes, ino).contains(to_parent),
        forall|k: nat| #[trigger] reaches(t.inodes, to_parent, to_parent, k) ==> k == 0,
        forall|d: u64, n: Seq<char>| #[trigger]
            child(placed, d, n) == if d == to_parent && n == to {
                Some(ino)
            } else if d == from_parent && n == from {
                None
            } else {
                child(t, d, n)
            },
        walk(t, start, parts) == Some(to_parent),
    ensures
        walk(placed, start, parts) == Some(to_parent),
    decreases parts.len(),
{
    if parts.len() > 0 {
        let next = child(t, start, parts[0])->0;
        let rest = parts.skip(1);
        lemma_walk_reaches(t, next, rest);
        if start == to_parent && parts[0] == to {
            lemma_walk_reaches(t, start, parts);
        }
        assert(child(placed, start, parts[0]) == Some(next));
        lemma_walk_to_target(
            t,
            placed,
            from_parent,
            from,
            to_parent,
            to,
            ino,
            next,
            rest,
        );
    }
}

/// Removing a subtree disturbs no walk to what lies outside it.
proof fn lemma_walk_after_removal(t: TreeModel, top: u64, start: u64, parts: Seq<Seq<char>>)
    requires
        walk(t, start, parts) is Some,
        !subtree(t.inodes, top).contains(walk(t, start, parts)->0),
    ensures
        walk(without_subtree(t, top), start, parts) == walk(t, start, parts),
    decreases parts.len(),
{
    if parts.len() > 0 {
        let next = child(t, start, parts[0])->0;
        let at = walk(t, start, parts)->0;
        if subtree(t.inodes, top).contains(start) {
            let k = choose|k: nat| #[trigger] reaches(t.inodes, top, start, k);
            lemma_walk_reaches(t, start, parts);
            lemma_reaches_further(t.inodes, top, start, at, k, parts.len());
            assert(reaches(t.inodes, top, at, k + parts.len()));
        }
        assert(child(without_subtree(t, top), start, parts[0]) == Some(next));
        lemma_walk_after_removal(t, top, next, parts.skip(1));
    }
}

/// Where the inodes below one are unchanged, they are below it still.
proof fn lemma_below_unchanged(
    m: Map<u64, InodeModel>,
    after: Map<u64, InodeModel>,
    top: u64,
    x: u64,
    n: nat,
)
    requires
        forall|p: u64| #[trigger]
            subtree(m, top).contains(p) ==> after.contains_key(p) == m.contains_key(p) && after[p]
                == m[p],
        reaches(m, top, x, n),
    ensures
        reaches(after, top, x, n),
    decreases n,
{
    if n > 0 {
        let p = choose|p: u64| reaches(m, top, p, (n - 1) as nat) && #[trigger] links(m, p, x);
        lemma_below_unchanged(m, after, top, p, (n - 1) as nat);
        assert(subtree(m, top).contains(p));
        assert(reaches(after, top, p, (n - 1) as nat) && links(after, p, x));
    }
}

/// A directory and the entry of it that a path names.
pub open spec fn entry_at(t: TreeModel, path: Seq<char>, d: u64, n: Seq<char>) -> bool {
    path_parts(path).len() > 0 && n == path_parts(path).last() && walk(
        t,
        ROOT,
        path_parts(path).drop_last(),
    ) == Some(d)
}

/// Nothing changed but the entries that two paths name, and what was at or below the
/// second.
pub open spec fn rest_kept(t: TreeModel, after: TreeModel, from: Seq<char>, to: Seq<char>) -> bool {
    forall|x: u64| #[trigger]
        t.inodes.contains_key(x) && (resolved(t, to) matches Ok(old) ==> !subtree(
            t.inodes,
            old,
        ).contains(x)) ==> {
            &&& after.inodes.contains_key(x)
            &&& is_file(t, x) ==> after.inodes[x] == t.inodes[x]
            &&& is_dir(t, x) ==> is_dir(after, x) && forall|n: Seq<char>|
                !entry_at(t, from, x, n) && !entry_at(t, to, x, n) ==> #[trigger] child(after, x, n)
                    == child(t, x, n)
        }
}

/// What is displaced by a move lies, once the move is made, where it lay before.
proof fn lemma_displaced_below(
    t: TreeModel,
    placed: TreeModel,
    displaced: u64,
    to_parent: u64,
    to: Seq<char>,
    ino: u64,
    x: u64,
    n: nat,
)
    requires
        sound(t),
        child(t, to_parent, to) == Some(displaced),
        forall|d: u64, name: Seq<char>|
            (#[trigger] child(placed, d, name)) is Some ==> child(placed, d, name) == child(
                t,
                d,
                name,
            ) || d == to_parent && name == to,
        reaches(placed.inodes, displaced, x, n),
    ensures
        reaches(t.inodes, displaced, x, n),
    decreases n,
{
    if n > 0 {
        let p = choose|p: u64|
            reaches(placed.inodes, displaced, p, (n - 1) as nat) && #[trigger] links(
                placed.inodes,
                p,
                x,
            );
        lemma_displaced_below(
            t,
            placed,
            displaced,
            to_parent,
            to,
            ino,
            p,
            (n - 1) as nat,
        );
        let name = lemma_link(placed, p, x);
        if child(t, p, name) == Some(x) {
            lemma_entry_links(t, p, name, x);
            assert(reaches(t.inodes, displaced, p, (n - 1) as nat) && links(t.inodes, p, x));
        } else {
            assert(p == to_parent);
            lemma_entry_links(t, to_parent, to, displaced);
            lemma_step(t.inodes, displaced, to_parent, displaced, (n - 1) as nat);
            law_a_sound_tree_has_no_cycle(t, displaced, n);
        }
    }
}

/// What `from` led to is what `to` leads to now, and it and everything below it are
/// unchanged.
pub open spec fn moved(t: TreeModel, after: TreeModel, from: Seq<char>, to: Seq<char>) -> bool {
    &&& resolved(t, from) is Ok
    &&& resolved(after, to) == resolved(t, from)
    &&& t.inodes.contains_key(resolved(t, from)->Ok_0)
    &&& after.inodes.contains_key(resolved(t, from)->Ok_0)
    &&& after.inodes[resolved(t, from)->Ok_0] == t.inodes[resolved(t, from)->Ok_0]
    &&& forall|x: u64| #[trigger]
        subtree(t.inodes, resolved(t, from)->Ok_0).contains(x) ==> after.inodes.contains_key(x)
            && after.inodes[x] == t.inodes[x]
}

/// A move takes everything along: afterwards the target's path leads to what the
/// source's path led to, which is unchanged with everything below it. The tree stays
/// sound.
pub proof fn law_a_move_takes_everything_along(t: TreeModel, from: Seq<char>, to: Seq<char>)
    requires
        sound(t),
        plan_rename(t, from, to) is Ok,
    ensures
        ({
            let after = applied(t, plan_rename(t, from, to)->Ok_0.0);
            &&& moved(t, after, from, to)
            &&& sound(after)
            &&& rest_kept(t, after, from, to)
        }),
{
    let op = plan_rename(t, from, to)->Ok_0.0;
    let after = applied(t, op);
    let (from_parent, from_name) = parent_of(t, from)->Ok_0;
    let (to_parent, to_name) = parent_of(t, to)->Ok_0;
    let ino = child(t, from_parent, from_name)->0;
    let cut = without_entry(t, from_parent, from_name);
    let placed = with_entry(cut, to_parent, to_name, ino);
    let displaced = child(cut, to_parent, to_name);
    let source = path_parts(from);
    assert(source =~= source.drop_last().push(source.last()));
    lemma_walk_push(t, ROOT, source.drop_last(), source.last());
    assert(resolved(t, from) == Ok::<u64, FsError>(ino));
    law_ops_keep_the_tree_sound(t, op);
    lemma_placed(t, from_parent, from_name, to_parent, to_name, ino);
    lemma_without_entry(t, from_parent, from_name);
    assert(is_dir(cut, to_parent));
    lemma_with_entry(cut, to_parent, to_name, ino);
    assert forall|k: nat| #[trigger] reaches(t.inodes, to_parent, to_parent, k) implies k == 0 by {
        law_a_sound_tree_has_no_cycle(t, to_parent, k);
    }
    let target = path_parts(to);
    assert(target =~= target.drop_last().push(target.last()));
    lemma_walk_to_target(
        t,
        placed,
        from_parent,
        from_name,
        to_parent,
        to_name,
        ino,
        ROOT,
        target.drop_last(),
    );
    if let Some(d) = displaced {
        lemma_walk_after_removal(placed, d, ROOT, target.drop_last());
    }
    lemma_walk_push(after, ROOT, target.drop_last(), target.last());
    assert(child(placed, to_parent, to_name) == Some(ino));
    assert(child(after, to_parent, to_name) == Some(ino));
    // Nothing below what moves is touched.
    assert(!subtree(t.inodes, ino).contains(from_parent)) by {
        if subtree(t.inodes, ino).contains(from_parent) {
            let k = choose|k: nat| #[trigger] reaches(t.inodes, ino, from_parent, k);
            lemma_entry_links(t, from_parent, from_name, ino);
            lemma_step(t.inodes, ino, from_parent, ino, k);
            law_a_sound_tree_has_no_cycle(t, ino, k + 1);
        }
    }
    assert forall|x: u64| #[trigger] subtree(t.inodes, ino).contains(x) implies t.inodes.contains_key(
        x,
    ) && placed.inodes.contains_key(x) && placed.inodes[x] == t.inodes[x] by {
        let k = choose|k: nat| #[trigger] reaches(t.inodes, ino, x, k);
        if k > 0 {
            let p = choose|p: u64|
                reaches(t.inodes, ino, p, (k - 1) as nat) && #[trigger] links(t.inodes, p, x);
            let name = lemma_link(t, p, x);
            assert(child(t, p, name) is Some);
        } else {
            assert(child(t, from_parent, from_name) is Some);
        }
    }
    assert forall|x: u64| #[trigger] subtree(t.inodes, ino).contains(x) implies
        after.inodes.contains_key(x) && after.inodes[x] == t.inodes[x] by {
        if let Some(d) = displaced {
            let k = choose|k: nat| #[trigger] reaches(t.inodes, ino, x, k);
            lemma_below_unchanged(t.inodes, placed.inodes, ino, x, k);
            lemma_not_below_both(placed, d, ino, to_parent, to_name, x, k);
        }
    }
    assert(reaches(t.inodes, ino, ino, 0));
    assert(subtree(t.inodes, ino).contains(ino));
    assert(t.inodes.contains_key(ino));
    assert(after.inodes.contains_key(ino) && after.inodes[ino] == t.inodes[ino]);
    lemma_walk_push(t, ROOT, target.drop_last(), target.last());
    assert forall|x: u64| #[trigger]
        t.inodes.contains_key(x) && (resolved(t, to) matches Ok(old) ==> !subtree(
            t.inodes,
            old,
        ).contains(x)) implies {
        &&& after.inodes.contains_key(x)
        &&& is_file(t, x) ==> after.inodes[x] == t.inodes[x]
        &&& is_dir(t, x) ==> is_dir(after, x) && forall|n: Seq<char>|
            !entry_at(t, from, x, n) && !entry_at(t, to, x, n) ==> #[trigger] child(after, x, n)
                == child(t, x, n)
    } by {
        if let Some(d) = displaced {
            assert(child(t, to_parent, to_name) == Some(d));
            if subtree(placed.inodes, d).contains(x) {
                let k = choose|k: nat| #[trigger] reaches(placed.inodes, d, x, k);
                lemma_displaced_below(t, placed, d, to_parent, to_name, ino, x, k);
                assert(subtree(t.inodes, d).contains(x));
            }
        }
        assert(placed.inodes.contains_key(x));
        assert(after.inodes.contains_key(x));
        assert(after.inodes[x] == placed.inodes[x]);
    }
}

/// An inode below a moved one is not below one that no entry leads to and that the new
/// parent is not below.
proof fn lemma_not_below_both(
    t: TreeModel,
    cut_off: u64,
    moved: u64,
    parent: u64,
    name: Seq<char>,
    x: u64,
    k: nat,
)
    requires
        shaped(t),
        cut_off != moved,
        child(t, parent, name) == Some(moved),
        forall|d: u64, n: Seq<char>| #[trigger] child(t, d, n) != Some(cut_off),
        !subtree(t.inodes, cut_off).contains(parent),
        reaches(t.inodes, moved, x, k),
    ensures
        !subtree(t.inodes, cut_off).contains(x),
{
    let m = choose|m: nat| #[trigger] reaches(t.inodes, cut_off, x, m);
    if !subtree(t.inodes, cut_off).contains(x) {
    } else if m <= k {
        lemma_reaches_between(t, cut_off, moved, x, m, k);
        let p = choose|p: u64|
            reaches(t.inodes, moved, p, (k - m - 1) as nat) && #[trigger] links(
                t.inodes,
                p,
                cut_off,
            );
        let label = lemma_link(t, p, cut_off);
        assert(child(t, p, label) == Some(cut_off));
    } else {
        lemma_reaches_between(t, moved, cut_off, x, k, m);
        let p = choose|p: u64|
            reaches(t.inodes, cut_off, p, (m - k - 1) as nat) && #[trigger] links(
                t.inodes,
                p,
                moved,
            );
        lemma_entry_links(t, parent, name, moved);
        lemma_one_parent(t, p, parent, moved);
        assert(subtree(t.inodes, cut_off).contains(parent));
    }
}

// ---- Removing ----

/// A removal takes its path away with everything below it, and nothing else. A directory
/// that is not empty goes only if that was asked for; the root never goes.
pub proof fn law_a_removal_takes_its_path_away(t: TreeModel, path: Seq<char>, recursive: bool)
    requires
        sound(t),
    ensures
        match plan_remove(t, path, recursive) {
            Ok((op, orphaned)) => {
                let after = applied(t, op);
                resolved(t, path) matches Ok(ino) && {
                    &&& ino != ROOT
                    &&& resolved(after, path) == Err::<u64, FsError>(FsError::NotFound)
                    &&& !recursive && is_dir(t, ino) ==> t.inodes[ino]->Dir_0 == Map::<
                        Seq<char>,
                        u64,
                    >::empty()
                    &&& is_file(t, ino) ==> orphaned == (t.inodes[ino]->File_0.size > 0)
                    &&& forall|x: u64| #[trigger]
                        t.inodes.contains_key(x) ==> if subtree(t.inodes, ino).contains(x) {
                            !after.inodes.contains_key(x)
                        } else {
                            &&& after.inodes.contains_key(x)
                            &&& is_file(t, x) ==> after.inodes[x] == t.inodes[x]
                            &&& is_dir(t, x) ==> is_dir(after, x) && forall|n: Seq<char>|
                                !entry_at(t, path, x, n) ==> #[trigger] child(after, x, n) == child(
                                    t,
                                    x,
                                    n,
                                )
                        }
                    &&& sound(after)
                }
            },
            Err(FsError::NotEmpty) => !recursive && (resolved(t, path) matches Ok(ino) && is_dir(
                t,
                ino,
            ) && t.inodes[ino]->Dir_0 != Map::<Seq<char>, u64>::empty()),
            Err(FsError::InvalidPath) => resolved(t, path) == Err::<u64, FsError>(
                FsError::InvalidPath,
            ),
            Err(e) => e == FsError::NotFound && (path_parts(path).len() == 0 || resolved(t, path)
                == Err::<u64, FsError>(FsError::NotFound)),
        },
{
    let parts = path_parts(path);
    if parts.len() > 0 {
        assert(parts =~= parts.drop_last().push(parts.last()));
        lemma_walk_push(t, ROOT, parts.drop_last(), parts.last());
    }
    if let Ok((op, _)) = plan_remove(t, path, recursive) {
        let (parent, name) = parent_of(t, path)->Ok_0;
        let ino = child(t, parent, name)->0;
        let cut = without_entry(t, parent, name);
        let after = applied(t, op);
        law_ops_keep_the_tree_sound(t, op);
        lemma_without_entry(t, parent, name);
        assert(resolved(t, path) == Ok::<u64, FsError>(ino));
        lemma_entry_links(t, parent, name, ino);
        assert forall|x: u64| #[trigger] subtree(cut.inodes, ino).contains(x) implies subtree(
            t.inodes,
            ino,
        ).contains(x) by {
            let k = choose|k: nat| #[trigger] reaches(cut.inodes, ino, x, k);
            assert forall|p: u64, c: u64| #[trigger] links(cut.inodes, p, c) implies links(
                t.inodes,
                p,
                c,
            ) by {
                let label = lemma_link(cut, p, c);
                lemma_entry_links(t, p, label, c);
            }
            lemma_reaches_kept(cut.inodes, t.inodes, ino, x, k);
        }
        assert forall|x: u64| #[trigger] subtree(t.inodes, ino).contains(x) implies subtree(
            cut.inodes,
            ino,
        ).contains(x) by {
            let k = choose|k: nat| #[trigger] reaches(t.inodes, ino, x, k);
            lemma_reaches_uncut(t, cut, parent, name, ino, x, k);
        }
        assert forall|x: u64| #[trigger] t.inodes.contains_key(x) implies if subtree(
            t.inodes,
            ino,
        ).contains(x) {
            !after.inodes.contains_key(x)
        } else {
            &&& after.inodes.contains_key(x)
            &&& is_file(t, x) ==> after.inodes[x] == t.inodes[x]
            &&& is_dir(t, x) ==> is_dir(after, x) && forall|n: Seq<char>|
                !entry_at(t, path, x, n) ==> #[trigger] child(after, x, n) == child(t, x, n)
        } by {
            assert(cut.inodes.contains_key(x));
            assert(subtree(cut.inodes, ino).contains(x) == subtree(t.inodes, ino).contains(x));
            if !subtree(t.inodes, ino).contains(x) {
                assert(after.inodes.contains_key(x));
                assert(after.inodes[x] == cut.inodes[x]);
            }
        }
        lemma_walk_push(after, ROOT, parts.drop_last(), parts.last());
        if let Some(at) = walk(after, ROOT, parts.drop_last()) {
            if child(after, at, name) is Some {
                assert forall|d: u64, n: Seq<char>|
                    (#[trigger] child(after, d, n)) is Some implies child(t, d, n) == child(
                    after,
                    d,
                    n,
                ) by {
                    assert(child(cut, d, n) == child(after, d, n));
                }
                lemma_walk_kept(after, t, ROOT, parts.drop_last());
                assert(at == parent);
                assert(child(cut, parent, name) is None);
            }
        }
    }
}

/// Cutting the entry that leads to an inode takes nothing from below it.
proof fn lemma_reaches_uncut(
    t: TreeModel,
    cut: TreeModel,
    parent: u64,
    name: Seq<char>,
    ino: u64,
    x: u64,
    n: nat,
)
    requires
        sound(t),
        child(t, parent, name) == Some(ino),
        cut == without_entry(t, parent, name),
        reaches(t.inodes, ino, x, n),
    ensures
        reaches(cut.inodes, ino, x, n),
    decreases n,
{
    if n > 0 {
        let p = choose|p: u64|
            reaches(t.inodes, ino, p, (n - 1) as nat) && #[trigger] links(t.inodes, p, x);
        lemma_reaches_uncut(t, cut, parent, name, ino, p, (n - 1) as nat);
        let label = lemma_link(t, p, x);
        lemma_without_entry(t, parent, name);
        if p == parent && label == name {
            lemma_step(t.inodes, ino, p, ino, (n - 1) as nat);
            assert(t.inodes.contains_key(ino));
            law_a_sound_tree_has_no_cycle(t, ino, n);
        }
        assert(child(cut, p, label) == Some(x));
        lemma_entry_links(cut, p, label, x);
        assert(reaches(cut.inodes, ino, p, (n - 1) as nat) && links(cut.inodes, p, x));
    }
}

// ---- When an operation is owed, and what it reports ----

/// A path is walked down name by name, from the root on; one that climbs is refused, one
/// with a step that is not there leads nowhere.
pub proof fn law_a_path_is_walked_name_by_name(
    t: TreeModel,
    from: u64,
    parts: Seq<Seq<char>>,
    name: Seq<char>,
    path: Seq<char>,
)
    ensures
        walk(t, from, seq![]) == Some(from),
        walk(t, from, parts.push(name)) == match walk(t, from, parts) {
            Some(at) => child(t, at, name),
            None => None,
        },
        forall|d: u64, n: Seq<char>|
            (#[trigger] child(t, d, n)) is Some <==> t.inodes.contains_key(d) && (
            t.inodes[d] matches InodeModel::Dir(entries) && entries.contains_key(n)),
        forall|d: u64, n: Seq<char>|
            (#[trigger] child(t, d, n)) matches Some(x) ==> t.inodes[d]->Dir_0[n] == x,
        climbs(path) ==> resolved(t, path) == Err::<u64, FsError>(FsError::InvalidPath),
        !climbs(path) ==> resolved(t, path) == match walk(t, 1, path_parts(path)) {
            Some(ino) => Ok::<u64, FsError>(ino),
            None => Err(FsError::NotFound),
        },
{
    lemma_walk_push(t, from, parts, name);
}

/// A move is made exactly if what it moves is there and is not the root, and the target's
/// parent is a directory outside what moves; it reports whether it displaces something.
pub proof fn law_when_a_move_is_made(t: TreeModel, from: Seq<char>, to: Seq<char>)
    requires
        sound(t),
    ensures
        plan_rename(t, from, to) is Ok <==> {
            &&& path_parts(from).len() > 0
            &&& resolved(t, from) is Ok
            &&& path_parts(to).len() > 0
            &&& !climbs(to)
            &&& walk(t, ROOT, path_parts(to).drop_last()) matches Some(dir) && is_dir(t, dir)
                && !subtree(t.inodes, resolved(t, from)->Ok_0).contains(dir)
        },
        plan_rename(t, from, to) matches Ok((op, orphaned)) ==> orphaned == resolved(t, to) is Ok,
{
    let source = path_parts(from);
    let target = path_parts(to);
    if source.len() > 0 {
        assert(source =~= source.drop_last().push(source.last()));
        lemma_walk_push(t, ROOT, source.drop_last(), source.last());
    }
    if target.len() > 0 {
        assert(target =~= target.drop_last().push(target.last()));
        lemma_walk_push(t, ROOT, target.drop_last(), target.last());
    }
}

/// A removal is made exactly if its path leads somewhere but the root, and not, unless that
/// was asked for, to a directory with something in it; it reports whether blocks may have
/// been orphaned.
pub proof fn law_when_a_removal_is_made(t: TreeModel, path: Seq<char>, recursive: bool)
    requires
        sound(t),
    ensures
        plan_remove(t, path, recursive) is Ok <==> path_parts(path).len() > 0 && (resolved(
            t,
            path,
        ) matches Ok(ino) && (recursive || is_file(t, ino) || t.inodes[ino]->Dir_0 == Map::<
            Seq<char>,
            u64,
        >::empty())),
        plan_remove(t, path, recursive) matches Ok((op, orphaned)) ==> {
            let ino = resolved(t, path)->Ok_0;
            &&& is_file(t, ino) ==> orphaned == (t.inodes[ino]->File_0.size > 0)
            &&& is_dir(t, ino) ==> orphaned == (t.inodes[ino]->Dir_0 != Map::<
                Seq<char>,
                u64,
            >::empty())
        },
{
    let parts = path_parts(path);
    if parts.len() > 0 {
        assert(parts =~= parts.drop_last().push(parts.last()));
        lemma_walk_push(t, ROOT, parts.drop_last(), parts.last());
        if let Some(dir) = walk(t, ROOT, parts.drop_last()) {
            if let Some(ino) = child(t, dir, parts.last()) {
                assert(t.inodes.contains_key(ino));
            }
        }
    }
}

/// A write to the root, or along a path that climbs, is refused as no path at all.
pub proof fn law_a_write_needs_a_path(t: TreeModel, path: Seq<char>)
    ensures
        climbs(path) || path_parts(path).len() == 0 ==> plan_write(t, path) == Err::<
            WriteModel,
            FsError,
        >(FsError::InvalidPath),
{
}

/// A block that some file refers to is live.
pub proof fn law_a_referred_block_is_live(t: TreeModel, ino: u64, s: int, b: int)
    requires
        is_file(t, ino),
        0 <= s < t.inodes[ino]->File_0.slices.len(),
        0 <= b < t.inodes[ino]->File_0.slices[s].blocks.len(),
    ensures
        is_live(t, t.inodes[ino]->File_0.slices[s].blocks[b].id),
{
    assert(refers(t, ino, s, b, t.inodes[ino]->File_0.slices[s].blocks[b].id));
}

} // verus!
