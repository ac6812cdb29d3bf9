//! The workspace tree, its operations, and reads and writes through the facet.
use granary::blobs::BlobId;
use granary::facet::Facet;
use granary::facet_blobs::set_of;
use granary::fs::chunk::assemble;
use granary::fs::chunk::concat_all;
use granary::fs::chunk::read_file;
use granary::fs::chunk::write_slice;
use granary::fs::chunk::ReadPlan;
use granary::fs::facet::Fs;
use granary::fs::facet::FsHandle;
use granary::fs::facet::FsMutation;
use granary::fs::facet::FsStage;
use granary::fs::grain::swept;
use granary::fs::grain::DirEntry;
use granary::fs::grain::FsError;
use granary::fs::grain::Metadata;
use granary::fs::grain::Remove;
use granary::fs::grain::Workspace;
use granary::fs::grain::WriteFile;
use granary::fs::meta::components;
use granary::fs::meta::Block;
use granary::fs::meta::FsTree;
use granary::fs::meta::Slice;
use granary::fs::meta::BLOCK_BYTES;
use granary::fs::meta::ROOT;
use granary::fs::op::apply;
use granary::fs::op::FsOp;
use granary::fs::repair::to_store;
use granary::fs::repair::RepairRun;
use granary::grain::GrainRegistry;
use granary::wire::from_bytes;
use granary::wire::to_bytes;
use std::collections::BTreeMap;

fn block(bytes: &[u8]) -> Block {
    Block { id: BlobId::of(bytes), len: bytes.len() as u32 }
}

fn whole_file_slice(seq: u64, bytes: &[u8]) -> Slice {
    Slice { seq, off: 0, len: bytes.len() as u64, blocks: vec![block(bytes)] }
}

#[test]
fn create_inserts_an_entry_and_advances_the_inode_counter() {
    let mut tree = FsTree::default();
    apply(&mut tree, &FsOp::Create { parent: ROOT, name: "a.txt".into(), ino: 2, dir: false });
    assert_eq!(tree.resolve("a.txt").ok(), Some(2));
    assert_eq!(tree.next_ino, 3);
    assert!(tree.file(2).is_some());
}

#[test]
fn write_sets_size_and_advances_seq() {
    let mut tree = FsTree::default();
    apply(&mut tree, &FsOp::Create { parent: ROOT, name: "a".into(), ino: 2, dir: false });
    apply(&mut tree, &FsOp::Write { ino: 2, slice: whole_file_slice(0, b"hello") });
    let file = tree.file(2).unwrap();
    assert_eq!(file.size, 5);
    assert_eq!(file.next_seq, 1);
    assert_eq!(file.slices.len(), 1);
}

#[test]
fn repeated_whole_file_overwrites_keep_one_slice() {
    let mut tree = FsTree::default();
    apply(&mut tree, &FsOp::Create { parent: ROOT, name: "a".into(), ino: 2, dir: false });
    // Same-extent overwrites: each new slice covers the previous.
    for i in 0..1000u64 {
        let bytes = vec![b'x'; 16];
        apply(&mut tree, &FsOp::Write { ino: 2, slice: whole_file_slice(i, &bytes) });
    }
    assert_eq!(tree.file(2).unwrap().slices.len(), 1);
    assert_eq!(tree.file(2).unwrap().next_seq, 1000);
}

#[test]
fn unlink_removes_a_directory_subtree() {
    let mut tree = FsTree::default();
    // /dir, /dir/f
    apply(&mut tree, &FsOp::Create { parent: ROOT, name: "dir".into(), ino: 2, dir: true });
    apply(&mut tree, &FsOp::Create { parent: 2, name: "f".into(), ino: 3, dir: false });
    assert_eq!(tree.resolve("dir/f").ok(), Some(3));
    apply(&mut tree, &FsOp::Unlink { parent: ROOT, name: "dir".into() });
    assert_eq!(tree.resolve("dir").ok(), None);
    // The child inode is gone too (no orphan left in the table).
    assert!(!tree.inodes.contains_key(&3));
}

#[test]
fn rename_moves_and_replaces() {
    let mut tree = FsTree::default();
    apply(&mut tree, &FsOp::Create { parent: ROOT, name: "a".into(), ino: 2, dir: false });
    apply(&mut tree, &FsOp::Create { parent: ROOT, name: "b".into(), ino: 3, dir: false });
    // Rename a -> b: a moves onto b, the old b inode is removed.
    apply(
        &mut tree,
        &FsOp::Rename { from_parent: ROOT, from: "a".into(), to_parent: ROOT, to: "b".into() },
    );
    assert_eq!(tree.resolve("a").ok(), None);
    assert_eq!(tree.resolve("b").ok(), Some(2));
    assert!(!tree.inodes.contains_key(&3));
}

#[test]
fn destroyed_resets_to_an_empty_root() {
    let mut tree = FsTree::default();
    apply(&mut tree, &FsOp::Create { parent: ROOT, name: "a".into(), ino: 2, dir: false });
    apply(&mut tree, &FsOp::Destroyed);
    assert_eq!(tree, FsTree::default());
    assert!(tree.live_blobids().is_empty());
}

#[test]
fn live_blobids_collects_every_referenced_block() {
    let mut tree = FsTree::default();
    apply(&mut tree, &FsOp::Create { parent: ROOT, name: "a".into(), ino: 2, dir: false });
    apply(&mut tree, &FsOp::Write { ino: 2, slice: whole_file_slice(0, b"data") });
    let ids = tree.live_blobids();
    assert!(ids.contains(&BlobId::of(b"data")));
    assert_eq!(ids.len(), 1);
}

#[test]
fn truncation_clips_the_last_block() {
    let mut tree = FsTree::default();
    apply(&mut tree, &FsOp::Create { parent: ROOT, name: "a".into(), ino: 2, dir: false });
    let slice = Slice { seq: 0, off: 0, len: 8, blocks: vec![block(b"abcd"), block(b"efgh")] };
    apply(&mut tree, &FsOp::Write { ino: 2, slice });
    apply(&mut tree, &FsOp::Truncate { ino: 2, size: 3 });
    let file = tree.file(2).unwrap();
    assert_eq!(file.size, 3);
    assert_eq!(file.slices.len(), 1);
    assert_eq!(file.slices[0].len, 3);
    assert_eq!(file.slices[0].blocks.len(), 1);
    apply(&mut tree, &FsOp::Truncate { ino: 2, size: 10 });
    assert_eq!(tree.file(2).unwrap().size, 10);
}

#[test]
fn a_path_is_split_into_its_components() {
    assert_eq!(components("/a//b/").unwrap(), vec!["a", "b"]);
    assert_eq!(components("").unwrap(), Vec::<&str>::new());
    assert_eq!(components("a/../b"), Err(FsError::InvalidPath));
    assert_eq!(components("./a/.").unwrap(), vec!["a"]);
}

/// A command's handle over a tree.
fn on(tree: &FsTree) -> FsHandle<'_> {
    FsHandle { form: tree, stage: Some(FsStage::default()) }
}

/// Write a file, storing its chunks in `blobs`, and commit it.
fn write(tree: &mut FsTree, blobs: &mut BTreeMap<BlobId, Vec<u8>>, path: &str, content: &[u8]) {
    let mut fs = on(tree);
    let plan = fs.plan_write(path, content).unwrap();
    for chunk in &plan.chunks {
        blobs.insert(BlobId::of(chunk), chunk.clone());
    }
    fs.write_file(plan, Ok(())).unwrap();
    commit(tree, fs.stage.unwrap());
}

fn commit(tree: &mut FsTree, stage: FsStage) {
    for record in Fs::drain(stage) {
        assert!(Fs::foldable(tree, &record));
        Fs::fold(tree, &record).unwrap();
    }
}

/// Perform a read plan's fetches.
fn fetch(plan: &ReadPlan, blobs: &BTreeMap<BlobId, Vec<u8>>) -> Vec<u8> {
    let mut fetched = Vec::new();
    for piece in &plan.pieces {
        let mut parts = Vec::new();
        for f in &piece.fetches {
            parts.push(blobs[&f.id][f.lo as usize..f.hi as usize].to_vec());
        }
        fetched.push(concat_all(&parts));
    }
    assemble(plan, &fetched)
}

fn read(
    tree: &FsTree,
    blobs: &BTreeMap<BlobId, Vec<u8>>,
    path: &str,
    range: Option<(u64, u64)>,
) -> Vec<u8> {
    fetch(&on(tree).read_file(path, range).unwrap(), blobs)
}

#[test]
fn a_written_file_reads_back() {
    let mut tree = FsTree::default();
    let mut blobs = BTreeMap::new();
    let big: Vec<u8> = (0..BLOCK_BYTES + 1000).map(|i| (i % 253) as u8).collect();
    write(&mut tree, &mut blobs, "dir/sub/big.bin", &big);
    assert_eq!(read(&tree, &blobs, "dir/sub/big.bin", None), big);
    let lo = BLOCK_BYTES as u64 - 10;
    assert_eq!(
        read(&tree, &blobs, "/dir/sub/big.bin", Some((lo, lo + 20))),
        big[lo as usize..lo as usize + 20].to_vec()
    );
    // A shorter overwrite leaves nothing of the longer file.
    write(&mut tree, &mut blobs, "dir/sub/big.bin", b"short");
    assert_eq!(read(&tree, &blobs, "dir/sub/big.bin", None), b"short".to_vec());
    assert_eq!(tree.live_blobids(), set_of(&vec![BlobId::of(b"short")]));
}

#[test]
fn a_file_reads_as_zeros_where_nothing_was_written() {
    let mut tree = FsTree::default();
    let mut blobs = BTreeMap::new();
    write(&mut tree, &mut blobs, "f", b"abc");
    let mut fs = on(&tree);
    fs.truncate("f", 6).unwrap();
    let stage = fs.stage.unwrap();
    commit(&mut tree, stage);
    assert_eq!(read(&tree, &blobs, "f", None), b"abc\0\0\0".to_vec());
}

#[test]
fn later_slices_win_where_they_overlap() {
    let mut tree = FsTree::default();
    apply(&mut tree, &FsOp::Create { parent: ROOT, name: "f".into(), ino: 2, dir: false });
    let mut blobs = BTreeMap::new();
    let (first, chunks) = write_slice(0, 0, b"aaaaaaaa");
    for c in chunks {
        blobs.insert(BlobId::of(&c), c);
    }
    let (second, chunks) = write_slice(1, 2, b"bbb");
    for c in chunks {
        blobs.insert(BlobId::of(&c), c);
    }
    apply(&mut tree, &FsOp::Write { ino: 2, slice: first });
    apply(&mut tree, &FsOp::Write { ino: 2, slice: second });
    let file = tree.file(2).unwrap();
    assert_eq!(fetch(&read_file(file, 0, 8), &blobs), b"aabbbaaa".to_vec());
    assert_eq!(fetch(&read_file(file, 3, 6), &blobs), b"bba".to_vec());
}

#[test]
fn a_command_sees_its_own_changes() {
    let mut tree = FsTree::default();
    let mut blobs = BTreeMap::new();
    write(&mut tree, &mut blobs, "a", b"one");
    let mut fs = on(&tree);
    fs.rename("a", "b").unwrap();
    assert_eq!(fs.stat("b"), Ok(Metadata { dir: false, size: 3 }));
    assert_eq!(fs.stat("a"), Err(FsError::NotFound));
    assert_eq!(
        fs.list_dir("/"),
        Ok(vec![DirEntry { name: "b".into(), dir: false, size: 3 }])
    );
    // The committed form is untouched until the records fold.
    assert!(tree.resolve("a").is_ok());
}

#[test]
fn the_errors_of_the_tree() {
    let mut tree = FsTree::default();
    let mut blobs = BTreeMap::new();
    write(&mut tree, &mut blobs, "d/f", b"x");
    let mut fs = on(&tree);
    assert_eq!(fs.plan_write("d", b"y"), Err(FsError::IsADirectory));
    assert_eq!(fs.plan_write("d/f/g", b"y"), Err(FsError::NotADirectory));
    assert_eq!(fs.plan_write("", b"y"), Err(FsError::InvalidPath));
    assert_eq!(fs.read_file("d", None), Err(FsError::IsADirectory));
    assert_eq!(fs.read_file("nope", None), Err(FsError::NotFound));
    assert_eq!(fs.list_dir("d/f"), Err(FsError::NotADirectory));
    assert_eq!(fs.remove("d", false), Err(FsError::NotEmpty));
    assert_eq!(fs.remove("gone", true), Err(FsError::NotFound));
    assert_eq!(fs.truncate("d", 0), Err(FsError::IsADirectory));
    let plan = fs.plan_write("new", b"y").unwrap();
    assert_eq!(
        fs.write_file(plan, Err("disk full".into())),
        Err(FsError::Storage("disk full".into()))
    );
    assert_eq!(fs.remove("d", true), Ok(FsMutation { orphaned: true }));
}

#[test]
fn only_a_directory_is_a_parent() {
    let mut tree = FsTree::default();
    let mut blobs = BTreeMap::new();
    write(&mut tree, &mut blobs, "f", b"x");
    write(&mut tree, &mut blobs, "g", b"y");
    assert_eq!(tree.resolve_parent("f/x"), Err(FsError::NotFound));
    assert_eq!(tree.resolve_parent("none/x"), Err(FsError::NotFound));
    assert_eq!(tree.resolve_parent("/"), Err(FsError::NotFound));
    assert_eq!(tree.resolve_parent("a/../x"), Err(FsError::InvalidPath));
    assert_eq!(tree.resolve_parent("x"), Ok((ROOT, "x".into())));
    // A file is not moved below a file, where nothing could reach it.
    let mut fs = on(&tree);
    assert_eq!(fs.rename("g", "f/x"), Err(FsError::NotFound));
    assert_eq!(fs.stage.unwrap().ops, vec![]);
    assert_eq!(read(&tree, &blobs, "g", None), b"y".to_vec());
}

#[test]
fn a_directory_moves_with_all_it_holds_but_not_into_itself() {
    let mut tree = FsTree::default();
    let mut blobs = BTreeMap::new();
    write(&mut tree, &mut blobs, "d/sub/f", b"x");
    write(&mut tree, &mut blobs, "e/other", b"y");
    let f = tree.resolve("d/sub/f").unwrap();
    let mut fs = on(&tree);
    assert_eq!(fs.rename("d", "d/inside"), Err(FsError::InvalidPath));
    assert_eq!(fs.rename("d", "d/sub/inside"), Err(FsError::InvalidPath));
    assert_eq!(fs.stage.as_ref().unwrap().ops, vec![]);
    assert_eq!(fs.rename("d", "e/d"), Ok(FsMutation { orphaned: false }));
    let stage = fs.stage.unwrap();
    commit(&mut tree, stage);
    assert_eq!(tree.resolve("e/d/sub/f").ok(), Some(f));
    assert_eq!(tree.resolve("d").ok(), None);
    assert_eq!(read(&tree, &blobs, "e/d/sub/f", None), b"x".to_vec());
    assert_eq!(read(&tree, &blobs, "e/other", None), b"y".to_vec());
}

#[test]
fn a_command_reads_back_what_it_wrote() {
    let mut tree = FsTree::default();
    let mut blobs = BTreeMap::new();
    write(&mut tree, &mut blobs, "old", b"before");
    let mut fs = on(&tree);
    for (path, content, replaces) in
        [("new/dir/f", b"fresh".to_vec(), false), ("old", b"after".to_vec(), true), ("old", vec![], true)]
    {
        let plan = fs.plan_write(path, &content).unwrap();
        for chunk in &plan.chunks {
            blobs.insert(BlobId::of(chunk), chunk.clone());
        }
        assert_eq!(fs.write_file(plan, Ok(())), Ok(FsMutation { orphaned: replaces }));
        assert_eq!(fetch(&fs.read_file(path, None).unwrap(), &blobs), content);
        assert_eq!(fs.stat(path), Ok(Metadata { dir: false, size: content.len() as u64 }));
    }
    assert_eq!(fs.stat("new/dir"), Ok(Metadata { dir: true, size: 0 }));
    assert_eq!(fs.plan_write("new", b"x"), Err(FsError::IsADirectory));
    // A failure stages nothing.
    let staged = fs.stage.clone();
    let plan = fs.plan_write("old", b"lost").unwrap();
    assert!(fs.write_file(plan, Err("disk full".into())).is_err());
    assert_eq!(fs.stage, staged);
}

#[test]
fn a_tree_and_its_ops_survive_their_encoding() {
    let mut tree = FsTree::default();
    let mut blobs = BTreeMap::new();
    write(&mut tree, &mut blobs, "a/b/c", b"content");
    let bytes = Fs::snapshot(&tree).unwrap();
    assert_eq!(Fs::restore(Some(&bytes)), Ok(tree.clone()));
    let back: FsTree = from_bytes(&bytes).unwrap();
    assert_eq!(back, tree);
    let op = FsOp::Create { parent: 1, name: "n".into(), ino: 300, dir: true };
    let laid_out = (0u32, 1u64, String::from("n"), 300u64, true);
    assert_eq!(to_bytes(&op), postcard::to_allocvec(&laid_out).unwrap());
    let truncate = FsOp::Truncate { ino: 300, size: 1 << 40 };
    assert_eq!(to_bytes(&truncate), postcard::to_allocvec(&(2u32, 300u64, 1u64 << 40)).unwrap());
}

#[test]
fn a_mutation_that_orphans_blobs_asks_for_a_sweep() {
    let handled = swept(Ok(FsMutation { orphaned: true }));
    assert_eq!(handled.reply, Ok(()));
    assert!(handled.sweep);
    assert!(!swept(Ok(FsMutation { orphaned: false })).sweep);
    assert!(!swept(Err(FsError::NotFound)).sweep);
    let mut tree = FsTree::default();
    let mut blobs = BTreeMap::new();
    write(&mut tree, &mut blobs, "f", b"x");
    let mut fs = on(&tree);
    let handled = Workspace::handle_remove(
        &mut fs,
        &Remove { path: "f".into(), recursive: false },
    );
    assert_eq!(handled.reply, Ok(()));
    assert!(handled.sweep);
}

#[test]
fn the_workspace_accepts_its_commands() {
    let mut registry = GrainRegistry::new();
    Workspace::register(&mut registry);
    assert!(registry.accepts(WriteFile::manifest()));
    assert!(registry.accepts("granary.fs.Repair"));
    assert!(!registry.accepts("granary.fs.Format"));
}

#[test]
fn a_repair_visits_every_live_block_once() {
    let ids = vec![BlobId::of(b"1"), BlobId::of(b"2")];
    let mut run = RepairRun::new(set_of(&ids));
    let mut seen = vec![run.next().unwrap(), run.next().unwrap()];
    assert_eq!(run.next(), None);
    seen.sort();
    let mut want = ids;
    want.sort();
    assert_eq!(seen, want);
    assert_eq!(to_store(Ok(vec![1])), Some(vec![1]));
}
