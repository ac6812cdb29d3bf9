//! The workspace metadata: inodes, directories, and the slices of each file.
use vstd::prelude::*;
use vstd::string::*;

use crate::blobs::BlobId;
use crate::fs::grain::FsError;
use crate::key::rank_str;
use crate::key::Rank;
use crate::ordmap::Dup;
use crate::ordmap::OrdMap;
use crate::ordmap::OrdSet;
use crate::text::chars_of;

verus! {

/// An inode number. The root directory is always [`ROOT`].
pub type Ino = u64;

/// The root directory's inode. A fresh tree has it; the fold never creates it.
pub const ROOT: u64 = 1;

/// The largest content block: a write is cut into blocks of at most this many
/// bytes, each stored as one blob.
pub const BLOCK_BYTES: usize = 4194304;

/// One content block: the blob that holds its bytes, and how many of them count.
#[derive(Clone, Debug, PartialEq, Eq)]
pub struct Block {
    pub id: BlobId,
    pub len: u32,
}

/// One immutable write to a file: the bytes `[off, off + len)` as a run of blocks.
/// Where two slices overlap, the one with the higher `seq` shadows the other.
#[derive(Clone, Debug, PartialEq, Eq)]
pub struct Slice {
    pub seq: u64,
    pub off: u64,
    pub len: u64,
    pub blocks: Vec<Block>,
}

/// A regular file: its size, the next slice birth-order, and its slices.
#[derive(Clone, Debug, PartialEq, Eq)]
pub struct FileData {
    pub size: u64,
    pub next_seq: u64,
    pub slices: Vec<Slice>,
}

/// A file or a directory. A directory maps child names to their inodes.
#[derive(Clone, Debug, PartialEq, Eq)]
pub enum Inode {
    File(FileData),
    Dir(OrdMap<String, u64>),
}

/// The whole metadata image: the inode table and the next inode to mint.
#[derive(Clone, Debug, PartialEq, Eq)]
pub struct FsTree {
    pub inodes: OrdMap<u64, Inode>,
    pub next_ino: u64,
}

// ---- What these are, mathematically ----

pub struct BlockModel {
    pub id: Seq<u8>,
    pub len: u32,
}

#[verifier::ext_equal]
pub struct SliceModel {
    pub seq: u64,
    pub off: u64,
    pub len: u64,
    pub blocks: Seq<BlockModel>,
}

#[verifier::ext_equal]
pub struct FileModel {
    pub size: u64,
    pub next_seq: u64,
    pub slices: Seq<SliceModel>,
}

#[verifier::ext_equal]
pub enum InodeModel {
    File(FileModel),
    Dir(Map<Seq<char>, u64>),
}

#[verifier::ext_equal]
pub struct TreeModel {
    pub inodes: Map<u64, InodeModel>,
    pub next_ino: u64,
}

impl DeepView for Block {
    type V = BlockModel;

    open spec fn deep_view(&self) -> BlockModel {
        BlockModel { id: self.id@, len: self.len }
    }
}

impl DeepView for Slice {
    type V = SliceModel;

    open spec fn deep_view(&self) -> SliceModel {
        SliceModel {
            seq: self.seq,
            off: self.off,
            len: self.len,
            blocks: self.blocks.deep_view(),
        }
    }
}

impl DeepView for FileData {
    type V = FileModel;

    open spec fn deep_view(&self) -> FileModel {
        FileModel { size: self.size, next_seq: self.next_seq, slices: self.slices.deep_view() }
    }
}

impl DeepView for Inode {
    type V = InodeModel;

    open spec fn deep_view(&self) -> InodeModel {
        match *self {
            Inode::File(file) => InodeModel::File(file.deep_view()),
            Inode::Dir(entries) => InodeModel::Dir(entries.deep_view()),
        }
    }
}

impl DeepView for FsTree {
    type V = TreeModel;

    open spec fn deep_view(&self) -> TreeModel {
        TreeModel { inodes: self.inodes.deep_view(), next_ino: self.next_ino }
    }
}

impl Block {
    pub fn dup(&self) -> (r: Block)
        ensures
            r.deep_view() == self.deep_view(),
    {
        Block { id: self.id, len: self.len }
    }
}

impl Slice {
    pub fn dup(&self) -> (r: Slice)
        ensures
            r.deep_view() == self.deep_view(),
    {
        let mut blocks: Vec<Block> = Vec::new();
        let mut i: usize = 0;
        while i < self.blocks.len()
            invariant
                i <= self.blocks@.len(),
                blocks.deep_view() == self.blocks.deep_view().take(i as int),
            decreases self.blocks@.len() - i,
        {
            let block = self.blocks[i].dup();
            let ghost was = blocks.deep_view();
            blocks.push(block);
            i = i + 1;
            assert(blocks.deep_view() =~= was.push(block.deep_view()));
            assert(blocks.deep_view() =~= self.blocks.deep_view().take(i as int));
        }
        assert(blocks.deep_view() =~= self.blocks.deep_view());
        Slice { seq: self.seq, off: self.off, len: self.len, blocks }
    }
}

impl FileData {
    /// An empty file.
    pub fn empty() -> (r: FileData)
        ensures
            r.deep_view() == (FileModel { size: 0, next_seq: 0, slices: seq![] }),
    {
        let r = FileData { size: 0, next_seq: 0, slices: Vec::new() };
        assert(r.slices.deep_view() =~= seq![]);
        r
    }

    pub fn dup(&self) -> (r: FileData)
        ensures
            r.deep_view() == self.deep_view(),
    {
        let mut slices: Vec<Slice> = Vec::new();
        let mut i: usize = 0;
        while i < self.slices.len()
            invariant
                i <= self.slices@.len(),
                slices.deep_view() == self.slices.deep_view().take(i as int),
            decreases self.slices@.len() - i,
        {
            let slice = self.slices[i].dup();
            let ghost was = slices.deep_view();
            slices.push(slice);
            i = i + 1;
            assert(slices.deep_view() =~= was.push(slice.deep_view()));
            assert(slices.deep_view() =~= self.slices.deep_view().take(i as int));
        }
        assert(slices.deep_view() =~= self.slices.deep_view());
        FileData { size: self.size, next_seq: self.next_seq, slices }
    }
}

impl Inode {
    /// A directory's entries are well formed.
    pub open spec fn wf(&self) -> bool {
        match *self {
            Inode::File(_) => true,
            Inode::Dir(entries) => entries.wf(),
        }
    }

    /// Whether it is a directory, and a file's size (0 for a directory).
    pub fn entry_meta(&self) -> (r: (bool, u64))
        ensures
            r == meta_of(self.deep_view()),
    {
        match self {
            Inode::File(file) => (false, file.size),
            Inode::Dir(_) => (true, 0),
        }
    }
}

/// Whether an inode is a directory, and a file's size (0 for a directory).
pub open spec fn meta_of(inode: InodeModel) -> (bool, u64) {
    match inode {
        InodeModel::File(file) => (false, file.size),
        InodeModel::Dir(_) => (true, 0u64),
    }
}

impl Dup for u64 {
    open spec fn dup_inv(&self) -> bool {
        true
    }

    fn dup(&self) -> (r: u64) {
        *self
    }
}

impl Dup for Inode {
    open spec fn dup_inv(&self) -> bool {
        self.wf()
    }

    fn dup(&self) -> (r: Inode) {
        match self {
            Inode::File(file) => Inode::File(file.dup()),
            Inode::Dir(entries) => Inode::Dir(entries.dup()),
        }
    }
}

impl FsTree {
    /// The inode table and every directory in it are well formed.
    pub open spec fn wf(&self) -> bool {
        self.inodes.wf() && self.inodes.all_values(|inode: Inode| inode.dup_inv())
    }

    /// A tree equal to this one.
    pub fn dup(&self) -> (r: FsTree)
        requires
            self.wf(),
        ensures
            r.wf(),
            r.deep_view() == self.deep_view(),
    {
        FsTree { inodes: self.inodes.dup(), next_ino: self.next_ino }
    }
}

/// The tree with only an empty root directory.
pub open spec fn empty_tree() -> TreeModel {
    TreeModel {
        inodes: Map::<u64, InodeModel>::empty().insert(
            ROOT,
            InodeModel::Dir(Map::<Seq<char>, u64>::empty()),
        ),
        next_ino: 2,
    }
}

impl Default for FsTree {
    fn default() -> (r: FsTree)
        ensures
            r.wf(),
            r.deep_view() == empty_tree(),
    {
        let mut inodes: OrdMap<u64, Inode> = OrdMap::new();
        let entries: OrdMap<String, u64> = OrdMap::new();
        assert(entries.deep_view() =~= Map::<Seq<char>, u64>::empty());
        inodes.insert(ROOT, Inode::Dir(entries));
        let r = FsTree { inodes, next_ino: ROOT + 1 };
        assert(r.deep_view().inodes =~= empty_tree().inodes);
        r
    }
}

// ---- Paths ----

/// A path cut at every `/`, empty pieces included.
pub open spec fn raw_parts(path: Seq<char>) -> Seq<Seq<char>>
    decreases path.len(),
{
    if path.len() == 0 {
        seq![seq![]]
    } else {
        let before = raw_parts(path.drop_last());
        if path.last() == '/' {
            before.push(seq![])
        } else {
            before.update(before.len() - 1, before.last().push(path.last()))
        }
    }
}

/// Empty pieces and `.` name nothing.
pub open spec fn names_something(part: Seq<char>) -> bool {
    part.len() > 0 && part != seq!['.']
}

pub open spec fn path_parts(path: Seq<char>) -> Seq<Seq<char>> {
    raw_parts(path).filter(|part: Seq<char>| names_something(part))
}

/// A path that climbs with `..` cannot be resolved: the tree keeps no parent links.
pub open spec fn climbs(path: Seq<char>) -> bool {
    path_parts(path).contains(seq!['.', '.'])
}

/// The views of a list of strings.
pub open spec fn texts(parts: Seq<&str>) -> Seq<Seq<char>> {
    Seq::new(parts.len(), |i: int| parts[i]@)
}

fn piece_names(chars: &Vec<char>, from: usize, to: usize) -> (r: bool)
    requires
        from <= to <= chars@.len(),
    ensures
        r == names_something(chars@.subrange(from as int, to as int)),
{
    let ghost part = chars@.subrange(from as int, to as int);
    if from == to {
        return false;
    }
    if to - from == 1 && chars[from] == '.' {
        assert(part =~= seq!['.']);
        return false;
    }
    assert(part != seq!['.']) by {
        if part == seq!['.'] {
            assert(part.len() == 1);
            assert(part[0] == '.');
            assert(chars@[from as int] == part[0]);
        }
    }
    true
}

/// Add the piece `[from, to)` of a path to its components, if it names something.
fn add_piece<'a>(
    path: &'a str,
    chars: &Vec<char>,
    from: usize,
    to: usize,
    comps: &mut Vec<&'a str>,
)
    requires
        chars@ == path@,
        from <= to <= chars@.len(),
    ensures
        texts(final(comps)@) == if names_something(path@.subrange(from as int, to as int)) {
            texts(old(comps)@).push(path@.subrange(from as int, to as int))
        } else {
            texts(old(comps)@)
        },
{
    if piece_names(chars, from, to) {
        let ghost was = texts(comps@);
        comps.push(path.substring_char(from, to));
        assert(texts(comps@) =~= was.push(path@.subrange(from as int, to as int)));
    }
}

/// Whether one of the components is `..`.
fn any_climbs(comps: &Vec<&str>) -> (r: bool)
    ensures
        r == texts(comps@).contains(seq!['.', '.']),
{
    proof {
        reveal_strlit("..");
        assert(".."@ =~= seq!['.', '.']);
    }
    let mut i: usize = 0;
    while i < comps.len()
        invariant
            i <= comps@.len(),
            ".."@ == seq!['.', '.'],
            forall|j: int| 0 <= j < i ==> texts(comps@)[j] != seq!['.', '.'],
        decreases comps@.len() - i,
    {
        if rank_str(comps[i], "..") == Rank::Same {
            assert(texts(comps@)[i as int] == seq!['.', '.']);
            return true;
        }
        i = i + 1;
    }
    false
}

/// The components of a path: its pieces between slashes without the empty ones
/// and `.`. A `..` component is refused.
pub fn components(path: &str) -> (r: Result<Vec<&str>, FsError>)
    ensures
        climbs(path@) ==> r == Err::<Vec<&str>, FsError>(FsError::InvalidPath),
        !climbs(path@) ==> r is Ok && texts(r->Ok_0@) == path_parts(path@),
{
    let chars = chars_of(path);
    let n: usize = chars.len();
    let mut comps: Vec<&str> = Vec::new();
    let mut start: usize = 0;
    let mut i: usize = 0;
    let ghost keep = |part: Seq<char>| names_something(part);
    let ghost mut closed: Seq<Seq<char>> = seq![];
    proof {
        assert(chars@.subrange(0, 0) =~= seq![]);
        assert(raw_parts(chars@.take(0)) =~= closed.push(chars@.subrange(0, 0)));
        reveal(Seq::filter);
        assert(texts(comps@) =~= closed.filter(keep));
    }
    while i < n
        invariant
            n == chars@.len(),
            chars@ == path@,
            keep == (|part: Seq<char>| names_something(part)),
            start <= i <= n,
            raw_parts(chars@.take(i as int)) == closed.push(
                chars@.subrange(start as int, i as int),
            ),
            texts(comps@) == closed.filter(keep),
        decreases n - i,
    {
        proof {
            assert(chars@.take(i + 1).drop_last() =~= chars@.take(i as int));
        }
        if chars[i] == '/' {
            proof {
                reveal(Seq::filter);
                let shut = closed.push(chars@.subrange(start as int, i as int));
                assert(shut.drop_last() =~= closed);
                assert(chars@.subrange(i + 1, i + 1) =~= seq![]);
                assert(raw_parts(chars@.take(i + 1)) =~= shut.push(chars@.subrange(i + 1, i + 1)));
                closed = shut;
            }
            add_piece(path, &chars, start, i, &mut comps);
            start = i + 1;
        } else {
            proof {
                let before = raw_parts(chars@.take(i as int));
                assert(before.last() =~= chars@.subrange(start as int, i as int));
                assert(chars@.subrange(start as int, i + 1) =~= before.last().push(
                    chars@[i as int],
                ));
                assert(raw_parts(chars@.take(i + 1)) =~= closed.push(
                    chars@.subrange(start as int, i + 1),
                ));
            }
        }
        i = i + 1;
    }
    proof {
        reveal(Seq::filter);
        assert(chars@.take(i as int) =~= chars@);
        assert(raw_parts(path@).drop_last() =~= closed);
    }
    add_piece(path, &chars, start, n, &mut comps);
    if any_climbs(&comps) {
        Err(FsError::InvalidPath)
    } else {
        Ok(comps)
    }
}

// ---- Looking things up ----

/// The entry `name` of the directory `dir`, if both are there.
pub open spec fn child(t: TreeModel, dir: u64, name: Seq<char>) -> Option<u64> {
    if t.inodes.contains_key(dir) {
        match t.inodes[dir] {
            InodeModel::Dir(entries) => if entries.contains_key(name) {
                Some(entries[name])
            } else {
                None
            },
            InodeModel::File(_) => None,
        }
    } else {
        None
    }
}

/// Where a walk down `parts` from `from` ends, if every step exists.
pub open spec fn walk(t: TreeModel, from: u64, parts: Seq<Seq<char>>) -> Option<u64>
    decreases parts.len(),
{
    if parts.len() == 0 {
        Some(from)
    } else {
        match child(t, from, parts[0]) {
            Some(next) => walk(t, next, parts.skip(1)),
            None => None,
        }
    }
}

pub open spec fn is_dir(t: TreeModel, ino: u64) -> bool {
    t.inodes.contains_key(ino) && t.inodes[ino] is Dir
}

pub open spec fn is_file(t: TreeModel, ino: u64) -> bool {
    t.inodes.contains_key(ino) && t.inodes[ino] is File
}

/// The blocks that some file of the tree still refers to.
pub open spec fn is_live(t: TreeModel, id: Seq<u8>) -> bool {
    exists|ino: u64, s: int, b: int| #[trigger] refers(t, ino, s, b, id)
}

/// Block `b` of slice `s` of the file `ino` is the blob `id`.
pub open spec fn refers(t: TreeModel, ino: u64, s: int, b: int, id: Seq<u8>) -> bool {
    &&& is_file(t, ino)
    &&& 0 <= s < t.inodes[ino]->File_0.slices.len()
    &&& 0 <= b < t.inodes[ino]->File_0.slices[s].blocks.len()
    &&& t.inodes[ino]->File_0.slices[s].blocks[b].id == id
}

impl FsTree {
    /// The directory entries at `ino`, or `None` if it is absent or a file.
    pub fn dir(&self, ino: u64) -> (r: Option<&OrdMap<String, u64>>)
        requires
            self.wf(),
        ensures
            r is Some == is_dir(self.deep_view(), ino),
            r is Some ==> r->0.wf() && self.deep_view().inodes[ino] == InodeModel::Dir(
                r->0.deep_view(),
            ),
    {
        match self.inodes.get(&ino) {
            Some(inode) => match inode {
                Inode::Dir(entries) => Some(entries),
                Inode::File(_) => None,
            },
            None => None,
        }
    }

    /// The file data at `ino`, or `None` if it is absent or a directory.
    pub fn file(&self, ino: u64) -> (r: Option<&FileData>)
        requires
            self.wf(),
        ensures
            r is Some == is_file(self.deep_view(), ino),
            r is Some ==> self.deep_view().inodes[ino] == InodeModel::File(r->0.deep_view()),
    {
        match self.inodes.get(&ino) {
            Some(inode) => match inode {
                Inode::File(file) => Some(file),
                Inode::Dir(_) => None,
            },
            None => None,
        }
    }

    /// The entry `name` of the directory `dir`.
    pub fn entry(&self, dir: u64, name: &str) -> (r: Option<u64>)
        requires
            self.wf(),
        ensures
            r == child(self.deep_view(), dir, name@),
    {
        match self.dir(dir) {
            Some(entries) => match entries.get(&name.to_owned()) {
                Some(ino) => Some(*ino),
                None => None,
            },
            None => None,
        }
    }

    /// Follow the first `n` components down from the root.
    fn walk_down(&self, comps: &Vec<&str>, n: usize) -> (r: Option<u64>)
        requires
            self.wf(),
            n <= comps@.len(),
        ensures
            r == walk(self.deep_view(), ROOT, texts(comps@).take(n as int)),
    {
        let mut ino: u64 = ROOT;
        let mut i: usize = 0;
        let ghost t = self.deep_view();
        let ghost parts = texts(comps@).take(n as int);
        assert(parts.skip(0) =~= parts);
        while i < n
            invariant
                self.wf(),
                t == self.deep_view(),
                i <= n <= comps@.len(),
                parts == texts(comps@).take(n as int),
                walk(t, ROOT, parts) == walk(t, ino, parts.skip(i as int)),
            decreases n - i,
        {
            assert(parts.skip(i as int)[0] == comps@[i as int]@);
            assert(parts.skip(i as int).skip(1) =~= parts.skip(i + 1));
            match self.entry(ino, comps[i]) {
                Some(next) => {
                    ino = next;
                },
                None => {
                    return None;
                },
            }
            i = i + 1;
        }
        Some(ino)
    }

    /// The inode a path leads to. A missing step, or a step through something that
    /// is not a directory, is `NotFound`; a `..` component is `InvalidPath`.
    pub fn resolve(&self, path: &str) -> (r: Result<u64, FsError>)
        requires
            self.wf(),
        ensures
            r == resolved(self.deep_view(), path@),
    {
        match components(path) {
            Err(e) => Err(FsError::InvalidPath),
            Ok(comps) => {
                assert(texts(comps@).take(comps@.len() as int) =~= texts(comps@));
                match self.walk_down(&comps, comps.len()) {
                    Some(ino) => Ok(ino),
                    None => Err(FsError::NotFound),
                }
            },
        }
    }

    /// The directory a path's last component belongs in, and that component's
    /// name. The root has no parent, and what is no directory holds nothing:
    /// `NotFound`.
    pub fn resolve_parent(&self, path: &str) -> (r: Result<(u64, String), FsError>)
        requires
            self.wf(),
        ensures
            match r {
                Ok((dir, name)) => parent_of(self.deep_view(), path@) == Ok::<
                    (u64, Seq<char>),
                    FsError,
                >((dir, name@)),
                Err(e) => parent_of(self.deep_view(), path@) == Err::<(u64, Seq<char>), FsError>(e),
            },
    {
        match components(path) {
            Err(e) => Err(FsError::InvalidPath),
            Ok(comps) => {
                let n: usize = comps.len();
                if n == 0 {
                    return Err(FsError::NotFound);
                }
                assert(texts(comps@).take(n - 1) =~= texts(comps@).drop_last());
                match self.walk_down(&comps, n - 1) {
                    Some(ino) => if self.dir(ino).is_some() {
                        Ok((ino, comps[n - 1].to_owned()))
                    } else {
                        Err(FsError::NotFound)
                    },
                    None => Err(FsError::NotFound),
                }
            },
        }
    }

    /// Every block id that any file still refers to: what a sweep must keep.
    pub fn live_blobids(&self) -> (r: OrdSet<BlobId>)
        requires
            self.wf(),
        ensures
            r.wf(),
            forall|id: Seq<u8>| #[trigger] r@.contains(id) <==> is_live(self.deep_view(), id),
    {
        let ghost t = self.deep_view();
        let ghost keys = self.inodes.key_seq();
        let mut ids: OrdSet<BlobId> = OrdSet::new();
        let n: usize = self.inodes.len();
        let mut i: usize = 0;
        while i < n
            invariant
                self.wf(),
                t == self.deep_view(),
                keys == self.inodes.key_seq(),
                n == keys.len(),
                i <= n,
                ids.wf(),
                forall|id: Seq<u8>| #[trigger] ids@.contains(id) ==> is_live(t, id),
                forall|k: int, s: int, b: int, id: Seq<u8>|
                    0 <= k < i && #[trigger] refers(t, keys[k], s, b, id) ==> ids@.contains(id),
            decreases n - i,
        {
            let ghost ino = keys[i as int];
            match self.inodes.value_at(i) {
                Inode::File(file) => {
                    assert(t.inodes[ino] == InodeModel::File(file.deep_view()));
                    assert(t.inodes.contains_key(ino));
                    let mut s: usize = 0;
                    while s < file.slices.len()
                        invariant
                            t.inodes.contains_key(ino),
                            t.inodes[ino] == InodeModel::File(file.deep_view()),
                            keys[i as int] == ino,
                            s <= file.slices@.len(),
                            ids.wf(),
                            forall|id: Seq<u8>| #[trigger] ids@.contains(id) ==> is_live(t, id),
                            forall|k: int, x: int, b: int, id: Seq<u8>|
                                0 <= k < i && #[trigger] refers(t, keys[k], x, b, id)
                                    ==> ids@.contains(id),
                            forall|x: int, b: int, id: Seq<u8>|
                                x < s && #[trigger] refers(t, ino, x, b, id) ==> ids@.contains(id),
                        decreases file.slices@.len() - s,
                    {
                        let blocks = &file.slices[s].blocks;
                        assert(t.inodes[ino]->File_0.slices[s as int]
                            == file.slices@[s as int].deep_view());
                        let mut b: usize = 0;
                        while b < blocks.len()
                            invariant
                                t.inodes.contains_key(ino),
                                t.inodes[ino] == InodeModel::File(file.deep_view()),
                                keys[i as int] == ino,
                                s < file.slices@.len(),
                                *blocks == file.slices@[s as int].blocks,
                                t.inodes[ino]->File_0.slices[s as int]
                                    == file.slices@[s as int].deep_view(),
                                b <= blocks@.len(),
                                ids.wf(),
                                forall|id: Seq<u8>| #[trigger] ids@.contains(id) ==> is_live(t, id),
                                forall|k: int, x: int, y: int, id: Seq<u8>|
                                    0 <= k < i && #[trigger] refers(t, keys[k], x, y, id)
                                        ==> ids@.contains(id),
                                forall|x: int, y: int, id: Seq<u8>|
                                    x < s && #[trigger] refers(t, ino, x, y, id) ==> ids@.contains(
                                        id,
                                    ),
                                forall|y: int, id: Seq<u8>|
                                    y < b && #[trigger] refers(t, ino, s as int, y, id)
                                        ==> ids@.contains(id),
                            decreases blocks@.len() - b,
                        {
                            assert(refers(t, ino, s as int, b as int, blocks@[b as int].id@));
                            ids.insert(blocks[b].id);
                            b = b + 1;
                        }
                        s = s + 1;
                    }
                },
                Inode::Dir(_) => {
                    assert(t.inodes[ino] is Dir);
                },
            }
            i = i + 1;
        }
        proof {
            self.inodes.lemma_keys();
            assert forall|id: Seq<u8>| is_live(t, id) implies #[trigger] ids@.contains(id) by {
                let (ino, s, b) = choose|ino: u64, s: int, b: int| #[trigger]
                    refers(t, ino, s, b, id);
                assert(self.inodes@.contains_key(ino));
                let k = keys.index_of(ino);
                assert(keys[k] == ino);
                assert(refers(t, keys[k], s, b, id));
            }
        }
        ids
    }
}

/// What resolving a path answers.
pub open spec fn resolved(t: TreeModel, path: Seq<char>) -> Result<u64, FsError> {
    if climbs(path) {
        Err(FsError::InvalidPath)
    } else {
        match walk(t, ROOT, path_parts(path)) {
            Some(ino) => Ok(ino),
            None => Err(FsError::NotFound),
        }
    }
}

/// What resolving a path's parent answers.
pub open spec fn parent_of(t: TreeModel, path: Seq<char>) -> Result<(u64, Seq<char>), FsError> {
    let parts = path_parts(path);
    if climbs(path) {
        Err(FsError::InvalidPath)
    } else if parts.len() == 0 {
        Err(FsError::NotFound)
    } else {
        match walk(t, ROOT, parts.drop_last()) {
            Some(dir) => if is_dir(t, dir) {
                Ok((dir, parts.last()))
            } else {
                Err(FsError::NotFound)
            },
            None => Err(FsError::NotFound),
        }
    }
}

/// A list of names stands for the characters of each of them, in order.
pub proof fn law_names_are_seen_as_their_characters(parts: Seq<&str>, i: int)
    requires
        0 <= i < parts.len(),
    ensures
        texts(parts).len() == parts.len(),
        texts(parts)[i] == parts[i]@,
{
}

} // verus!
