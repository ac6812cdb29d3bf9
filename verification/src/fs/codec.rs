//! How the workspace metadata and its ops are encoded.
use vstd::prelude::*;

use crate::blobs::BlobId;
use crate::fs::meta::Block;
use crate::fs::meta::BlockModel;
use crate::fs::meta::FileData;
use crate::fs::meta::FileModel;
use crate::fs::meta::FsTree;
use crate::fs::meta::Inode;
use crate::fs::meta::InodeModel;
use crate::fs::meta::Slice;
use crate::fs::meta::SliceModel;
use crate::fs::meta::TreeModel;
use crate::fs::op::FsOp;
use crate::fs::op::OpModel;
use crate::ordmap::OrdMap;
use crate::wire::dec_list;
use crate::wire::enc_list;
use crate::wire::fits_list;
use crate::wire::lemma_list;
use crate::wire::put_list;
use crate::wire::take_list;
use crate::wire::Decoded;
use crate::wire::Wire;
use crate::wire::WireError;

verus! {

impl Wire for Block {
    open spec fn wire_inv(&self) -> bool {
        true
    }

    open spec fn fits(m: BlockModel) -> bool {
        <BlobId as Wire>::fits(m.id) && <u32 as Wire>::fits(m.len)
    }

    open spec fn enc(m: BlockModel) -> Seq<u8> {
        <(BlobId, u32) as Wire>::enc((m.id, m.len))
    }

    open spec fn dec(b: Seq<u8>) -> Decoded<BlockModel> {
        match <(BlobId, u32) as Wire>::dec(b) {
            Err(e) => Err(e),
            Ok(((id, len), rest)) => Ok((BlockModel { id, len }, rest)),
        }
    }

    proof fn round_trip(m: BlockModel, rest: Seq<u8>) {
        <(BlobId, u32) as Wire>::round_trip((m.id, m.len), rest);
    }

    fn put(&self, out: &mut Vec<u8>) {
        let ghost before = out@;
        self.id.put(out);
        self.len.put(out);
        assert(out@ =~= before + Self::enc(self.deep_view()));
    }

    fn take<'a>(b: &'a [u8]) -> (r: Result<(Block, &'a [u8]), WireError>) {
        match <(BlobId, u32) as Wire>::take(b) {
            Err(e) => Err(e),
            Ok(((id, len), rest)) => Ok((Block { id, len }, rest)),
        }
    }
}

impl Wire for Vec<Block> {
    open spec fn wire_inv(&self) -> bool {
        true
    }

    open spec fn fits(m: Seq<BlockModel>) -> bool {
        fits_list::<Block>(m)
    }

    open spec fn enc(m: Seq<BlockModel>) -> Seq<u8> {
        enc_list::<Block>(m)
    }

    open spec fn dec(b: Seq<u8>) -> Decoded<Seq<BlockModel>> {
        dec_list::<Block>(b)
    }

    proof fn round_trip(m: Seq<BlockModel>, rest: Seq<u8>) {
        lemma_list::<Block>(m, rest);
    }

    fn put(&self, out: &mut Vec<u8>) {
        put_list(self, out);
    }

    fn take<'a>(b: &'a [u8]) -> (r: Result<(Vec<Block>, &'a [u8]), WireError>) {
        take_list::<Block>(b)
    }
}

impl Wire for Slice {
    open spec fn wire_inv(&self) -> bool {
        true
    }

    open spec fn fits(m: SliceModel) -> bool {
        <u64 as Wire>::fits(m.seq) && <u64 as Wire>::fits(m.off) && <u64 as Wire>::fits(m.len) && <Vec<Block> as Wire>::fits(m.blocks)
    }

    open spec fn enc(m: SliceModel) -> Seq<u8> {
        <(u64, (u64, (u64, Vec<Block>))) as Wire>::enc((m.seq, (m.off, (m.len, m.blocks))))
    }

    open spec fn dec(b: Seq<u8>) -> Decoded<SliceModel> {
        match <(u64, (u64, (u64, Vec<Block>))) as Wire>::dec(b) {
            Err(e) => Err(e),
            Ok(((seq, (off, (len, blocks))), rest)) => Ok((SliceModel { seq, off, len, blocks }, rest)),
        }
    }

    proof fn round_trip(m: SliceModel, rest: Seq<u8>) {
        <(u64, (u64, (u64, Vec<Block>))) as Wire>::round_trip((m.seq, (m.off, (m.len, m.blocks))), rest);
    }

    fn put(&self, out: &mut Vec<u8>) {
        let ghost before = out@;
        self.seq.put(out);
        self.off.put(out);
        self.len.put(out);
        self.blocks.put(out);
        assert(out@ =~= before + Self::enc(self.deep_view()));
    }

    fn take<'a>(b: &'a [u8]) -> (r: Result<(Slice, &'a [u8]), WireError>) {
        match <(u64, (u64, (u64, Vec<Block>))) as Wire>::take(b) {
            Err(e) => Err(e),
            Ok(((seq, (off, (len, blocks))), rest)) => Ok((Slice { seq, off, len, blocks }, rest)),
        }
    }
}

impl Wire for Vec<Slice> {
    open spec fn wire_inv(&self) -> bool {
        true
    }

    open spec fn fits(m: Seq<SliceModel>) -> bool {
        fits_list::<Slice>(m)
    }

    open spec fn enc(m: Seq<SliceModel>) -> Seq<u8> {
        enc_list::<Slice>(m)
    }

    open spec fn dec(b: Seq<u8>) -> Decoded<Seq<SliceModel>> {
        dec_list::<Slice>(b)
    }

    proof fn round_trip(m: Seq<SliceModel>, rest: Seq<u8>) {
        lemma_list::<Slice>(m, rest);
    }

    fn put(&self, out: &mut Vec<u8>) {
        put_list(self, out);
    }

    fn take<'a>(b: &'a [u8]) -> (r: Result<(Vec<Slice>, &'a [u8]), WireError>) {
        take_list::<Slice>(b)
    }
}

impl Wire for FileData {
    open spec fn wire_inv(&self) -> bool {
        true
    }

    open spec fn fits(m: FileModel) -> bool {
        <u64 as Wire>::fits(m.size) && <u64 as Wire>::fits(m.next_seq) && <Vec<Slice> as Wire>::fits(m.slices)
    }

    open spec fn enc(m: FileModel) -> Seq<u8> {
        <(u64, (u64, Vec<Slice>)) as Wire>::enc((m.size, (m.next_seq, m.slices)))
    }

    open spec fn dec(b: Seq<u8>) -> Decoded<FileModel> {
        match <(u64, (u64, Vec<Slice>)) as Wire>::dec(b) {
            Err(e) => Err(e),
            Ok(((size, (next_seq, slices)), rest)) => Ok((FileModel { size, next_seq, slices }, rest)),
        }
    }

    proof fn round_trip(m: FileModel, rest: Seq<u8>) {
        <(u64, (u64, Vec<Slice>)) as Wire>::round_trip((m.size, (m.next_seq, m.slices)), rest);
    }

    fn put(&self, out: &mut Vec<u8>) {
        let ghost before = out@;
        self.size.put(out);
        self.next_seq.put(out);
        self.slices.put(out);
        assert(out@ =~= before + Self::enc(self.deep_view()));
    }

    fn take<'a>(b: &'a [u8]) -> (r: Result<(FileData, &'a [u8]), WireError>) {
        match <(u64, (u64, Vec<Slice>)) as Wire>::take(b) {
            Err(e) => Err(e),
            Ok(((size, (next_seq, slices)), rest)) => Ok((FileData { size, next_seq, slices }, rest)),
        }
    }
}

impl Wire for Inode {
    open spec fn wire_inv(&self) -> bool {
        self.wf()
    }

    open spec fn fits(m: InodeModel) -> bool {
        match m {
            InodeModel::File(file) => <FileData as Wire>::fits(file),
            InodeModel::Dir(entries) => <OrdMap<String, u64> as Wire>::fits(entries),
        }
    }

    open spec fn enc(m: InodeModel) -> Seq<u8> {
        match m {
            InodeModel::File(file) => u32::enc(0) + <FileData as Wire>::enc(file),
            InodeModel::Dir(entries) => u32::enc(1) + <OrdMap<String, u64> as Wire>::enc(entries),
        }
    }

    open spec fn dec(b: Seq<u8>) -> Decoded<InodeModel> {
        match u32::dec(b) {
            Err(e) => Err(e),
            Ok((index, rest)) => if index == 0 {
                match <FileData as Wire>::dec(rest) {
                    Err(e) => Err(e),
                    Ok((file, after)) => Ok((InodeModel::File(file), after)),
                }
            } else if index == 1 {
                match <OrdMap<String, u64> as Wire>::dec(rest) {
                    Err(e) => Err(e),
                    Ok((entries, after)) => Ok((InodeModel::Dir(entries), after)),
                }
            } else {
                Err(WireError::BadValue)
            },
        }
    }

    proof fn round_trip(m: InodeModel, rest: Seq<u8>) {
        match m {
            InodeModel::File(file) => {
                let body = <FileData as Wire>::enc(file);
                assert(Self::enc(m) + rest =~= u32::enc(0) + (body + rest));
                u32::round_trip(0, body + rest);
                <FileData as Wire>::round_trip(file, rest);
            },
            InodeModel::Dir(entries) => {
                let body = <OrdMap<String, u64> as Wire>::enc(entries);
                assert(Self::enc(m) + rest =~= u32::enc(1) + (body + rest));
                u32::round_trip(1, body + rest);
                <OrdMap<String, u64> as Wire>::round_trip(entries, rest);
            },
        }
    }

    fn put(&self, out: &mut Vec<u8>) {
        let ghost before = out@;
        match self {
            Inode::File(file) => {
                0u32.put(out);
                file.put(out);
            },
            Inode::Dir(entries) => {
                1u32.put(out);
                entries.put(out);
            },
        }
        assert(out@ =~= before + Self::enc(self.deep_view()));
    }

    fn take<'a>(b: &'a [u8]) -> (r: Result<(Inode, &'a [u8]), WireError>) {
        match u32::take(b) {
            Err(e) => Err(e),
            Ok((index, rest)) => if index == 0 {
                match <FileData as Wire>::take(rest) {
                    Err(e) => Err(e),
                    Ok((file, after)) => Ok((Inode::File(file), after)),
                }
            } else if index == 1 {
                match <OrdMap<String, u64> as Wire>::take(rest) {
                    Err(e) => Err(e),
                    Ok((entries, after)) => Ok((Inode::Dir(entries), after)),
                }
            } else {
                Err(WireError::BadValue)
            },
        }
    }
}

impl Wire for FsTree {
    open spec fn wire_inv(&self) -> bool {
        self.wf()
    }

    open spec fn fits(m: TreeModel) -> bool {
        <OrdMap<u64, Inode> as Wire>::fits(m.inodes) && <u64 as Wire>::fits(m.next_ino)
    }

    open spec fn enc(m: TreeModel) -> Seq<u8> {
        <(OrdMap<u64, Inode>, u64) as Wire>::enc((m.inodes, m.next_ino))
    }

    open spec fn dec(b: Seq<u8>) -> Decoded<TreeModel> {
        match <(OrdMap<u64, Inode>, u64) as Wire>::dec(b) {
            Err(e) => Err(e),
            Ok(((inodes, next_ino), rest)) => Ok((TreeModel { inodes, next_ino }, rest)),
        }
    }

    proof fn round_trip(m: TreeModel, rest: Seq<u8>) {
        <(OrdMap<u64, Inode>, u64) as Wire>::round_trip((m.inodes, m.next_ino), rest);
    }

    fn put(&self, out: &mut Vec<u8>) {
        let ghost before = out@;
        self.inodes.put(out);
        self.next_ino.put(out);
        assert(out@ =~= before + Self::enc(self.deep_view()));
    }

    fn take<'a>(b: &'a [u8]) -> (r: Result<(FsTree, &'a [u8]), WireError>) {
        match <(OrdMap<u64, Inode>, u64) as Wire>::take(b) {
            Err(e) => Err(e),
            Ok(((inodes, next_ino), rest)) => Ok((FsTree { inodes, next_ino }, rest)),
        }
    }
}

impl Wire for FsOp {
    open spec fn wire_inv(&self) -> bool {
        true
    }

    open spec fn fits(m: OpModel) -> bool {
        match m {
            OpModel::Create { parent, name, ino, dir } => <u64 as Wire>::fits(parent) && <String as Wire>::fits(name) && <u64 as Wire>::fits(ino) && <bool as Wire>::fits(dir),
            OpModel::Write { ino, slice } => <u64 as Wire>::fits(ino) && <Slice as Wire>::fits(slice),
            OpModel::Truncate { ino, size } => <u64 as Wire>::fits(ino) && <u64 as Wire>::fits(size),
            OpModel::Unlink { parent, name } => <u64 as Wire>::fits(parent) && <String as Wire>::fits(name),
            OpModel::Rename { from_parent, from, to_parent, to } => <u64 as Wire>::fits(from_parent) && <String as Wire>::fits(from) && <u64 as Wire>::fits(to_parent) && <String as Wire>::fits(to),
            OpModel::Destroyed => true,
        }
    }

    open spec fn enc(m: OpModel) -> Seq<u8> {
        match m {
            OpModel::Create { parent, name, ino, dir } => u32::enc(0) + <(u64, (String, (u64, bool))) as Wire>::enc((parent, (name, (ino, dir)))),
            OpModel::Write { ino, slice } => u32::enc(1) + <(u64, Slice) as Wire>::enc((ino, slice)),
            OpModel::Truncate { ino, size } => u32::enc(2) + <(u64, u64) as Wire>::enc((ino, size)),
            OpModel::Unlink { parent, name } => u32::enc(3) + <(u64, String) as Wire>::enc((parent, name)),
            OpModel::Rename { from_parent, from, to_parent, to } => u32::enc(4) + <(u64, (String, (u64, String))) as Wire>::enc((from_parent, (from, (to_parent, to)))),
            OpModel::Destroyed => u32::enc(5),
        }
    }

    open spec fn dec(b: Seq<u8>) -> Decoded<OpModel> {
        match u32::dec(b) {
            Err(e) => Err(e),
            Ok((index, rest)) => if index == 0 {
                match <(u64, (String, (u64, bool))) as Wire>::dec(rest) {
                    Err(e) => Err(e),
                    Ok(((parent, (name, (ino, dir))), after)) => Ok((OpModel::Create { parent, name, ino, dir }, after)),
                }
            } else if index == 1 {
                match <(u64, Slice) as Wire>::dec(rest) {
                    Err(e) => Err(e),
                    Ok(((ino, slice), after)) => Ok((OpModel::Write { ino, slice }, after)),
                }
            } else if index == 2 {
                match <(u64, u64) as Wire>::dec(rest) {
                    Err(e) => Err(e),
                    Ok(((ino, size), after)) => Ok((OpModel::Truncate { ino, size }, after)),
                }
            } else if index == 3 {
                match <(u64, String) as Wire>::dec(rest) {
                    Err(e) => Err(e),
                    Ok(((parent, name), after)) => Ok((OpModel::Unlink { parent, name }, after)),
                }
            } else if index == 4 {
                match <(u64, (String, (u64, String))) as Wire>::dec(rest) {
                    Err(e) => Err(e),
                    Ok(((from_parent, (from, (to_parent, to))), after)) => Ok((OpModel::Rename { from_parent, from, to_parent, to }, after)),
                }
            } else if index == 5 {
                Ok((OpModel::Destroyed, rest))
            } else {
                Err(WireError::BadValue)
            },
        }
    }

    proof fn round_trip(m: OpModel, rest: Seq<u8>) {
        match m {
            OpModel::Create { parent, name, ino, dir } => {
                let body = <(u64, (String, (u64, bool))) as Wire>::enc((parent, (name, (ino, dir))));
                assert(Self::enc(m) + rest =~= u32::enc(0) + (body + rest));
                u32::round_trip(0, body + rest);
                <(u64, (String, (u64, bool))) as Wire>::round_trip((parent, (name, (ino, dir))), rest);
            },
            OpModel::Write { ino, slice } => {
                let body = <(u64, Slice) as Wire>::enc((ino, slice));
                assert(Self::enc(m) + rest =~= u32::enc(1) + (body + rest));
                u32::round_trip(1, body + rest);
                <(u64, Slice) as Wire>::round_trip((ino, slice), rest);
            },
            OpModel::Truncate { ino, size } => {
                let body = <(u64, u64) as Wire>::enc((ino, size));
                assert(Self::enc(m) + rest =~= u32::enc(2) + (body + rest));
                u32::round_trip(2, body + rest);
                <(u64, u64) as Wire>::round_trip((ino, size), rest);
            },
            OpModel::Unlink { parent, name } => {
                let body = <(u64, String) as Wire>::enc((parent, name));
                assert(Self::enc(m) + rest =~= u32::enc(3) + (body + rest));
                u32::round_trip(3, body + rest);
                <(u64, String) as Wire>::round_trip((parent, name), rest);
            },
            OpModel::Rename { from_parent, from, to_parent, to } => {
                let body = <(u64, (String, (u64, String))) as Wire>::enc((from_parent, (from, (to_parent, to))));
                assert(Self::enc(m) + rest =~= u32::enc(4) + (body + rest));
                u32::round_trip(4, body + rest);
                <(u64, (String, (u64, String))) as Wire>::round_trip((from_parent, (from, (to_parent, to))), rest);
            },
            OpModel::Destroyed => {
                u32::round_trip(5, rest);
            },
        }
    }

    fn put(&self, out: &mut Vec<u8>) {
        let ghost before = out@;
        match self {
            FsOp::Create { parent, name, ino, dir } => {
                0u32.put(out);
                parent.put(out);
                name.put(out);
                ino.put(out);
                dir.put(out);
            },
            FsOp::Write { ino, slice } => {
                1u32.put(out);
                ino.put(out);
                slice.put(out);
            },
            FsOp::Truncate { ino, size } => {
                2u32.put(out);
                ino.put(out);
                size.put(out);
            },
            FsOp::Unlink { parent, name } => {
                3u32.put(out);
                parent.put(out);
                name.put(out);
            },
            FsOp::Rename { from_parent, from, to_parent, to } => {
                4u32.put(out);
                from_parent.put(out);
                from.put(out);
                to_parent.put(out);
                to.put(out);
            },
            FsOp::Destroyed => {
                5u32.put(out);
            },
        }
        assert(out@ =~= before + Self::enc(self.deep_view()));
    }

    fn take<'a>(b: &'a [u8]) -> (r: Result<(FsOp, &'a [u8]), WireError>) {
        match u32::take(b) {
            Err(e) => Err(e),
            Ok((index, rest)) => if index == 0 {
                match <(u64, (String, (u64, bool))) as Wire>::take(rest) {
                    Err(e) => Err(e),
                    Ok(((parent, (name, (ino, dir))), after)) => Ok((FsOp::Create { parent, name, ino, dir }, after)),
                }
            } else if index == 1 {
                match <(u64, Slice) as Wire>::take(rest) {
                    Err(e) => Err(e),
                    Ok(((ino, slice), after)) => Ok((FsOp::Write { ino, slice }, after)),
                }
            } else if index == 2 {
                match <(u64, u64) as Wire>::take(rest) {
                    Err(e) => Err(e),
                    Ok(((ino, size), after)) => Ok((FsOp::Truncate { ino, size }, after)),
                }
            } else if index == 3 {
                match <(u64, String) as Wire>::take(rest) {
                    Err(e) => Err(e),
                    Ok(((parent, name), after)) => Ok((FsOp::Unlink { parent, name }, after)),
                }
            } else if index == 4 {
                match <(u64, (String, (u64, String))) as Wire>::take(rest) {
                    Err(e) => Err(e),
                    Ok(((from_parent, (from, (to_parent, to))), after)) => Ok((FsOp::Rename { from_parent, from, to_parent, to }, after)),
                }
            } else if index == 5 {
                Ok((FsOp::Destroyed, rest))
            } else {
                Err(WireError::BadValue)
            },
        }
    }
}

/// An op's record: the number of its kind and its fields in order; an inode: the number of
/// its kind, and the file or the entries.
pub proof fn law_ops_and_inodes_are_laid_out(
    parent: u64,
    name: Seq<char>,
    ino: u64,
    dir: bool,
    slice: SliceModel,
    size: u64,
    to_parent: u64,
    to: Seq<char>,
    file: FileModel,
    entries: Map<Seq<char>, u64>,
)
    ensures
        FsOp::enc(OpModel::Create { parent, name, ino, dir }) == u32::enc(0) + (u64::enc(parent) + (
        String::enc(name) + (u64::enc(ino) + bool::enc(dir)))),
        FsOp::enc(OpModel::Write { ino, slice }) == u32::enc(1) + (u64::enc(ino) + Slice::enc(
            slice,
        )),
        FsOp::enc(OpModel::Truncate { ino, size }) == u32::enc(2) + (u64::enc(ino) + u64::enc(
            size,
        )),
        FsOp::enc(OpModel::Unlink { parent, name }) == u32::enc(3) + (u64::enc(parent)
            + String::enc(name)),
        FsOp::enc(
            OpModel::Rename { from_parent: parent, from: name, to_parent, to },
        ) == u32::enc(4) + (u64::enc(parent) + (String::enc(name) + (u64::enc(to_parent)
            + String::enc(to)))),
        FsOp::enc(OpModel::Destroyed) == u32::enc(5),
        Inode::enc(InodeModel::File(file)) == u32::enc(0) + FileData::enc(file),
        Inode::enc(InodeModel::Dir(entries)) == u32::enc(1) + <OrdMap<String, u64> as Wire>::enc(
            entries,
        ),
        Slice::enc(slice) == u64::enc(slice.seq) + (u64::enc(slice.off) + (u64::enc(slice.len) + <
        Vec<Block> as Wire>::enc(slice.blocks))),
        FileData::enc(file) == u64::enc(file.size) + (u64::enc(file.next_seq) + <Vec<
            Slice,
        > as Wire>::enc(file.slices)),
{
}

/// An op or an inode of a kind that is not known is refused.
pub proof fn law_unknown_kinds_are_refused(kind: u32, rest: Seq<u8>)
    ensures
        kind > 5 ==> FsOp::dec(u32::enc(kind) + rest) is Err,
        kind > 1 ==> Inode::dec(u32::enc(kind) + rest) is Err,
{
    u32::round_trip(kind, rest);
}

/// A tree is its inodes and the next number; a block its id and its length.
pub proof fn law_trees_and_blocks_are_laid_out(t: TreeModel, block: BlockModel)
    ensures
        FsTree::enc(t) == <OrdMap<u64, Inode> as Wire>::enc(t.inodes) + u64::enc(t.next_ino),
        Block::enc(block) == BlobId::enc(block.id) + u32::enc(block.len),
        BlobId::enc(block.id) == block.id,
{
}

} // verus!
