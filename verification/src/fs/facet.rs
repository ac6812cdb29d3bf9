//! The filesystem facet and the handle its commands work through.
//!
//! Every mutation computes its ops against the tree as the command sees it, has its
//! blocks stored, and stages the ops last: an operation that fails stages nothing.
use vstd::prelude::*;
use vstd::string::*;

use crate::blobs::BlobId;
use crate::facet::decode_payload;
use crate::facet::encode_payload;
use crate::facet::payload_of;
use crate::facet::replayed;
use crate::facet::Facet;
use crate::facet::FacetError;
use crate::fs::chunk::chunks;
use crate::fs::chunk::read_file;
use crate::fs::chunk::read_len;
use crate::fs::chunk::read_pieces;
use crate::fs::chunk::slice_for;
use crate::fs::chunk::write_slice;
use crate::fs::chunk::ReadPlan;
use crate::fs::file_laws::law_a_truncation_resizes_its_file;
use crate::fs::file_laws::path_resized;
use crate::fs::grain::DirEntry;
use crate::fs::grain::FsError;
use crate::fs::grain::Metadata;
use crate::fs::meta::child;
use crate::fs::meta::climbs;
use crate::fs::meta::components;
use crate::fs::meta::empty_tree;
use crate::fs::meta::is_dir;
use crate::fs::meta::is_file;
use crate::fs::meta::is_live;
use crate::fs::meta::meta_of;
use crate::fs::meta::parent_of;
use crate::fs::meta::path_parts;
use crate::fs::meta::resolved;
use crate::fs::meta::texts;
use crate::fs::meta::FsTree;
use crate::fs::meta::TreeModel;
use crate::fs::meta::BLOCK_BYTES;
use crate::fs::meta::ROOT;
use crate::fs::op::applied;
use crate::fs::op::apply;
use crate::fs::op::end_of;
use crate::fs::op::in_range;
use crate::fs::op::remove_subtree;
use crate::fs::op::subtree;
use crate::fs::op::FsOp;
use crate::fs::op::OpModel;
use crate::fs::tree_laws::holds_file;
use crate::fs::tree_laws::law_a_move_takes_everything_along;
use crate::fs::tree_laws::law_a_removal_takes_its_path_away;
use crate::fs::tree_laws::law_a_write_leaves_its_file;
use crate::fs::tree_laws::law_ops_keep_the_tree_sound;
use crate::fs::tree_laws::law_what_a_write_is_answered;
use crate::fs::tree_laws::lemma_a_resolved_path_passes_no_file;
use crate::fs::tree_laws::moved;
use crate::fs::tree_laws::others_kept;
use crate::fs::tree_laws::rest_kept;
use crate::fs::tree_laws::sound;
use crate::fs::tree_laws::well_placed;
use crate::key::rank_str;
use crate::key::Rank;
use crate::ordmap::OrdSet;
use crate::wire::lemma_decoded;
use crate::wire::sorted_keys;
use crate::wire::Wire;

verus! {

/// The filesystem facet.
pub struct Fs;

/// The per-command stage: the ops in order, and the tree they lead to, copied from
/// the committed one when the first op is staged.
#[derive(Clone, Debug, PartialEq, Eq)]
pub struct FsStage {
    pub ops: Vec<FsOp>,
    pub scratch: Option<FsTree>,
}

#[verifier::ext_equal]
pub struct FsStageModel {
    pub ops: Seq<OpModel>,
    pub scratch: Option<TreeModel>,
}

impl DeepView for FsStage {
    type V = FsStageModel;

    open spec fn deep_view(&self) -> FsStageModel {
        FsStageModel { ops: self.ops.deep_view(), scratch: self.scratch.deep_view() }
    }
}

impl Default for FsStage {
    fn default() -> (r: FsStage)
        ensures
            r.wf(),
            r.deep_view() == (FsStageModel { ops: seq![], scratch: None }),
    {
        let r = FsStage { ops: Vec::new(), scratch: None };
        assert(r.ops.deep_view() =~= seq![]);
        r
    }
}

impl FsStage {
    pub open spec fn wf(&self) -> bool {
        self.scratch is Some ==> self.scratch->0.wf()
    }
}

/// The tree after a run of ops.
pub open spec fn applied_all(t: TreeModel, ops: Seq<OpModel>) -> TreeModel
    decreases ops.len(),
{
    if ops.len() == 0 {
        t
    } else {
        applied(applied_all(t, ops.drop_last()), ops.last())
    }
}

/// Every op of a run is in range where it is applied.
pub open spec fn ops_in_range(t: TreeModel, ops: Seq<OpModel>) -> bool
    decreases ops.len(),
{
    ops.len() == 0 || ops_in_range(t, ops.drop_last()) && in_range(
        applied_all(t, ops.drop_last()),
        ops.last(),
    )
}

/// Applying one run and then another is applying both.
pub proof fn lemma_applied_all_splits(t: TreeModel, a: Seq<OpModel>, b: Seq<OpModel>)
    ensures
        applied_all(t, a + b) == applied_all(applied_all(t, a), b),
    decreases b.len(),
{
    if b.len() == 0 {
        assert(a + b =~= a);
    } else {
        assert((a + b).drop_last() =~= a + b.drop_last());
        lemma_applied_all_splits(t, a, b.drop_last());
    }
}

/// A run that is in range wherever it is applied.
pub open spec fn always_in_range(ops: Seq<OpModel>) -> bool {
    forall|i: int, t: TreeModel| 0 <= i < ops.len() ==> #[trigger] in_range(t, ops[i])
}

pub proof fn lemma_always_in_range(t: TreeModel, ops: Seq<OpModel>)
    requires
        always_in_range(ops),
    ensures
        ops_in_range(t, ops),
    decreases ops.len(),
{
    if ops.len() > 0 {
        let front = ops.drop_last();
        assert forall|i: int, x: TreeModel| 0 <= i < front.len() implies #[trigger] in_range(
            x,
            front[i],
        ) by {
            assert(front[i] == ops[i]);
        }
        lemma_always_in_range(t, front);
        assert(in_range(applied_all(t, front), ops[ops.len() - 1]));
    }
}

impl Facet for Fs {
    type Form = FsTree;

    type Stage = FsStage;

    open spec fn tag() -> u8 {
        2
    }

    open spec fn physical() -> bool {
        false
    }

    open spec fn form_wf(form: FsTree) -> bool {
        form.wf()
    }

    open spec fn stage_wf(stage: FsStage) -> bool {
        stage.wf()
    }

    open spec fn empty_form() -> TreeModel {
        empty_tree()
    }

    open spec fn empty_stage() -> FsStageModel {
        FsStageModel { ops: seq![], scratch: None }
    }

    open spec fn begin_refusal(form: TreeModel, present: bool) -> Option<Seq<char>> {
        None
    }

    open spec fn sealed(form: TreeModel, stage: FsStageModel) -> Result<
        (TreeModel, FsStageModel),
        Seq<char>,
    > {
        Ok((form, stage))
    }

    open spec fn drained(stage: FsStageModel) -> Seq<Seq<u8>> {
        stage.ops.map_values(|op: OpModel| FsOp::enc(op))
    }

    open spec fn fold_ok(form: TreeModel, payload: Seq<u8>) -> bool {
        match payload_of::<FsOp>("fs record"@, payload) {
            Ok(op) => in_range(form, op),
            Err(_) => true,
        }
    }

    open spec fn always_ok(payload: Seq<u8>) -> bool {
        match payload_of::<FsOp>("fs record"@, payload) {
            Ok(op) => has_successors(op),
            Err(_) => true,
        }
    }

    proof fn always_ok_folds(form: TreeModel, payload: Seq<u8>) {
    }

    open spec fn folded(form: TreeModel, payload: Seq<u8>) -> Result<TreeModel, Seq<char>> {
        match payload_of::<FsOp>("fs record"@, payload) {
            Ok(op) => Ok(applied(form, op)),
            Err(text) => Err(text),
        }
    }

    open spec fn snapped(form: TreeModel) -> Result<Seq<u8>, Seq<char>> {
        Ok(FsTree::enc(form))
    }

    open spec fn restored(part: Option<Seq<u8>>) -> Result<TreeModel, Seq<char>> {
        match part {
            Some(bytes) => payload_of::<FsTree>("fs restore"@, bytes),
            None => Ok(empty_tree()),
        }
    }

    open spec fn reborn(form: TreeModel) -> TreeModel {
        form
    }

    open spec fn keeps(form: TreeModel) -> bool {
        FsTree::fits(form)
    }

    proof fn snapshot_keeps(form: TreeModel) {
        lemma_decoded::<FsTree>(form);
    }

    open spec fn discarded(form: TreeModel) -> TreeModel {
        form
    }

    open spec fn rooted(form: TreeModel) -> Set<Seq<u8>> {
        Set::new(|id: Seq<u8>| is_live(form, id))
    }

    open spec fn due(form: TreeModel) -> Option<u64> {
        None
    }

    open spec fn alarm_consumed(stage: FsStageModel) -> FsStageModel {
        stage
    }

    fn tag_value() -> (r: u8) {
        2
    }

    fn is_physical() -> (r: bool) {
        false
    }

    fn new_form() -> (r: FsTree) {
        FsTree::default()
    }

    fn new_stage() -> (r: FsStage) {
        FsStage::default()
    }

    fn begin(form: &FsTree, present: bool) -> (r: Result<(), FacetError>) {
        Ok(())
    }

    fn seal(form: &mut FsTree, stage: &mut FsStage) -> (r: Result<(), FacetError>) {
        Ok(())
    }

    fn drain(stage: FsStage) -> (r: Vec<Vec<u8>>) {
        let ghost want = Self::drained(stage.deep_view());
        let mut out: Vec<Vec<u8>> = Vec::new();
        let mut i: usize = 0;
        assert(out.deep_view() =~= want.take(0));
        while i < stage.ops.len()
            invariant
                want == Self::drained(stage.deep_view()),
                want.len() == stage.ops@.len(),
                i <= stage.ops@.len(),
                out.deep_view() == want.take(i as int),
            decreases stage.ops@.len() - i,
        {
            let payload = encode_payload(&stage.ops[i]);
            let ghost was = out.deep_view();
            out.push(payload);
            proof {
                assert(payload.deep_view() =~= payload@);
                assert(want[i as int] == FsOp::enc(stage.ops@[i as int].deep_view()));
                assert(out.deep_view() =~= was.push(want[i as int]));
                assert(want.take(i + 1) =~= want.take(i as int).push(want[i as int]));
            }
            i = i + 1;
        }
        assert(want.take(i as int) =~= want);
        out
    }

    fn foldable(form: &FsTree, payload: &[u8]) -> (r: bool) {
        match decode_payload::<FsOp>("fs record", payload) {
            Err(_) => true,
            Ok(op) => op_in_range(form, &op),
        }
    }

    fn always_foldable(payload: &[u8]) -> (r: bool) {
        match decode_payload::<FsOp>("fs record", payload) {
            Err(_) => true,
            Ok(op) => op_has_successors(&op),
        }
    }

    fn fold(form: &mut FsTree, payload: &[u8]) -> (r: Result<(), FacetError>) {
        match decode_payload::<FsOp>("fs record", payload) {
            Err(e) => Err(e),
            Ok(op) => {
                apply(form, &op);
                Ok(())
            },
        }
    }

    fn snapshot(form: &FsTree) -> (r: Result<Vec<u8>, FacetError>) {
        Ok(encode_payload(form))
    }

    fn restore(part: Option<&[u8]>) -> (r: Result<FsTree, FacetError>) {
        match part {
            Some(bytes) => decode_payload::<FsTree>("fs restore", bytes),
            None => Ok(FsTree::default()),
        }
    }

    fn discard(form: &mut FsTree) {
    }

    fn roots(form: &FsTree) -> (r: OrdSet<BlobId>) {
        let ids = form.live_blobids();
        assert(ids@ =~= Self::rooted(form.deep_view()));
        ids
    }

    fn alarm_due(form: &FsTree) -> (r: Option<u64>) {
        None
    }

    fn stage_clear_alarm(stage: &mut FsStage) {
    }
}

/// The numbers an op mints have successors, wherever it is applied.
pub open spec fn has_successors(op: OpModel) -> bool {
    match op {
        OpModel::Create { ino, .. } => ino < u64::MAX,
        OpModel::Write { slice, .. } => end_of(slice) <= u64::MAX && slice.seq < u64::MAX,
        _ => true,
    }
}

/// Whether the numbers an op mints have successors, wherever it is applied.
pub fn op_has_successors(op: &FsOp) -> (r: bool)
    ensures
        r == has_successors(op.deep_view()),
{
    match op {
        FsOp::Create { ino, .. } => *ino < u64::MAX,
        FsOp::Write { slice, .. } => slice.len <= u64::MAX - slice.off && slice.seq < u64::MAX,
        _ => true,
    }
}

/// Whether the numbers an op mints have successors where it is applied.
pub fn op_in_range(tree: &FsTree, op: &FsOp) -> (r: bool)
    requires
        tree.wf(),
    ensures
        r == in_range(tree.deep_view(), op.deep_view()),
{
    match op {
        FsOp::Create { ino, .. } => *ino < u64::MAX,
        FsOp::Write { ino, slice } => match tree.file(*ino) {
            Some(_) => slice.len <= u64::MAX - slice.off && slice.seq < u64::MAX,
            None => true,
        },
        _ => true,
    }
}

// ---- Planning a write ----

/// A directory that the plan under construction creates.
struct Planned {
    parent: u64,
    name: String,
    ino: u64,
}

/// The directories a plan creates, by where they are entered.
pub type PlannedDirs = Map<(u64, Seq<char>), u64>;

/// The plan of the missing directories of a path.
#[verifier::ext_equal]
pub struct DirsModel {
    pub ops: Seq<OpModel>,
    pub cur: u64,
    pub next_ino: u64,
    pub planned: PlannedDirs,
}

/// What `name` under `parent` leads to, planned directories included, and whether
/// that is a directory.
pub open spec fn found(t: TreeModel, planned: PlannedDirs, parent: u64, name: Seq<char>) -> Option<
    (u64, bool),
> {
    if planned.contains_key((parent, name)) {
        Some((planned[(parent, name)], true))
    } else {
        match child(t, parent, name) {
            Some(ino) => Some((ino, is_dir(t, ino))),
            None => None,
        }
    }
}

/// Walk down `parts`, planning a create for each directory that is not there. A step
/// onto a file fails.
pub open spec fn plan_dirs(t: TreeModel, so_far: DirsModel, parts: Seq<Seq<char>>) -> Option<
    DirsModel,
>
    decreases parts.len(),
{
    if parts.len() == 0 {
        Some(so_far)
    } else {
        match plan_dirs(t, so_far, parts.drop_last()) {
            None => None,
            Some(d) => match found(t, d.planned, d.cur, parts.last()) {
                Some((ino, true)) => Some(DirsModel { cur: ino, ..d }),
                Some((_, false)) => None,
                None => Some(
                    DirsModel {
                        ops: d.ops.push(
                            OpModel::Create {
                                parent: d.cur,
                                name: parts.last(),
                                ino: d.next_ino,
                                dir: true,
                            },
                        ),
                        cur: d.next_ino,
                        next_ino: (d.next_ino + 1) as u64,
                        planned: d.planned.insert((d.cur, parts.last()), d.next_ino),
                    },
                ),
            },
        }
    }
}

/// The plan at the root, with nothing created.
pub open spec fn no_dirs(t: TreeModel) -> DirsModel {
    DirsModel { ops: seq![], cur: ROOT, next_ino: t.next_ino, planned: Map::empty() }
}

/// A planned write: the ops before the data, the file they lead to, the birth order
/// of its slice, and whether it replaces a file that was not empty.
#[verifier::ext_equal]
pub struct WriteModel {
    pub ops: Seq<OpModel>,
    pub ino: u64,
    pub seq: u64,
    pub orphaned: bool,
}

/// The plan of a whole-file write at `path`.
pub open spec fn plan_write(t: TreeModel, path: Seq<char>) -> Result<WriteModel, FsError> {
    let parts = path_parts(path);
    if climbs(path) || parts.len() == 0 {
        Err(FsError::InvalidPath)
    } else {
        match plan_dirs(t, no_dirs(t), parts.drop_last()) {
            None => Err(FsError::NotADirectory),
            Some(d) => match found(t, d.planned, d.cur, parts.last()) {
                Some((_, true)) => Err(FsError::IsADirectory),
                Some((ino, false)) => Ok(
                    WriteModel {
                        ops: d.ops.push(OpModel::Truncate { ino, size: 0 }),
                        ino,
                        seq: if is_file(t, ino) {
                            t.inodes[ino]->File_0.next_seq
                        } else {
                            0
                        },
                        orphaned: is_file(t, ino) && t.inodes[ino]->File_0.size > 0,
                    },
                ),
                None => Ok(
                    WriteModel {
                        ops: d.ops.push(
                            OpModel::Create {
                                parent: d.cur,
                                name: parts.last(),
                                ino: d.next_ino,
                                dir: false,
                            },
                        ),
                        ino: d.next_ino,
                        seq: 0,
                        orphaned: false,
                    },
                ),
            },
        }
    }
}

/// All the ops of a whole-file write.
pub open spec fn write_ops(plan: WriteModel, content: Seq<u8>) -> Seq<OpModel> {
    plan.ops.push(OpModel::Write { ino: plan.ino, slice: slice_for(plan.seq, 0, content) })
}

spec fn planned_map(dirs: Seq<Planned>) -> PlannedDirs
    decreases dirs.len(),
{
    if dirs.len() == 0 {
        Map::empty()
    } else {
        let d = dirs.last();
        planned_map(dirs.drop_last()).insert((d.parent, d.name@), d.ino)
    }
}

/// The planned directory at `name` under `parent`.
fn planned_at(dirs: &Vec<Planned>, parent: u64, name: &str) -> (r: Option<u64>)
    ensures
        r is Some == planned_map(dirs@).contains_key((parent, name@)),
        r is Some ==> r->0 == planned_map(dirs@)[(parent, name@)],
{
    let mut i: usize = dirs.len();
    assert(dirs@.take(i as int) =~= dirs@);
    while i > 0
        invariant
            i <= dirs@.len(),
            planned_map(dirs@).contains_key((parent, name@)) == planned_map(
                dirs@.take(i as int),
            ).contains_key((parent, name@)),
            planned_map(dirs@).contains_key((parent, name@)) ==> planned_map(dirs@)[(
                parent,
                name@,
            )] == planned_map(dirs@.take(i as int))[(parent, name@)],
        decreases i,
    {
        let d = &dirs[i - 1];
        assert(dirs@.take(i as int).drop_last() =~= dirs@.take(i - 1));
        assert(dirs@.take(i as int).last() == dirs@[i - 1]);
        if d.parent == parent && rank_str(d.name.as_str(), name) == Rank::Same {
            return Some(d.ino);
        }
        i = i - 1;
    }
    None
}

/// What `name` under `parent` leads to, planned directories included.
fn lookup(tree: &FsTree, dirs: &Vec<Planned>, parent: u64, name: &str) -> (r: Option<(u64, bool)>)
    requires
        tree.wf(),
    ensures
        r == found(tree.deep_view(), planned_map(dirs@), parent, name@),
{
    match planned_at(dirs, parent, name) {
        Some(ino) => Some((ino, true)),
        None => match tree.entry(parent, name) {
            Some(ino) => Some((ino, tree.dir(ino).is_some())),
            None => None,
        },
    }
}

/// The missing directories of a path, as far as they are planned.
struct DirsPlan {
    ops: Vec<FsOp>,
    cur: u64,
    next_ino: u64,
    planned: Vec<Planned>,
}

impl DirsPlan {
    spec fn model(&self) -> DirsModel {
        DirsModel {
            ops: self.ops.deep_view(),
            cur: self.cur,
            next_ino: self.next_ino,
            planned: planned_map(self.planned@),
        }
    }
}

/// Plan the missing directories above the last of a path's components.
fn ensure_parents(tree: &FsTree, comps: &Vec<&str>) -> (r: Option<DirsPlan>)
    requires
        tree.wf(),
        comps@.len() > 0,
        tree.next_ino + comps@.len() <= u64::MAX,
    ensures
        match r {
            Some(plan) => plan_dirs(
                tree.deep_view(),
                no_dirs(tree.deep_view()),
                texts(comps@).drop_last(),
            ) == Some(plan.model()) && plan.next_ino < u64::MAX && always_in_range(
                plan.ops.deep_view(),
            ),
            None => plan_dirs(
                tree.deep_view(),
                no_dirs(tree.deep_view()),
                texts(comps@).drop_last(),
            ) is None,
        },
{
    let ghost t = tree.deep_view();
    let ghost parts = texts(comps@).drop_last();
    let mut plan = DirsPlan {
        ops: Vec::new(),
        cur: ROOT,
        next_ino: tree.next_ino,
        planned: Vec::new(),
    };
    let last: usize = comps.len() - 1;
    let mut i: usize = 0;
    proof {
        assert(plan.ops.deep_view() =~= seq![]);
        assert(plan.model() =~= no_dirs(t));
        assert(parts.take(0) =~= seq![]);
    }
    while i < last
        invariant
            tree.wf(),
            t == tree.deep_view(),
            last == comps@.len() - 1,
            parts == texts(comps@).drop_last(),
            i <= last,
            tree.next_ino + comps@.len() <= u64::MAX,
            plan.next_ino <= tree.next_ino + i,
            plan_dirs(t, no_dirs(t), parts.take(i as int)) == Some(plan.model()),
            always_in_range(plan.ops.deep_view()),
        decreases last - i,
    {
        let comp = comps[i];
        let ghost before = plan.model();
        proof {
            assert(parts.take(i + 1).drop_last() =~= parts.take(i as int));
            assert(parts.take(i + 1).last() == comp@);
        }
        match lookup(tree, &plan.planned, plan.cur, comp) {
            Some((ino, true)) => {
                plan.cur = ino;
            },
            Some((_, false)) => {
                proof {
                    lemma_plan_stays_failed(t, no_dirs(t), parts, i + 1);
                    assert(parts.take(parts.len() as int) =~= parts);
                }
                return None;
            },
            None => {
                let ino: u64 = plan.next_ino;
                let ghost was = plan.ops.deep_view();
                let ghost dirs = plan.planned@;
                let op = FsOp::Create {
                    parent: plan.cur,
                    name: comp.to_owned(),
                    ino,
                    dir: true,
                };
                let ghost model = op.deep_view();
                plan.ops.push(op);
                plan.planned.push(Planned { parent: plan.cur, name: comp.to_owned(), ino });
                plan.next_ino = ino + 1;
                plan.cur = ino;
                proof {
                    assert(plan.ops.deep_view() =~= was.push(model));
                    assert(plan.planned@.drop_last() =~= dirs);
                    assert forall|k: int, x: TreeModel| 0 <= k < plan.ops.deep_view().len() implies
                        #[trigger] in_range(x, plan.ops.deep_view()[k]) by {
                        if k < was.len() {
                            assert(plan.ops.deep_view()[k] == was[k]);
                        }
                    }
                }
            },
        }
        i = i + 1;
        assert(plan_dirs(t, no_dirs(t), parts.take(i as int)) == Some(plan.model()));
    }
    assert(parts.take(i as int) =~= parts);
    Some(plan)
}

/// A walk that has failed stays failed.
proof fn lemma_plan_stays_failed(t: TreeModel, d: DirsModel, parts: Seq<Seq<char>>, n: int)
    requires
        0 <= n <= parts.len(),
        plan_dirs(t, d, parts.take(n)) is None,
    ensures
        plan_dirs(t, d, parts) is None,
    decreases parts.len() - n,
{
    if n < parts.len() {
        assert(parts.take(n + 1).drop_last() =~= parts.take(n));
        lemma_plan_stays_failed(t, d, parts, n + 1);
    } else {
        assert(parts.take(n) =~= parts);
    }
}

/// A whole-file write that is ready: its ops, the chunks to store before they are
/// staged, and whether it replaces a file that was not empty.
#[derive(Clone, Debug, PartialEq, Eq)]
pub struct WritePlan {
    pub ops: Vec<FsOp>,
    pub chunks: Vec<Vec<u8>>,
    pub orphaned: bool,
}

impl WritePlan {
    /// This is the plan of a write of `content` at `path`, made for the tree `t`, and the
    /// numbers that it mints have successors.
    pub open spec fn writes(&self, t: TreeModel, path: Seq<char>, content: Seq<u8>) -> bool {
        match plan_write(t, path) {
            Ok(w) => {
                &&& self.ops.deep_view() == write_ops(w, content)
                &&& self.orphaned == w.orphaned
                &&& w.seq < u64::MAX
                &&& t.next_ino + path_parts(path).len() <= u64::MAX
                &&& content.len() <= u64::MAX
            },
            Err(_) => false,
        }
    }
}

/// A staged mutation: whether it orphaned committed blocks, which a sweep after the
/// commit may reclaim.
#[derive(Clone, Copy, Debug, PartialEq, Eq, Structural)]
pub struct FsMutation {
    pub orphaned: bool,
}

/// A command's view of the filesystem: the committed tree, and what the command has
/// staged on top of it. Outside a command there is no stage.
pub struct FsHandle<'a> {
    pub form: &'a FsTree,
    pub stage: Option<FsStage>,
}

/// What listing a directory shows of one entry.
pub open spec fn entry_of(t: TreeModel, name: Seq<char>, ino: u64) -> (Seq<char>, bool, u64) {
    if t.inodes.contains_key(ino) {
        let m = meta_of(t.inodes[ino]);
        (name, m.0, m.1)
    } else {
        (name, false, 0)
    }
}

/// A directory's listing, by name.
pub open spec fn listing(t: TreeModel, dir: u64) -> Seq<(Seq<char>, bool, u64)> {
    let entries = t.inodes[dir]->Dir_0;
    sorted_keys::<String, u64>(entries).map_values(|name: Seq<char>| entry_of(t, name, entries[name]))
}

/// What a removal does.
pub open spec fn plan_remove(t: TreeModel, path: Seq<char>, recursive: bool) -> Result<
    (OpModel, bool),
    FsError,
> {
    match parent_of(t, path) {
        Err(e) => Err(e),
        Ok((parent, name)) => match child(t, parent, name) {
            None => Err(FsError::NotFound),
            Some(ino) => {
                let full = is_dir(t, ino) && t.inodes[ino]->Dir_0 != Map::<Seq<char>, u64>::empty();
                if full && !recursive {
                    Err(FsError::NotEmpty)
                } else {
                    Ok(
                        (
                            OpModel::Unlink { parent, name },
                            full || is_file(t, ino) && t.inodes[ino]->File_0.size > 0,
                        ),
                    )
                }
            },
        },
    }
}

/// What a move does. The target's parent must be a directory, and must not lie in what
/// moves.
pub open spec fn plan_rename(t: TreeModel, from: Seq<char>, to: Seq<char>) -> Result<
    (OpModel, bool),
    FsError,
> {
    match parent_of(t, from) {
        Err(e) => Err(e),
        Ok((from_parent, from_name)) => match child(t, from_parent, from_name) {
            None => Err(FsError::NotFound),
            Some(ino) => match parent_of(t, to) {
                Err(e) => Err(e),
                Ok((to_parent, to_name)) => if subtree(t.inodes, ino).contains(to_parent) {
                    Err(FsError::InvalidPath)
                } else {
                    Ok(
                        (
                            OpModel::Rename {
                                from_parent,
                                from: from_name,
                                to_parent,
                                to: to_name,
                            },
                            child(t, to_parent, to_name) is Some,
                        ),
                    )
                },
            },
        },
    }
}

/// What a truncation does.
pub open spec fn plan_truncate(t: TreeModel, path: Seq<char>, size: u64) -> Result<
    (OpModel, bool),
    FsError,
> {
    match resolved(t, path) {
        Err(e) => Err(e),
        Ok(ino) => if is_file(t, ino) {
            Ok((OpModel::Truncate { ino, size }, size < t.inodes[ino]->File_0.size))
        } else {
            Err(FsError::IsADirectory)
        },
    }
}

impl<'a> FsHandle<'a> {
    /// The stage, where there is one, leads where its ops lead.
    pub open spec fn wf(&self) -> bool {
        &&& self.form.wf()
        &&& self.stage is Some ==> {
            let stage = self.stage->0;
            &&& stage.wf()
            &&& match stage.scratch {
                Some(tree) => tree.deep_view() == applied_all(
                    self.form.deep_view(),
                    stage.ops.deep_view(),
                ),
                None => stage.ops@.len() == 0,
            }
        }
    }

    /// The ops staged so far.
    pub open spec fn staged(&self) -> Seq<OpModel> {
        match self.stage {
            Some(stage) => stage.ops.deep_view(),
            None => seq![],
        }
    }

    /// The tree as the command sees it.
    pub open spec fn seen(&self) -> TreeModel {
        applied_all(self.form.deep_view(), self.staged())
    }

    /// The tree as the command sees it.
    fn tree(&self) -> (r: &FsTree)
        requires
            self.wf(),
        ensures
            r.wf(),
            r.deep_view() == self.seen(),
    {
        match &self.stage {
            Some(stage) => match &stage.scratch {
                Some(tree) => tree,
                None => {
                    assert(stage.ops.deep_view() =~= seq![]);
                    self.form
                },
            },
            None => self.form,
        }
    }

    /// Stage a planned run of ops: fold each into the scratch tree and keep it.
    pub fn stage(&mut self, ops: Vec<FsOp>)
        requires
            old(self).wf(),
            old(self).stage is Some,
            ops_in_range(old(self).seen(), ops.deep_view()),
        ensures
            final(self).wf(),
            final(self).form == old(self).form,
            final(self).stage is Some,
            final(self).staged() == old(self).staged() + ops.deep_view(),
    {
        let ghost form = self.form.deep_view();
        let ghost start = self.seen();
        let ghost before = self.staged();
        let ghost all = ops.deep_view();
        let ghost items = ops@;
        let mut scratch = self.tree().dup();
        if let Some(mut stage) = self.stage.take() {
            proof {
                assert(before + all.take(0) =~= before);
            }
            for op in it: ops
                invariant
                    it.seq() == items,
                    all.len() == items.len(),
                    forall|k: int| 0 <= k < items.len() ==> all[k] == (#[trigger] items[k]).deep_view(),
                    ops_in_range(start, all),
                    start == applied_all(form, before),
                    scratch.wf(),
                    scratch.deep_view() == applied_all(form, before + all.take(it.index() as int)),
                    stage.ops.deep_view() == before + all.take(it.index() as int),
            {
                let ghost i = it.index() as int;
                let ghost model = op.deep_view();
                proof {
                    assert(model == all[i]);
                    assert(all.take(i + 1) =~= all.take(i).push(model));
                    assert(before + all.take(i + 1) =~= (before + all.take(i)).push(model));
                    assert((before + all.take(i)).push(model).drop_last() =~= before + all.take(i));
                    lemma_applied_all_splits(form, before, all.take(i));
                    lemma_in_range_at(start, all, i);
                }
                let ghost was = stage.ops.deep_view();
                apply(&mut scratch, &op);
                stage.ops.push(op);
                assert(stage.ops.deep_view() =~= was.push(model));
            }
            proof {
                assert(all.take(items.len() as int) =~= all);
            }
            stage.scratch = Some(scratch);
            self.stage = Some(stage);
        }
    }

    /// Plan a whole-file write at `path`, creating parent directories as needed.
    pub fn plan_write(&self, path: &str, content: &[u8]) -> (r: Result<WritePlan, FsError>)
        requires
            self.wf(),
            self.seen().next_ino + path_parts(path@).len() <= u64::MAX,
        ensures
            match r {
                Ok(plan) => match plan_write(self.seen(), path@) {
                    Ok(w) => plan.ops.deep_view() == write_ops(w, content@)
                        && plan.chunks.deep_view() == chunks(content@, BLOCK_BYTES as int)
                        && plan.orphaned == w.orphaned && (w.seq < u64::MAX ==> plan.writes(
                        self.seen(),
                        path@,
                        content@,
                    ) && ops_in_range(self.seen(), plan.ops.deep_view())),
                    Err(_) => false,
                },
                Err(e) => plan_write(self.seen(), path@) == Err::<WriteModel, FsError>(e),
            },
            sound(self.seen()) && path_parts(path@).len() > 0 ==> match resolved(self.seen(), path@) {
                Ok(ino) if is_dir(self.seen(), ino) => r == Err::<WritePlan, FsError>(
                    FsError::IsADirectory,
                ),
                Ok(ino) => r matches Ok(plan) && plan.orphaned == (
                self.seen().inodes[ino]->File_0.size > 0),
                Err(_) => r matches Ok(plan) ==> !plan.orphaned,
            },
    {
        let tree = self.tree();
        let ghost t = tree.deep_view();
        proof {
            if sound(t) && !climbs(path@) && path_parts(path@).len() > 0 {
                law_what_a_write_is_answered(t, path@);
                if resolved(t, path@) is Ok {
                    lemma_a_resolved_path_passes_no_file(t, path@);
                }
            }
        }
        let comps = match components(path) {
            Ok(comps) => comps,
            Err(_) => {
                return Err(FsError::InvalidPath);
            },
        };
        if comps.len() == 0 {
            return Err(FsError::InvalidPath);
        }
        let mut dirs = match ensure_parents(tree, &comps) {
            Some(dirs) => dirs,
            None => {
                return Err(FsError::NotADirectory);
            },
        };
        let ghost d = dirs.model();
        let ghost before = dirs.ops.deep_view();
        let name = comps[comps.len() - 1];
        assert(texts(comps@).last() == name@);
        let ino: u64;
        let seq: u64;
        let orphaned: bool;
        let op = match lookup(tree, &dirs.planned, dirs.cur, name) {
            Some((_, true)) => {
                return Err(FsError::IsADirectory);
            },
            Some((existing, false)) => {
                ino = existing;
                match tree.file(existing) {
                    Some(file) => {
                        seq = file.next_seq;
                        orphaned = file.size > 0;
                    },
                    None => {
                        seq = 0;
                        orphaned = false;
                    },
                }
                FsOp::Truncate { ino: existing, size: 0 }
            },
            None => {
                ino = dirs.next_ino;
                seq = 0;
                orphaned = false;
                FsOp::Create { parent: dirs.cur, name: name.to_owned(), ino: dirs.next_ino, dir: false }
            },
        };
        let ghost first = op.deep_view();
        dirs.ops.push(op);
        let (slice, parts) = write_slice(seq, 0, content);
        let total: usize = content.len();
        assert(content@.len() == total);
        let write = FsOp::Write { ino, slice };
        let ghost second = write.deep_view();
        dirs.ops.push(write);
        let ops = dirs.ops;
        proof {
            let w = plan_write(t, path@)->Ok_0;
            assert(w.ino == ino && w.seq == seq && w.orphaned == orphaned);
            assert(w.ops =~= before.push(first));
            assert(ops.deep_view() =~= before.push(first).push(second));
            assert(ops.deep_view() =~= write_ops(w, content@));
            if seq < u64::MAX {
                assert forall|k: int, x: TreeModel| 0 <= k < ops.deep_view().len() implies
                    #[trigger] in_range(x, ops.deep_view()[k]) by {
                    if k < before.len() {
                        assert(ops.deep_view()[k] == before[k]);
                    }
                }
                lemma_always_in_range(t, ops.deep_view());
            }
        }
        Ok(WritePlan { ops, chunks: parts, orphaned })
    }

    /// Finish a planned write once its chunks were stored, or were not: a storage
    /// failure stages nothing. A write that was planned for the tree as it is leaves a
    /// sound tree sound, with the written file at its path.
    pub fn write_file(&mut self, plan: WritePlan, stored: Result<(), String>) -> (r: Result<
        FsMutation,
        FsError,
    >)
        requires
            old(self).wf(),
            old(self).stage is Some,
            ops_in_range(old(self).seen(), plan.ops.deep_view()),
        ensures
            final(self).wf(),
            final(self).form == old(self).form,
            match stored {
                Ok(_) => r == Ok::<FsMutation, FsError>(FsMutation { orphaned: plan.orphaned })
                    && final(self).stage is Some && final(self).staged() == old(self).staged()
                    + plan.ops.deep_view() && final(self).seen() == applied_all(
                    old(self).seen(),
                    plan.ops.deep_view(),
                ),
                Err(why) => r == Err::<FsMutation, FsError>(FsError::Storage(why))
                    && final(self).stage == old(self).stage && final(self).seen() == old(
                    self,
                ).seen(),
            },
            r is Ok && sound(old(self).seen()) ==> forall|path: Seq<char>, content: Seq<u8>|
                #[trigger]
                plan.writes(old(self).seen(), path, content) ==> sound(final(self).seen())
                    && holds_file(final(self).seen(), path, content) && others_kept(
                    old(self).seen(),
                    final(self).seen(),
                    resolved(final(self).seen(), path)->Ok_0,
                ),
    {
        let ghost t = self.seen();
        let ghost ops = plan.ops.deep_view();
        proof {
            lemma_applied_all_splits(self.form.deep_view(), self.staged(), ops);
            if sound(t) {
                assert forall|path: Seq<char>, content: Seq<u8>| #[trigger]
                    plan.writes(t, path, content) implies sound(applied_all(t, ops)) && holds_file(
                    applied_all(t, ops),
                    path,
                    content,
                ) && others_kept(t, applied_all(t, ops), resolved(applied_all(t, ops), path)->Ok_0) by {
                    law_a_write_leaves_its_file(t, path, content);
                }
            }
        }
        match stored {
            Err(why) => Err(FsError::Storage(why)),
            Ok(_) => {
                self.stage(plan.ops);
                Ok(FsMutation { orphaned: plan.orphaned })
            },
        }
    }

    /// What to fetch for a read of the file at `path` (the whole of it without a
    /// range).
    pub fn read_file(&self, path: &str, range: Option<(u64, u64)>) -> (r: Result<ReadPlan, FsError>)
        requires
            self.wf(),
        ensures
            match r {
                Ok(plan) => match resolved(self.seen(), path@) {
                    Ok(ino) => is_file(self.seen(), ino) && {
                        let file = self.seen().inodes[ino]->File_0;
                        let span = match range {
                            Some((start, end)) => (start as int, end as int),
                            None => (0int, file.size as int),
                        };
                        &&& plan.len == read_len(file, span.0, span.1)
                        &&& plan.pieces.deep_view() == read_pieces(file, span.0, span.1)
                    },
                    Err(_) => false,
                },
                Err(e) => match resolved(self.seen(), path@) {
                    Ok(ino) => !is_file(self.seen(), ino) && e == FsError::IsADirectory,
                    Err(refusal) => e == refusal,
                },
            },
    {
        let tree = self.tree();
        match tree.resolve(path) {
            Err(e) => Err(e),
            Ok(ino) => match tree.file(ino) {
                None => Err(FsError::IsADirectory),
                Some(file) => {
                    let (start, end) = match range {
                        Some(span) => span,
                        None => (0, file.size),
                    };
                    Ok(read_file(file, start, end))
                },
            },
        }
    }

    /// The entries of the directory at `path`, by name.
    pub fn list_dir(&self, path: &str) -> (r: Result<Vec<DirEntry>, FsError>)
        requires
            self.wf(),
        ensures
            match r {
                Ok(entries) => match resolved(self.seen(), path@) {
                    Ok(ino) => is_dir(self.seen(), ino) && entries.deep_view() == listing(
                        self.seen(),
                        ino,
                    ),
                    Err(_) => false,
                },
                Err(e) => match resolved(self.seen(), path@) {
                    Ok(ino) => !is_dir(self.seen(), ino) && e == FsError::NotADirectory,
                    Err(refusal) => e == refusal,
                },
            },
    {
        let tree = self.tree();
        let ghost t = tree.deep_view();
        let ino = match tree.resolve(path) {
            Ok(ino) => ino,
            Err(e) => {
                return Err(e);
            },
        };
        let entries = match tree.dir(ino) {
            Some(entries) => entries,
            None => {
                return Err(FsError::NotADirectory);
            },
        };
        let ghost m = entries.deep_view();
        let ghost keys = entries.key_seq();
        let ghost want = listing(t, ino);
        let mut out: Vec<DirEntry> = Vec::new();
        let n: usize = entries.len();
        let mut i: usize = 0;
        proof {
            crate::wire::lemma_sorted_keys(entries);
            assert(t.inodes[ino]->Dir_0 == m);
        }
        assert(out.deep_view() =~= want.take(0));
        while i < n
            invariant
                tree.wf(),
                t == tree.deep_view(),
                entries.wf(),
                m == entries.deep_view(),
                keys == entries.key_seq(),
                keys == sorted_keys::<String, u64>(m),
                t.inodes[ino]->Dir_0 == m,
                want == listing(t, ino),
                n == keys.len(),
                want.len() == n,
                i <= n,
                out.deep_view() == want.take(i as int),
            decreases n - i,
        {
            let name = entries.key_at(i).clone();
            let target: u64 = *entries.value_at(i);
            let (dir, size) = match tree.inodes.get(&target) {
                Some(inode) => inode.entry_meta(),
                None => (false, 0),
            };
            let entry = DirEntry { name, dir, size };
            let ghost was = out.deep_view();
            out.push(entry);
            proof {
                let k = keys[i as int];
                assert(m.contains_key(k) && m[k] == target);
                assert(want[i as int] == entry_of(t, k, m[k]));
                assert(entry.deep_view() == want[i as int]);
                assert(out.deep_view() =~= was.push(want[i as int]));
                assert(want.take(i + 1) =~= want.take(i as int).push(want[i as int]));
            }
            i = i + 1;
        }
        assert(want.take(i as int) =~= want);
        Ok(out)
    }

    /// Whether `path` is a directory, and a file's size.
    pub fn stat(&self, path: &str) -> (r: Result<Metadata, FsError>)
        requires
            self.wf(),
        ensures
            match resolved(self.seen(), path@) {
                Ok(ino) => if self.seen().inodes.contains_key(ino) {
                    r == Ok::<Metadata, FsError>(
                        Metadata {
                            dir: meta_of(self.seen().inodes[ino]).0,
                            size: meta_of(self.seen().inodes[ino]).1,
                        },
                    )
                } else {
                    r == Err::<Metadata, FsError>(FsError::NotFound)
                },
                Err(e) => r == Err::<Metadata, FsError>(e),
            },
    {
        let tree = self.tree();
        match tree.resolve(path) {
            Err(e) => Err(e),
            Ok(ino) => match tree.inodes.get(&ino) {
                None => Err(FsError::NotFound),
                Some(inode) => {
                    let (dir, size) = inode.entry_meta();
                    Ok(Metadata { dir, size })
                },
            },
        }
    }

    /// Stage one op that is in range wherever it is applied.
    fn stage_one(&mut self, op: FsOp)
        requires
            old(self).wf(),
            old(self).stage is Some,
            always_in_range(seq![op.deep_view()]),
        ensures
            final(self).wf(),
            final(self).form == old(self).form,
            final(self).stage is Some,
            final(self).staged() == old(self).staged().push(op.deep_view()),
            final(self).seen() == applied(old(self).seen(), op.deep_view()),
            sound(old(self).seen()) && well_placed(old(self).seen(), op.deep_view()) ==> sound(
                final(self).seen(),
            ),
    {
        let ghost model = op.deep_view();
        let ghost before = self.staged();
        let mut ops: Vec<FsOp> = Vec::new();
        ops.push(op);
        proof {
            assert(ops.deep_view() =~= seq![model]);
            lemma_always_in_range(self.seen(), seq![model]);
        }
        let ghost t = self.seen();
        self.stage(ops);
        proof {
            assert(before + seq![model] =~= before.push(model));
            assert(before.push(model).drop_last() =~= before);
            assert(in_range(t, seq![model][0]));
            if sound(t) && well_placed(t, model) {
                law_ops_keep_the_tree_sound(t, model);
            }
        }
    }

    /// Remove the file or directory at `path`; a directory that is not empty only
    /// if `recursive`.
    pub fn remove(&mut self, path: &str, recursive: bool) -> (r: Result<FsMutation, FsError>)
        requires
            old(self).wf(),
            old(self).stage is Some,
        ensures
            final(self).wf(),
            final(self).form == old(self).form,
            final(self).stage is Some,
            match plan_remove(old(self).seen(), path@, recursive) {
                Ok((op, orphaned)) => r == Ok::<FsMutation, FsError>(FsMutation { orphaned })
                    && final(self).staged() == old(self).staged().push(op),
                Err(e) => r == Err::<FsMutation, FsError>(e) && final(self).staged() == old(
                    self,
                ).staged(),
            },
            sound(old(self).seen()) ==> sound(final(self).seen()),
            r is Ok && sound(old(self).seen()) ==> resolved(old(self).seen(), path@) is Ok
                && resolved(final(self).seen(), path@) == Err::<u64, FsError>(FsError::NotFound),
            r is Err ==> final(self).seen() == old(self).seen(),
    {
        proof {
            if sound(self.seen()) {
                law_a_removal_takes_its_path_away(self.seen(), path@, recursive);
            }
        }
        let tree = self.tree();
        let ghost t = tree.deep_view();
        let (parent, name) = match tree.resolve_parent(path) {
            Ok(found) => found,
            Err(e) => {
                return Err(e);
            },
        };
        let target = match tree.entry(parent, name.as_str()) {
            Some(target) => target,
            None => {
                return Err(FsError::NotFound);
            },
        };
        let full: bool = match tree.dir(target) {
            Some(entries) => {
                proof {
                    if entries@ == Map::<Seq<char>, u64>::empty() {
                        assert(entries.deep_view() =~= Map::<Seq<char>, u64>::empty());
                    }
                    if entries.deep_view() == Map::<Seq<char>, u64>::empty() {
                        assert(entries@ =~= Map::<Seq<char>, u64>::empty());
                    }
                }
                !entries.is_empty()
            },
            None => false,
        };
        if full && !recursive {
            return Err(FsError::NotEmpty);
        }
        let holds: bool = match tree.file(target) {
            Some(file) => file.size > 0,
            None => false,
        };
        self.stage_one(FsOp::Unlink { parent, name });
        Ok(FsMutation { orphaned: full || holds })
    }

    /// Move `from` to `to`, replacing any existing target. Nothing moves into itself. In
    /// a sound tree what moves is found at `to`, with all that it holds.
    pub fn rename(&mut self, from: &str, to: &str) -> (r: Result<FsMutation, FsError>)
        requires
            old(self).wf(),
            old(self).stage is Some,
        ensures
            final(self).wf(),
            final(self).form == old(self).form,
            final(self).stage is Some,
            match plan_rename(old(self).seen(), from@, to@) {
                Ok((op, orphaned)) => r == Ok::<FsMutation, FsError>(FsMutation { orphaned })
                    && final(self).staged() == old(self).staged().push(op),
                Err(e) => r == Err::<FsMutation, FsError>(e) && final(self).staged() == old(
                    self,
                ).staged(),
            },
            r is Err ==> final(self).seen() == old(self).seen(),
            sound(old(self).seen()) ==> sound(final(self).seen()),
            r is Ok && sound(old(self).seen()) ==> moved(
                old(self).seen(),
                final(self).seen(),
                from@,
                to@,
            ) && rest_kept(old(self).seen(), final(self).seen(), from@, to@),
    {
        proof {
            if sound(self.seen()) && plan_rename(self.seen(), from@, to@) is Ok {
                law_a_move_takes_everything_along(self.seen(), from@, to@);
            }
        }
        let tree = self.tree();
        let (from_parent, from_name) = match tree.resolve_parent(from) {
            Ok(found) => found,
            Err(e) => {
                return Err(e);
            },
        };
        let moved: u64 = match tree.entry(from_parent, from_name.as_str()) {
            Some(ino) => ino,
            None => {
                return Err(FsError::NotFound);
            },
        };
        let (to_parent, to_name) = match tree.resolve_parent(to) {
            Ok(found) => found,
            Err(e) => {
                return Err(e);
            },
        };
        if lies_below(tree, moved, to_parent) {
            return Err(FsError::InvalidPath);
        }
        let orphaned: bool = tree.entry(to_parent, to_name.as_str()).is_some();
        self.stage_one(FsOp::Rename { from_parent, from: from_name, to_parent, to: to_name });
        Ok(FsMutation { orphaned })
    }

    /// Set the file at `path` to `size`.
    pub fn truncate(&mut self, path: &str, size: u64) -> (r: Result<FsMutation, FsError>)
        requires
            old(self).wf(),
            old(self).stage is Some,
        ensures
            final(self).wf(),
            final(self).form == old(self).form,
            final(self).stage is Some,
            match plan_truncate(old(self).seen(), path@, size) {
                Ok((op, orphaned)) => r == Ok::<FsMutation, FsError>(FsMutation { orphaned })
                    && final(self).staged() == old(self).staged().push(op),
                Err(e) => r == Err::<FsMutation, FsError>(e) && final(self).staged() == old(
                    self,
                ).staged(),
            },
            sound(old(self).seen()) ==> sound(final(self).seen()),
            r is Ok ==> path_resized(old(self).seen(), final(self).seen(), path@, size),
            r is Err ==> final(self).seen() == old(self).seen(),
    {
        proof {
            law_a_truncation_resizes_its_file(self.seen(), path@, size);
        }
        let tree = self.tree();
        let ino = match tree.resolve(path) {
            Ok(ino) => ino,
            Err(e) => {
                return Err(e);
            },
        };
        let orphaned: bool = match tree.file(ino) {
            Some(file) => size < file.size,
            None => {
                return Err(FsError::IsADirectory);
            },
        };
        self.stage_one(FsOp::Truncate { ino, size });
        Ok(FsMutation { orphaned })
    }

    /// Reset the workspace to an empty tree.
    pub fn destroy(&mut self)
        requires
            old(self).wf(),
            old(self).stage is Some,
        ensures
            final(self).wf(),
            final(self).form == old(self).form,
            final(self).stage is Some,
            final(self).staged() == old(self).staged().push(OpModel::Destroyed),
            final(self).seen() == empty_tree(),
    {
        self.stage_one(FsOp::Destroyed);
    }

    /// The blocks of the committed tree: what a repair copies again. Staged ops do
    /// not count.
    pub fn live_blocks(&self) -> (r: OrdSet<BlobId>)
        requires
            self.wf(),
        ensures
            r.wf(),
            forall|id: Seq<u8>| #[trigger] r@.contains(id) <==> is_live(self.form.deep_view(), id),
    {
        self.form.live_blobids()
    }
}

/// Whether the directory `dir` is `top` or lies below it.
fn lies_below(tree: &FsTree, top: u64, dir: u64) -> (r: bool)
    requires
        tree.wf(),
        is_dir(tree.deep_view(), dir),
    ensures
        r == subtree(tree.deep_view().inodes, top).contains(dir),
{
    let mut rest = tree.dup();
    remove_subtree(&mut rest, top);
    let r = !rest.inodes.contains_key(&dir);
    assert(rest.deep_view().inodes.contains_key(dir) == rest.inodes@.contains_key(dir));
    r
}

/// An op of a run that is in range is in range where it stands.
proof fn lemma_in_range_at(t: TreeModel, ops: Seq<OpModel>, i: int)
    requires
        ops_in_range(t, ops),
        0 <= i < ops.len(),
    ensures
        in_range(applied_all(t, ops.take(i)), ops[i]),
    decreases ops.len(),
{
    if i == ops.len() - 1 {
        assert(ops.take(i) =~= ops.drop_last());
    } else {
        lemma_in_range_at(t, ops.drop_last(), i);
        assert(ops.drop_last().take(i) =~= ops.take(i));
    }
}

// ---- Laws ----

proof fn lemma_replay_ops(t: TreeModel, ops: Seq<OpModel>)
    requires
        forall|i: int| 0 <= i < ops.len() ==> FsOp::fits(#[trigger] ops[i]),
    ensures
        replayed::<Fs>(t, ops.map_values(|op: OpModel| FsOp::enc(op))) == Ok::<
            TreeModel,
            Seq<char>,
        >(applied_all(t, ops)),
    decreases ops.len(),
{
    let f = |op: OpModel| FsOp::enc(op);
    if ops.len() > 0 {
        let rest = ops.skip(1);
        lemma_decoded::<FsOp>(ops[0]);
        assert(ops.map_values(f)[0] == FsOp::enc(ops[0]));
        assert(ops.map_values(f).skip(1) =~= rest.map_values(f));
        assert forall|i: int| 0 <= i < rest.len() implies FsOp::fits(#[trigger] rest[i]) by {
            assert(rest[i] == ops[i + 1]);
        }
        lemma_replay_ops(applied(t, ops[0]), rest);
        assert(seq![ops[0]] + rest =~= ops);
        lemma_applied_all_splits(t, seq![ops[0]], rest);
        assert(applied_all(t, seq![ops[0]]) == applied(t, ops[0])) by {
            assert(seq![ops[0]].drop_last() =~= seq![]);
            assert(applied_all(t, seq![ops[0]].drop_last()) == t);
        }
    }
}

/// What a command saw through its stage is what the tree holds once the command's
/// records have been folded, live or on replay.
pub proof fn law_folding_the_records_gives_what_the_command_saw(t: TreeModel, stage: FsStageModel)
    requires
        forall|i: int| 0 <= i < stage.ops.len() ==> FsOp::fits(#[trigger] stage.ops[i]),
    ensures
        replayed::<Fs>(t, Fs::drained(stage)) == Ok::<TreeModel, Seq<char>>(
            applied_all(t, stage.ops),
        ),
{
    lemma_replay_ops(t, stage.ops);
}

/// A tree restores from its own snapshot contribution.
pub proof fn law_snapshot_round_trips(t: TreeModel)
    requires
        FsTree::fits(t),
    ensures
        Fs::snapped(t) is Ok,
        Fs::restored(Some(Fs::snapped(t)->Ok_0)) == Ok::<TreeModel, Seq<char>>(t),
{
    lemma_decoded::<FsTree>(t);
}

} // verus!
