//! The workspace grain: its commands, and what each answers.
//!
//! A workspace's durable state lives entirely in the filesystem facet, and its
//! handlers hand each command to it. What they add is when to sweep: a command that
//! orphans committed blocks asks for a sweep, which runs after the commit and reads
//! the committed tree, so it can never reclaim a block that a failed commit still
//! refers to.
use vstd::prelude::*;

use crate::blobs::BlobId;
use crate::fs::facet::plan_remove;
use crate::fs::facet::plan_rename;
use crate::fs::facet::plan_truncate;
use crate::fs::facet::Fs;
use crate::fs::facet::FsHandle;
use crate::fs::facet::FsMutation;
use crate::fs::op::OpModel;
use crate::fs::tree_laws::law_an_empty_tree_is_sound;
use crate::fs::tree_laws::moved;
use crate::fs::tree_laws::sound;
use crate::grain::GrainRegistry;
use crate::grain::NoEvent;
use crate::host::Grain;
use crate::ordmap::OrdSet;

verus! {

/// A failure of a filesystem command: an application outcome that lives inside
/// the reply.
#[derive(Clone, Debug, PartialEq, Eq)]
pub enum FsError {
    /// The path, or a component of it, does not exist.
    NotFound,
    /// A path component that must be a directory is a file.
    NotADirectory,
    /// The target is a directory where a file was required.
    IsADirectory,
    /// A non-recursive remove of a non-empty directory.
    NotEmpty,
    /// An empty or otherwise unusable path.
    InvalidPath,
    /// The blob area could not store or fetch the bytes.
    Storage(String),
}

/// One entry of a listing: a child's name, whether it is a directory, and a file's
/// size (0 for a directory).
#[derive(Clone, Debug, PartialEq, Eq)]
pub struct DirEntry {
    pub name: String,
    pub dir: bool,
    pub size: u64,
}

impl DeepView for DirEntry {
    type V = (Seq<char>, bool, u64);

    open spec fn deep_view(&self) -> (Seq<char>, bool, u64) {
        (self.name@, self.dir, self.size)
    }
}

/// What a path is: whether a directory, and a file's size.
#[derive(Clone, Copy, Debug, PartialEq, Eq, Structural)]
pub struct Metadata {
    pub dir: bool,
    pub size: u64,
}

/// Write a whole file, creating parent directories as needed. Answered with the number
/// of bytes written.
#[derive(Clone, Debug, PartialEq, Eq)]
pub struct WriteFile {
    pub path: String,
    pub content: Vec<u8>,
}

impl WriteFile {
    pub fn manifest() -> (r: &'static str)
        ensures
            r@ == "granary.fs.WriteFile"@,
    {
        "granary.fs.WriteFile"
    }
}

/// Read a file, or a byte range of it.
#[derive(Clone, Debug, PartialEq, Eq)]
pub struct ReadFile {
    pub path: String,
    pub range: Option<(u64, u64)>,
}

impl ReadFile {
    pub fn manifest() -> (r: &'static str)
        ensures
            r@ == "granary.fs.ReadFile"@,
    {
        "granary.fs.ReadFile"
    }
}

/// List a directory, by name.
#[derive(Clone, Debug, PartialEq, Eq)]
pub struct ListDir {
    pub path: String,
}

impl ListDir {
    pub fn manifest() -> (r: &'static str)
        ensures
            r@ == "granary.fs.ListDir"@,
    {
        "granary.fs.ListDir"
    }
}

/// Remove a file, or a directory: only if empty, unless `recursive`.
#[derive(Clone, Debug, PartialEq, Eq)]
pub struct Remove {
    pub path: String,
    pub recursive: bool,
}

impl Remove {
    pub fn manifest() -> (r: &'static str)
        ensures
            r@ == "granary.fs.Remove"@,
    {
        "granary.fs.Remove"
    }
}

/// Move `from` to `to`, replacing any existing target.
#[derive(Clone, Debug, PartialEq, Eq)]
pub struct Rename {
    pub from: String,
    pub to: String,
}

impl Rename {
    pub fn manifest() -> (r: &'static str)
        ensures
            r@ == "granary.fs.Rename"@,
    {
        "granary.fs.Rename"
    }
}

/// Set a file's size.
#[derive(Clone, Debug, PartialEq, Eq)]
pub struct Truncate {
    pub path: String,
    pub size: u64,
}

impl Truncate {
    pub fn manifest() -> (r: &'static str)
        ensures
            r@ == "granary.fs.Truncate"@,
    {
        "granary.fs.Truncate"
    }
}

/// Ask what a path is.
#[derive(Clone, Debug, PartialEq, Eq)]
pub struct Stat {
    pub path: String,
}

impl Stat {
    pub fn manifest() -> (r: &'static str)
        ensures
            r@ == "granary.fs.Stat"@,
    {
        "granary.fs.Stat"
    }
}

/// Reset the whole workspace.
#[derive(Clone, Debug, PartialEq, Eq)]
pub struct Destroy;

impl Destroy {
    pub fn manifest() -> (r: &'static str)
        ensures
            r@ == "granary.fs.Destroy"@,
    {
        "granary.fs.Destroy"
    }
}

/// Reclaim the blocks that the committed tree does not refer to. Internal.
#[derive(Clone, Debug, PartialEq, Eq)]
pub struct Sweep;

impl Sweep {
    pub fn manifest() -> (r: &'static str)
        ensures
            r@ == "granary.fs.Sweep"@,
    {
        "granary.fs.Sweep"
    }
}

/// Copy the live blocks to the current replicas again. Internal.
#[derive(Clone, Debug, PartialEq, Eq)]
pub struct Repair;

impl Repair {
    pub fn manifest() -> (r: &'static str)
        ensures
            r@ == "granary.fs.Repair"@,
    {
        "granary.fs.Repair"
    }
}

/// The workspace grain.
pub struct Workspace;

/// A handled command: its answer, and whether to sweep once it has committed.
#[derive(Clone, Debug, PartialEq, Eq)]
pub struct Handled<R> {
    pub reply: R,
    pub sweep: bool,
}

/// The answer to a mutation: a sweep follows exactly if it orphaned blocks.
pub fn swept(outcome: Result<FsMutation, FsError>) -> (r: Handled<Result<(), FsError>>)
    ensures
        match outcome {
            Ok(mutation) => r.reply == Ok::<(), FsError>(()) && r.sweep == mutation.orphaned,
            Err(e) => r.reply == Err::<(), FsError>(e) && !r.sweep,
        },
{
    match outcome {
        Ok(mutation) => Handled { reply: Ok(()), sweep: mutation.orphaned },
        Err(e) => Handled { reply: Err(e), sweep: false },
    }
}

/// What a planned mutation of the tree leaves behind: the planned op staged and its
/// sweep asked for, or the refusal answered and nothing staged.
pub open spec fn mutated(
    plan: Result<(OpModel, bool), FsError>,
    before: Seq<OpModel>,
    after: Seq<OpModel>,
    handled: Handled<Result<(), FsError>>,
) -> bool {
    match plan {
        Ok((op, orphaned)) => handled.reply == Ok::<(), FsError>(()) && handled.sweep == orphaned
            && after == before.push(op),
        Err(e) => handled.reply == Err::<(), FsError>(e) && !handled.sweep && after == before,
    }
}

/// A workspace has no events: its state lives in its facet.
impl Grain for Workspace {
    type State = ();

    type Event = NoEvent;

    type Facets = (Fs,);

    open spec fn state_wf(state: ()) -> bool {
        true
    }

    open spec fn empty_state() -> () {
        ()
    }

    open spec fn applied(state: (), event: bool) -> () {
        ()
    }

    fn new_state() -> (r: ()) {
        ()
    }

    fn apply(state: &mut (), event: &NoEvent) {
        event.unreachable()
    }
}

impl Workspace {
    /// The grain type of a workspace.
    pub fn grain_type() -> (r: &'static str)
        ensures
            r@ == "granary.fs.Workspace"@,
    {
        "granary.fs.Workspace"
    }

    /// The commands of a workspace.
    pub fn register(registry: &mut GrainRegistry)
        requires
            old(registry).wf(),
        ensures
            final(registry).wf(),
            final(registry)@ == old(registry)@.insert("granary.fs.WriteFile"@).insert(
                "granary.fs.ReadFile"@,
            ).insert("granary.fs.ListDir"@).insert("granary.fs.Remove"@).insert(
                "granary.fs.Rename"@,
            ).insert("granary.fs.Truncate"@).insert("granary.fs.Stat"@).insert(
                "granary.fs.Destroy"@,
            ).insert("granary.fs.Repair"@).insert("granary.fs.Sweep"@),
    {
        registry.accept(WriteFile::manifest());
        registry.accept(ReadFile::manifest());
        registry.accept(ListDir::manifest());
        registry.accept(Remove::manifest());
        registry.accept(Rename::manifest());
        registry.accept(Truncate::manifest());
        registry.accept(Stat::manifest());
        registry.accept(Destroy::manifest());
        registry.accept(Repair::manifest());
        registry.accept(Sweep::manifest());
    }

    /// Answer a write from what the facet made of it: the number of bytes written.
    pub fn answer_write(outcome: Result<FsMutation, FsError>, msg: &WriteFile) -> (r: Handled<
        Result<u64, FsError>,
    >)
        ensures
            match outcome {
                Ok(mutation) => r.reply == Ok::<u64, FsError>(msg.content@.len() as u64)
                    && r.sweep == mutation.orphaned,
                Err(e) => r.reply == Err::<u64, FsError>(e) && !r.sweep,
            },
    {
        let handled = swept(outcome);
        match handled.reply {
            Ok(_) => Handled { reply: Ok(msg.content.len() as u64), sweep: handled.sweep },
            Err(e) => Handled { reply: Err(e), sweep: handled.sweep },
        }
    }

    pub fn handle_remove(fs: &mut FsHandle, msg: &Remove) -> (r: Handled<Result<(), FsError>>)
        requires
            old(fs).wf(),
            old(fs).stage is Some,
        ensures
            final(fs).wf(),
            final(fs).form == old(fs).form,
            final(fs).stage is Some,
            sound(old(fs).seen()) ==> sound(final(fs).seen()),
            mutated(
                plan_remove(old(fs).seen(), msg.path@, msg.recursive),
                old(fs).staged(),
                final(fs).staged(),
                r,
            ),
    {
        swept(fs.remove(msg.path.as_str(), msg.recursive))
    }

    pub fn handle_rename(fs: &mut FsHandle, msg: &Rename) -> (r: Handled<Result<(), FsError>>)
        requires
            old(fs).wf(),
            old(fs).stage is Some,
        ensures
            final(fs).wf(),
            final(fs).form == old(fs).form,
            final(fs).stage is Some,
            sound(old(fs).seen()) ==> sound(final(fs).seen()),
            mutated(
                plan_rename(old(fs).seen(), msg.from@, msg.to@),
                old(fs).staged(),
                final(fs).staged(),
                r,
            ),
            r.reply is Ok && sound(old(fs).seen()) ==> moved(
                old(fs).seen(),
                final(fs).seen(),
                msg.from@,
                msg.to@,
            ),
    {
        swept(fs.rename(msg.from.as_str(), msg.to.as_str()))
    }

    pub fn handle_truncate(fs: &mut FsHandle, msg: &Truncate) -> (r: Handled<Result<(), FsError>>)
        requires
            old(fs).wf(),
            old(fs).stage is Some,
        ensures
            final(fs).wf(),
            final(fs).form == old(fs).form,
            final(fs).stage is Some,
            sound(old(fs).seen()) ==> sound(final(fs).seen()),
            mutated(
                plan_truncate(old(fs).seen(), msg.path@, msg.size),
                old(fs).staged(),
                final(fs).staged(),
                r,
            ),
    {
        swept(fs.truncate(msg.path.as_str(), msg.size))
    }

    /// Reset the tree. The blocks go with the sweep after the commit: dropping them
    /// now would race a commit that may yet fail.
    pub fn handle_destroy(fs: &mut FsHandle) -> (r: Handled<Result<(), FsError>>)
        requires
            old(fs).wf(),
            old(fs).stage is Some,
        ensures
            final(fs).wf(),
            final(fs).form == old(fs).form,
            final(fs).stage is Some,
            sound(old(fs).seen()) ==> sound(final(fs).seen()),
            final(fs).staged() == old(fs).staged().push(OpModel::Destroyed),
            r.reply == Ok::<(), FsError>(()),
            r.sweep,
    {
        fs.destroy();
        proof {
            law_an_empty_tree_is_sound();
        }
        Handled { reply: Ok(()), sweep: true }
    }

    /// The blocks to copy again, in order; none if the committed tree has none.
    pub fn handle_repair(fs: &FsHandle) -> (r: Option<OrdSet<BlobId>>)
        requires
            fs.wf(),
        ensures
            match r {
                Some(live) => live.wf() && live@ != Set::<Seq<u8>>::empty() && (forall|id: Seq<u8>|
                     #[trigger]
                    live@.contains(id) <==> crate::fs::meta::is_live(fs.form.deep_view(), id)),
                None => forall|id: Seq<u8>| !crate::fs::meta::is_live(fs.form.deep_view(), id),
            },
    {
        let live = fs.live_blocks();
        if live.is_empty() {
            assert forall|id: Seq<u8>| !crate::fs::meta::is_live(fs.form.deep_view(), id) by {
                assert(!live@.contains(id));
            }
            None
        } else {
            Some(live)
        }
    }
}

/// A mutation is answered as it went: done, with a sweep exactly if blocks were orphaned
/// and its op staged; or refused, with nothing staged and no sweep.
pub proof fn law_a_mutation_is_answered_as_it_went(
    plan: Result<(OpModel, bool), FsError>,
    before: Seq<OpModel>,
    after: Seq<OpModel>,
    handled: Handled<Result<(), FsError>>,
)
    requires
        mutated(plan, before, after, handled),
    ensures
        handled.reply is Ok <==> plan is Ok,
        plan matches Ok((op, orphaned)) ==> after == before.push(op) && handled.sweep == orphaned,
        plan matches Err(e) ==> handled.reply == Err::<(), FsError>(e) && !handled.sweep && after
            == before,
{
}

} // verus!
