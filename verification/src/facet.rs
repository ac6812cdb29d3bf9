//! The facet runtime: record envelopes, facets, facet sets, and the cell that
//! holds a grain's facets while it is active.
//!
//! Every journaled record wears an envelope whose leading byte is its facet's tag.
//! A grain's facet set fixes which tags its history may hold; a tag that no facet
//! of the set claims aborts the activation instead of being skipped.
use vstd::prelude::*;
use vstd::string::*;

use crate::blobs::BlobId;
use crate::facet_blobs::id_views;
use crate::facet_blobs::RootSet;
use crate::ordmap::OrdSet;
use crate::stamp::refuse_revision;
use crate::stamp::revision_refused;
use crate::text::decimal;
use crate::text::labelled;
use crate::wire::decoded;
use crate::wire::describe;
use crate::wire::error_text;
use crate::wire::from_bytes;
use crate::wire::to_bytes;
use crate::wire::Wire;

verus! {

/// The tag of facet 0, the grain's own event fold.
pub const EVENT_TAG: u8 = 0;

/// The largest tag an envelope may carry. A leading byte above it is not a tag but
/// the escape into a later envelope revision.
pub const MAX_TAG: u8 = 0x7F;

/// The largest tag of a facet defined in this crate.
pub const MAX_BUILTIN_TAG: u8 = 0x3F;

/// The envelope revision that this crate writes and reads.
pub const RECORD_REVISION: u16 = 1;

/// A facet's reading of its durable input failed. The host aborts the activation
/// rather than misread the grain's history.
#[derive(Clone, Debug, PartialEq, Eq)]
pub struct FacetError(pub String);

impl FacetError {
    pub fn to_text(&self) -> (r: String)
        ensures
            r@ == "facet error: "@ + self.0@,
    {
        crate::text::joined("facet error: ", self.0.as_str())
    }
}

// ---- The record envelope ----

/// A record: its facet's tag, then its payload.
pub open spec fn record(tag: u8, payload: Seq<u8>) -> Seq<u8> {
    seq![tag] + payload
}

/// The refusal of a record that escapes into another envelope revision.
pub open spec fn envelope_refused(lead: u8) -> Seq<char> {
    let revision = (lead - 128) as u16;
    if revision == RECORD_REVISION {
        "record envelope v"@ + decimal(revision as nat) + " has no reader in this build"@
    } else {
        revision_refused("granary.record"@, revision, RECORD_REVISION)
    }
}

/// What splitting a record gives: its tag and payload, or the refusal's text.
pub open spec fn record_parts(bytes: Seq<u8>) -> Result<(u8, Seq<u8>), Seq<char>> {
    if bytes.len() == 0 {
        Err("empty record (missing facet tag)"@)
    } else if bytes[0] > MAX_TAG {
        Err(envelope_refused(bytes[0]))
    } else {
        Ok((bytes[0], bytes.skip(1)))
    }
}

/// Prefix `payload` with its facet's tag.
pub fn tag_record(tag: u8, payload: &[u8]) -> (r: Vec<u8>)
    requires
        tag <= MAX_TAG,
    ensures
        r@ == record(tag, payload@),
{
    let mut bytes: Vec<u8> = Vec::new();
    bytes.push(tag);
    let mut i: usize = 0;
    assert(bytes@ =~= record(tag, payload@.take(0)));
    while i < payload.len()
        invariant
            i <= payload@.len(),
            bytes@ == record(tag, payload@.take(i as int)),
        decreases payload@.len() - i,
    {
        bytes.push(payload[i]);
        i = i + 1;
        assert(bytes@ =~= record(tag, payload@.take(i as int)));
    }
    assert(payload@.take(i as int) =~= payload@);
    bytes
}

/// Split a journaled record into its facet's tag and its payload.
pub fn split_record(bytes: &[u8]) -> (r: Result<(u8, &[u8]), FacetError>)
    ensures
        match r {
            Ok((tag, payload)) => record_parts(bytes@) == Ok::<(u8, Seq<u8>), Seq<char>>(
                (tag, payload@),
            ),
            Err(e) => record_parts(bytes@) == Err::<(u8, Seq<u8>), Seq<char>>(e.0@),
        },
{
    if bytes.len() == 0 {
        return Err(FacetError("empty record (missing facet tag)".to_owned()));
    }
    let lead: u8 = bytes[0];
    if lead > MAX_TAG {
        let revision: u16 = (lead - 128) as u16;
        let text = if revision == RECORD_REVISION {
            let mut text = labelled("record envelope v", revision as u64);
            text.append(" has no reader in this build");
            text
        } else {
            refuse_revision("granary.record", revision, RECORD_REVISION)
        };
        return Err(FacetError(text));
    }
    Ok((lead, crate::wire::after_first(bytes)))
}

/// A record reads back as the tag and the payload it was written with.
pub proof fn law_records_round_trip(tag: u8, payload: Seq<u8>)
    requires
        tag <= MAX_TAG,
    ensures
        record_parts(record(tag, payload)) == Ok::<(u8, Seq<u8>), Seq<char>>((tag, payload)),
{
    assert(record(tag, payload).skip(1) =~= payload);
}

// ---- Payloads ----

/// What decoding a payload gives, a failure labelled with `what`.
pub open spec fn payload_of<T: Wire>(what: Seq<char>, bytes: Seq<u8>) -> Result<T::V, Seq<char>> {
    match decoded::<T>(bytes) {
        Ok(m) => Ok(m),
        Err(e) => Err(what + ": "@ + error_text(e)),
    }
}

/// Encode a facet payload.
pub fn encode_payload<T: Wire>(value: &T) -> (r: Vec<u8>)
    requires
        value.wire_inv(),
    ensures
        r@ == T::enc(value.deep_view()),
{
    to_bytes(value)
}

/// Decode a facet payload, labelling a failure with `what`.
pub fn decode_payload<T: Wire>(what: &str, bytes: &[u8]) -> (r: Result<T, FacetError>)
    ensures
        match r {
            Ok(v) => v.wire_inv() && payload_of::<T>(what@, bytes@) == Ok::<T::V, Seq<char>>(
                v.deep_view(),
            ),
            Err(e) => payload_of::<T>(what@, bytes@) == Err::<T::V, Seq<char>>(e.0@),
        },
{
    match from_bytes::<T>(bytes) {
        Ok(v) => Ok(v),
        Err(e) => {
            let mut text = what.to_owned();
            text.append(": ");
            text.append(describe(e).as_str());
            Err(FacetError(text))
        },
    }
}

// ---- Facets ----

/// One durable storage feature of a grain.
///
/// A facet's committed form is a fold over its records. A logical facet stages a
/// command's operations and folds them once they have committed; a physical facet
/// mutates a local materialization during the command, so the live path does not
/// fold its records again, and a failed commit discards the materialization.
pub trait Facet: Sized {
    type Form: DeepView;

    type Stage: DeepView;

    /// The facet's record tag, never reused.
    spec fn tag() -> u8;

    /// Whether the facet materializes.
    spec fn physical() -> bool;

    spec fn form_wf(form: Self::Form) -> bool;

    spec fn stage_wf(stage: Self::Stage) -> bool;

    spec fn empty_form() -> <Self::Form as DeepView>::V;

    spec fn empty_stage() -> <Self::Stage as DeepView>::V;

    /// Why a command cannot begin, if it cannot; `present` says whether the
    /// materialization's file is there.
    spec fn begin_refusal(form: <Self::Form as DeepView>::V, present: bool) -> Option<Seq<char>>;

    /// The form and the stage once a command's work is closed, or why it cannot be. A
    /// facet that materializes may commit its work and capture the change here.
    spec fn sealed(
        form: <Self::Form as DeepView>::V,
        stage: <Self::Stage as DeepView>::V,
    ) -> Result<(<Self::Form as DeepView>::V, <Self::Stage as DeepView>::V), Seq<char>>;

    /// The record payloads a stage becomes.
    spec fn drained(stage: <Self::Stage as DeepView>::V) -> Seq<Seq<u8>>;

    /// The numbers in a record stay within their types when it is folded.
    spec fn fold_ok(form: <Self::Form as DeepView>::V, payload: Seq<u8>) -> bool;

    /// They do so whatever form the record is folded into.
    spec fn always_ok(payload: Seq<u8>) -> bool;

    proof fn always_ok_folds(form: <Self::Form as DeepView>::V, payload: Seq<u8>)
        ensures
            Self::always_ok(payload) ==> Self::fold_ok(form, payload),
    ;

    /// The form after one record, or why the record cannot be read.
    spec fn folded(form: <Self::Form as DeepView>::V, payload: Seq<u8>) -> Result<
        <Self::Form as DeepView>::V,
        Seq<char>,
    >;

    /// The form's contribution to a snapshot.
    spec fn snapped(form: <Self::Form as DeepView>::V) -> Result<Seq<u8>, Seq<char>>;

    /// The form that a contribution (or its absence) restores.
    spec fn restored(part: Option<Seq<u8>>) -> Result<<Self::Form as DeepView>::V, Seq<char>>;

    /// What a snapshot of the form brings back: the form itself, or, of a facet that
    /// materializes, what the form is then materialized from.
    spec fn reborn(form: <Self::Form as DeepView>::V) -> <Self::Form as DeepView>::V;

    /// The form's contribution to a snapshot can be made and read back.
    spec fn keeps(form: <Self::Form as DeepView>::V) -> bool;

    proof fn snapshot_keeps(form: <Self::Form as DeepView>::V)
        requires
            Self::keeps(form),
        ensures
            Self::snapped(form) is Ok,
            Self::restored(Some(Self::snapped(form)->Ok_0)) == Ok::<
                <Self::Form as DeepView>::V,
                Seq<char>,
            >(Self::reborn(form)),
            !Self::physical() ==> Self::reborn(form) == form,
    ;

    /// The form once its materialization is gone.
    spec fn discarded(form: <Self::Form as DeepView>::V) -> <Self::Form as DeepView>::V;

    /// Every blob the form refers to.
    spec fn rooted(form: <Self::Form as DeepView>::V) -> Set<Seq<u8>>;

    /// The pending alarm deadline the form holds.
    spec fn due(form: <Self::Form as DeepView>::V) -> Option<u64>;

    /// The stage with a fired alarm consumed.
    spec fn alarm_consumed(stage: <Self::Stage as DeepView>::V) -> <Self::Stage as DeepView>::V;

    fn tag_value() -> (r: u8)
        ensures
            r == Self::tag(),
    ;

    fn is_physical() -> (r: bool)
        ensures
            r == Self::physical(),
    ;

    fn new_form() -> (r: Self::Form)
        ensures
            Self::form_wf(r),
            r.deep_view() == Self::empty_form(),
    ;

    fn new_stage() -> (r: Self::Stage)
        ensures
            Self::stage_wf(r),
            r.deep_view() == Self::empty_stage(),
    ;

    /// Open the facet's per-command work.
    fn begin(form: &Self::Form, present: bool) -> (r: Result<(), FacetError>)
        requires
            Self::form_wf(*form),
        ensures
            match r {
                Ok(_) => Self::begin_refusal(form.deep_view(), present) is None,
                Err(e) => Self::begin_refusal(form.deep_view(), present) == Some(e.0@),
            },
    ;

    /// Close the facet's per-command work, before its records are drained. A refusal
    /// leaves the form as it was.
    fn seal(form: &mut Self::Form, stage: &mut Self::Stage) -> (r: Result<(), FacetError>)
        requires
            Self::form_wf(*old(form)),
            Self::stage_wf(*old(stage)),
        ensures
            Self::form_wf(*final(form)),
            Self::stage_wf(*final(stage)),
            match r {
                Ok(_) => Self::sealed(old(form).deep_view(), old(stage).deep_view()) == Ok::<
                    (<Self::Form as DeepView>::V, <Self::Stage as DeepView>::V),
                    Seq<char>,
                >((final(form).deep_view(), final(stage).deep_view())),
                Err(e) => Self::sealed(old(form).deep_view(), old(stage).deep_view()) == Err::<
                    (<Self::Form as DeepView>::V, <Self::Stage as DeepView>::V),
                    Seq<char>,
                >(e.0@) && final(form).deep_view() == old(form).deep_view(),
            },
    ;

    /// Drain the stage into record payloads, in order.
    fn drain(stage: Self::Stage) -> (r: Vec<Vec<u8>>)
        requires
            Self::stage_wf(stage),
        ensures
            r.deep_view() == Self::drained(stage.deep_view()),
    ;

    /// Whether folding a record stays within the numbers' types.
    fn foldable(form: &Self::Form, payload: &[u8]) -> (r: bool)
        requires
            Self::form_wf(*form),
        ensures
            r == Self::fold_ok(form.deep_view(), payload@),
    ;

    /// Whether folding a record stays within the numbers' types, whatever the form.
    fn always_foldable(payload: &[u8]) -> (r: bool)
        ensures
            r == Self::always_ok(payload@),
    ;

    /// Interpret one committed record into the form.
    fn fold(form: &mut Self::Form, payload: &[u8]) -> (r: Result<(), FacetError>)
        requires
            Self::form_wf(*old(form)),
            Self::fold_ok(old(form).deep_view(), payload@),
        ensures
            Self::form_wf(*final(form)),
            match r {
                Ok(_) => Self::folded(old(form).deep_view(), payload@) == Ok::<
                    <Self::Form as DeepView>::V,
                    Seq<char>,
                >(final(form).deep_view()),
                Err(e) => Self::folded(old(form).deep_view(), payload@) == Err::<
                    <Self::Form as DeepView>::V,
                    Seq<char>,
                >(e.0@) && final(form).deep_view() == old(form).deep_view(),
            },
    ;

    /// The form's contribution to a snapshot.
    fn snapshot(form: &Self::Form) -> (r: Result<Vec<u8>, FacetError>)
        requires
            Self::form_wf(*form),
        ensures
            match r {
                Ok(bytes) => Self::snapped(form.deep_view()) == Ok::<Seq<u8>, Seq<char>>(bytes@),
                Err(e) => Self::snapped(form.deep_view()) == Err::<Seq<u8>, Seq<char>>(e.0@),
            },
    ;

    /// Rebuild the form from a contribution, or the empty form without one.
    fn restore(part: Option<&[u8]>) -> (r: Result<Self::Form, FacetError>)
        ensures
            match r {
                Ok(form) => Self::form_wf(form) && Self::restored(part_view(part)) == Ok::<
                    <Self::Form as DeepView>::V,
                    Seq<char>,
                >(form.deep_view()),
                Err(e) => Self::restored(part_view(part)) == Err::<
                    <Self::Form as DeepView>::V,
                    Seq<char>,
                >(e.0@),
            },
    ;

    /// Forget the materialization after a commit that did not happen.
    fn discard(form: &mut Self::Form)
        requires
            Self::form_wf(*old(form)),
        ensures
            Self::form_wf(*final(form)),
            final(form).deep_view() == Self::discarded(old(form).deep_view()),
    ;

    /// Every blob the form refers to.
    fn roots(form: &Self::Form) -> (r: OrdSet<BlobId>)
        requires
            Self::form_wf(*form),
        ensures
            r.wf(),
            r@ == Self::rooted(form.deep_view()),
    ;

    /// The pending alarm deadline the form holds.
    fn alarm_due(form: &Self::Form) -> (r: Option<u64>)
        requires
            Self::form_wf(*form),
        ensures
            r == Self::due(form.deep_view()),
    ;

    /// Stage the consumption of a fired alarm.
    fn stage_clear_alarm(stage: &mut Self::Stage)
        requires
            Self::stage_wf(*old(stage)),
        ensures
            Self::stage_wf(*final(stage)),
            final(stage).deep_view() == Self::alarm_consumed(old(stage).deep_view()),
    ;
}

/// What a facet's form means.
pub type FormOf<F> = <<F as Facet>::Form as DeepView>::V;

/// What a facet's stage means.
pub type StageOf<F> = <<F as Facet>::Stage as DeepView>::V;

/// The form after a run of records, or why one of them cannot be read.
pub open spec fn replayed<F: Facet>(
    form: <F::Form as DeepView>::V,
    payloads: Seq<Seq<u8>>,
) -> Result<<F::Form as DeepView>::V, Seq<char>>
    decreases payloads.len(),
{
    if payloads.len() == 0 {
        Ok(form)
    } else {
        match F::folded(form, payloads[0]) {
            Ok(next) => replayed::<F>(next, payloads.skip(1)),
            Err(text) => Err(text),
        }
    }
}

/// Replaying one run of records and then another is replaying both: a snapshot
/// taken between them, restored to the same form, loses nothing.
pub proof fn law_replay_splits<F: Facet>(
    form: <F::Form as DeepView>::V,
    earlier: Seq<Seq<u8>>,
    later: Seq<Seq<u8>>,
)
    ensures
        replayed::<F>(form, earlier + later) == match replayed::<F>(form, earlier) {
            Ok(middle) => replayed::<F>(middle, later),
            Err(text) => Err(text),
        },
    decreases earlier.len(),
{
    if earlier.len() == 0 {
        assert(earlier + later =~= later);
    } else {
        assert((earlier + later).skip(1) =~= earlier.skip(1) + later);
        match F::folded(form, earlier[0]) {
            Ok(next) => {
                law_replay_splits::<F>(next, earlier.skip(1), later);
            },
            Err(_) => {},
        }
    }
}

pub open spec fn part_view(part: Option<&[u8]>) -> Option<Seq<u8>> {
    match part {
        Some(bytes) => Some(bytes@),
        None => None,
    }
}

/// The refusal of a tag that no facet of a set claims.
pub open spec fn unknown_tag(tag: u8) -> Seq<char> {
    "unrecognized facet tag "@ + decimal(tag as nat)
}

fn refuse_tag(tag: u8) -> (r: FacetError)
    ensures
        r.0@ == unknown_tag(tag),
{
    FacetError(labelled("unrecognized facet tag ", tag as u64))
}

/// The payloads of one facet, each under its tag.
pub open spec fn under_tag(tag: u8, payloads: Seq<Seq<u8>>) -> Seq<(u8, Seq<u8>)> {
    payloads.map_values(|p: Seq<u8>| (tag, p))
}

/// The first contribution under `tag`.
pub open spec fn part_for(parts: Seq<(u8, Seq<u8>)>, tag: u8) -> Option<Seq<u8>>
    decreases parts.len(),
{
    if parts.len() == 0 {
        None
    } else if parts[0].0 == tag {
        Some(parts[0].1)
    } else {
        part_for(parts.skip(1), tag)
    }
}

/// A contribution is found under its tag, if no earlier one has it.
proof fn lemma_part_for(parts: Seq<(u8, Seq<u8>)>, i: int)
    requires
        0 <= i < parts.len(),
        forall|j: int| 0 <= j < i ==> (#[trigger] parts[j]).0 != parts[i].0,
    ensures
        part_for(parts, parts[i].0) == Some(parts[i].1),
    decreases i,
{
    if i > 0 {
        assert(parts[0].0 != parts[i].0);
        let rest = parts.skip(1);
        assert forall|j: int| 0 <= j < i - 1 implies (#[trigger] rest[j]).0 != rest[i - 1].0 by {
            assert(rest[j] == parts[j + 1]);
        }
        lemma_part_for(rest, i - 1);
    }
}

/// The first contribution under `tag`.
fn find_part(parts: &Vec<(u8, Vec<u8>)>, tag: u8) -> (r: Option<&[u8]>)
    ensures
        part_view(r) == part_for(parts.deep_view(), tag),
{
    let ghost all = parts.deep_view();
    let mut i: usize = 0;
    assert(all.skip(0) =~= all);
    while i < parts.len()
        invariant
            i <= parts@.len(),
            all == parts.deep_view(),
            part_for(all, tag) == part_for(all.skip(i as int), tag),
        decreases parts@.len() - i,
    {
        proof {
            assert(all.skip(i as int)[0] == all[i as int]);
            assert(all.skip(i as int).skip(1) =~= all.skip(i + 1));
        }
        if parts[i].0 == tag {
            let bytes = parts[i].1.as_slice();
            assert(all[i as int].1 =~= bytes@);
            return Some(bytes);
        }
        i = i + 1;
    }
    None
}

/// Append one facet's drained payloads under its tag.
fn push_tagged(out: &mut Vec<(u8, Vec<u8>)>, tag: u8, payloads: Vec<Vec<u8>>)
    ensures
        final(out).deep_view() == old(out).deep_view() + under_tag(tag, payloads.deep_view()),
{
    let ghost before = out.deep_view();
    let ghost all = payloads.deep_view();
    let ghost items = payloads@;
    assert(out.deep_view() =~= before + under_tag(tag, all.take(0)));
    for payload in it: payloads
        invariant
            it.seq() == items,
            all.len() == items.len(),
            forall|j: int| 0 <= j < items.len() ==> all[j] == (#[trigger] items[j]).deep_view(),
            out.deep_view() == before + under_tag(tag, all.take(it.index() as int)),
    {
        let ghost was = out.deep_view();
        let ghost i = it.index() as int;
        assert(payload == items[i]);
        out.push((tag, payload));
        proof {
            assert(out.deep_view() =~= was.push((tag, all[i as int])));
            assert(all.take(i + 1) =~= all.take(i as int).push(all[i as int]));
            assert(out.deep_view() =~= before + under_tag(tag, all.take(i + 1)));
        }
    }
    assert(all.take(items.len() as int) =~= all);
}

// ---- Facet sets ----

/// A grain's declared facets: the unit tuple, or a tuple of up to four facets with
/// distinct tags.
pub trait FacetSet: Sized {
    type Forms: DeepView;

    type Stages: DeepView;

    spec fn forms_wf(forms: Self::Forms) -> bool;

    spec fn stages_wf(stages: Self::Stages) -> bool;

    spec fn empty_forms() -> <Self::Forms as DeepView>::V;

    spec fn empty_stages() -> <Self::Stages as DeepView>::V;

    /// The declared tags, in tuple order.
    spec fn tags() -> Seq<u8>;

    spec fn begin_refusal(forms: <Self::Forms as DeepView>::V, present: bool) -> Option<Seq<char>>;

    /// The forms and the stages once a command's work is closed, facet by facet in
    /// tuple order; the first refusal counts.
    spec fn sealed(
        forms: <Self::Forms as DeepView>::V,
        stages: <Self::Stages as DeepView>::V,
    ) -> Result<(<Self::Forms as DeepView>::V, <Self::Stages as DeepView>::V), Seq<char>>;

    /// The forms once closing a command's work has gone as far as it does: those of the
    /// facets before one that refuses are closed, the rest are as they were.
    spec fn seal_forms(
        forms: <Self::Forms as DeepView>::V,
        stages: <Self::Stages as DeepView>::V,
    ) -> <Self::Forms as DeepView>::V;

    /// The records of a command, in tuple order.
    spec fn drained(stages: <Self::Stages as DeepView>::V) -> Seq<(u8, Seq<u8>)>;

    spec fn fold_ok(
        forms: <Self::Forms as DeepView>::V,
        tag: u8,
        payload: Seq<u8>,
        live: bool,
    ) -> bool;

    /// The record can be folded into whatever forms.
    spec fn always_ok(tag: u8, payload: Seq<u8>) -> bool;

    proof fn always_ok_folds(
        forms: <Self::Forms as DeepView>::V,
        tag: u8,
        payload: Seq<u8>,
        live: bool,
    )
        ensures
            Self::always_ok(tag, payload) ==> Self::fold_ok(forms, tag, payload, live),
    ;

    /// The forms after one record. On the live path a physical facet's record is
    /// skipped: its form changed when the command ran.
    spec fn folded(
        forms: <Self::Forms as DeepView>::V,
        tag: u8,
        payload: Seq<u8>,
        live: bool,
    ) -> Result<<Self::Forms as DeepView>::V, Seq<char>>;

    spec fn snapped(forms: <Self::Forms as DeepView>::V) -> Result<Seq<(u8, Seq<u8>)>, Seq<char>>;

    spec fn restored(parts: Seq<(u8, Seq<u8>)>) -> Result<
        <Self::Forms as DeepView>::V,
        Seq<char>,
    >;

    /// What a snapshot of the forms brings back.
    spec fn reborn(forms: <Self::Forms as DeepView>::V) -> <Self::Forms as DeepView>::V;

    /// Some facet of the set materializes.
    spec fn materializes() -> bool;

    /// Every form's contribution to a snapshot can be made and read back.
    spec fn keeps(forms: <Self::Forms as DeepView>::V) -> bool;

    proof fn snapshot_keeps(forms: <Self::Forms as DeepView>::V)
        requires
            Self::keeps(forms),
            Self::tags().no_duplicates(),
        ensures
            Self::snapped(forms) is Ok,
            Self::restored(Self::snapped(forms)->Ok_0) == Ok::<
                <Self::Forms as DeepView>::V,
                Seq<char>,
            >(Self::reborn(forms)),
            !Self::materializes() ==> Self::reborn(forms) == forms,
    ;

    spec fn discarded(forms: <Self::Forms as DeepView>::V) -> <Self::Forms as DeepView>::V;

    spec fn rooted(forms: <Self::Forms as DeepView>::V) -> Set<Seq<u8>>;

    spec fn due(forms: <Self::Forms as DeepView>::V) -> Option<u64>;

    spec fn alarm_consumed(stages: <Self::Stages as DeepView>::V) -> <Self::Stages as DeepView>::V;

    /// The tag is that of a facet that materializes.
    spec fn physical_tag(tag: u8) -> bool;

    /// A command's records carry only tags of the set.
    proof fn drained_tags(stages: <Self::Stages as DeepView>::V)
        ensures
            forall|i: int|
                0 <= i < Self::drained(stages).len() ==> Self::tags().contains(
                    (#[trigger] Self::drained(stages)[i]).0,
                ),
    ;

    /// A record of a logical facet folds live as it does on replay.
    proof fn live_as_replayed(forms: <Self::Forms as DeepView>::V, tag: u8, payload: Seq<u8>)
        ensures
            !Self::physical_tag(tag) ==> Self::folded(forms, tag, payload, true) == Self::folded(
                forms,
                tag,
                payload,
                false,
            ),
    ;

    fn new_forms() -> (r: Self::Forms)
        ensures
            Self::forms_wf(r),
            r.deep_view() == Self::empty_forms(),
    ;

    fn new_stages() -> (r: Self::Stages)
        ensures
            Self::stages_wf(r),
            r.deep_view() == Self::empty_stages(),
    ;

    fn tag_list() -> (r: Vec<u8>)
        ensures
            r@ == Self::tags(),
    ;

    /// Open each facet's per-command work; the first refusal counts.
    fn begin(forms: &Self::Forms, present: bool) -> (r: Result<(), FacetError>)
        requires
            Self::forms_wf(*forms),
        ensures
            match r {
                Ok(_) => Self::begin_refusal(forms.deep_view(), present) is None,
                Err(e) => Self::begin_refusal(forms.deep_view(), present) == Some(e.0@),
            },
    ;

    /// Close each facet's per-command work; the first refusal counts.
    fn seal(forms: &mut Self::Forms, stages: &mut Self::Stages) -> (r: Result<(), FacetError>)
        requires
            Self::forms_wf(*old(forms)),
            Self::stages_wf(*old(stages)),
        ensures
            Self::forms_wf(*final(forms)),
            Self::stages_wf(*final(stages)),
            final(forms).deep_view() == Self::seal_forms(
                old(forms).deep_view(),
                old(stages).deep_view(),
            ),
            match r {
                Ok(_) => Self::sealed(old(forms).deep_view(), old(stages).deep_view()) == Ok::<
                    (<Self::Forms as DeepView>::V, <Self::Stages as DeepView>::V),
                    Seq<char>,
                >((final(forms).deep_view(), final(stages).deep_view())),
                Err(e) => Self::sealed(old(forms).deep_view(), old(stages).deep_view()) == Err::<
                    (<Self::Forms as DeepView>::V, <Self::Stages as DeepView>::V),
                    Seq<char>,
                >(e.0@),
            },
    ;

    /// Drain every stage into tagged records, in tuple order.
    fn drain(stages: Self::Stages) -> (r: Vec<(u8, Vec<u8>)>)
        requires
            Self::stages_wf(stages),
        ensures
            r.deep_view() == Self::drained(stages.deep_view()),
    ;

    fn foldable(forms: &Self::Forms, tag: u8, payload: &[u8], live: bool) -> (r: bool)
        requires
            Self::forms_wf(*forms),
        ensures
            r == Self::fold_ok(forms.deep_view(), tag, payload@, live),
    ;

    /// Whether a record can be folded into whatever forms.
    fn always_foldable(tag: u8, payload: &[u8]) -> (r: bool)
        ensures
            r == Self::always_ok(tag, payload@),
    ;

    /// Fold one committed record, dispatched by its tag.
    fn fold(forms: &mut Self::Forms, tag: u8, payload: &[u8], live: bool) -> (r: Result<
        (),
        FacetError,
    >)
        requires
            Self::forms_wf(*old(forms)),
            Self::fold_ok(old(forms).deep_view(), tag, payload@, live),
        ensures
            Self::forms_wf(*final(forms)),
            match r {
                Ok(_) => Self::folded(old(forms).deep_view(), tag, payload@, live) == Ok::<
                    <Self::Forms as DeepView>::V,
                    Seq<char>,
                >(final(forms).deep_view()),
                Err(e) => Self::folded(old(forms).deep_view(), tag, payload@, live) == Err::<
                    <Self::Forms as DeepView>::V,
                    Seq<char>,
                >(e.0@) && final(forms).deep_view() == old(forms).deep_view(),
            },
    ;

    /// Every facet's contribution to a snapshot, in tuple order.
    fn snapshot(forms: &Self::Forms) -> (r: Result<Vec<(u8, Vec<u8>)>, FacetError>)
        requires
            Self::forms_wf(*forms),
        ensures
            match r {
                Ok(parts) => Self::snapped(forms.deep_view()) == Ok::<
                    Seq<(u8, Seq<u8>)>,
                    Seq<char>,
                >(parts.deep_view()),
                Err(e) => Self::snapped(forms.deep_view()) == Err::<
                    Seq<(u8, Seq<u8>)>,
                    Seq<char>,
                >(e.0@),
            },
    ;

    /// Rebuild every form from the contributions.
    fn restore(parts: &Vec<(u8, Vec<u8>)>) -> (r: Result<Self::Forms, FacetError>)
        ensures
            match r {
                Ok(forms) => Self::forms_wf(forms) && Self::restored(parts.deep_view()) == Ok::<
                    <Self::Forms as DeepView>::V,
                    Seq<char>,
                >(forms.deep_view()),
                Err(e) => Self::restored(parts.deep_view()) == Err::<
                    <Self::Forms as DeepView>::V,
                    Seq<char>,
                >(e.0@),
            },
    ;

    /// Forget every materialization.
    fn discard(forms: &mut Self::Forms)
        requires
            Self::forms_wf(*old(forms)),
        ensures
            Self::forms_wf(*final(forms)),
            final(forms).deep_view() == Self::discarded(old(forms).deep_view()),
    ;

    /// The union of every facet's blobs.
    fn roots(forms: &Self::Forms) -> (r: OrdSet<BlobId>)
        requires
            Self::forms_wf(*forms),
        ensures
            r.wf(),
            r@ == Self::rooted(forms.deep_view()),
    ;

    /// The first pending alarm deadline.
    fn alarm_due(forms: &Self::Forms) -> (r: Option<u64>)
        requires
            Self::forms_wf(*forms),
        ensures
            r == Self::due(forms.deep_view()),
    ;

    /// Stage the consumption of a fired alarm.
    fn stage_clear_alarm(stages: &mut Self::Stages)
        requires
            Self::stages_wf(*old(stages)),
        ensures
            Self::stages_wf(*final(stages)),
            final(stages).deep_view() == Self::alarm_consumed(old(stages).deep_view()),
    ;
}

/// No facets: the grain is its event fold alone, and every nonzero tag is unknown.
impl FacetSet for () {
    type Forms = ();

    type Stages = ();

    open spec fn physical_tag(tag: u8) -> bool {
        false
    }

    proof fn drained_tags(stages: ()) {
    }

    proof fn live_as_replayed(forms: (), tag: u8, payload: Seq<u8>) {
    }

    open spec fn forms_wf(forms: ()) -> bool {
        true
    }

    open spec fn stages_wf(stages: ()) -> bool {
        true
    }

    open spec fn empty_forms() -> () {
        ()
    }

    open spec fn empty_stages() -> () {
        ()
    }

    open spec fn tags() -> Seq<u8> {
        seq![]
    }

    open spec fn begin_refusal(forms: (), present: bool) -> Option<Seq<char>> {
        None
    }

    open spec fn seal_forms(
        forms: (),
        stages: (),
    ) -> () {
        ()
    }

    open spec fn sealed(
        forms: (),
        stages: (),
    ) -> Result<((), ()), Seq<char>> {
        Ok(((), ()))
    }

    open spec fn drained(stages: ()) -> Seq<(u8, Seq<u8>)> {
        seq![]
    }

    open spec fn always_ok(tag: u8, payload: Seq<u8>) -> bool {
        true
    }

    proof fn always_ok_folds(forms: (), tag: u8, payload: Seq<u8>, live: bool) {
    }

    open spec fn fold_ok(forms: (), tag: u8, payload: Seq<u8>, live: bool) -> bool {
        true
    }

    open spec fn folded(forms: (), tag: u8, payload: Seq<u8>, live: bool) -> Result<
        (),
        Seq<char>,
    > {
        Err(unknown_tag(tag))
    }

    open spec fn snapped(forms: ()) -> Result<Seq<(u8, Seq<u8>)>, Seq<char>> {
        Ok(seq![])
    }

    open spec fn restored(parts: Seq<(u8, Seq<u8>)>) -> Result<(), Seq<char>> {
        Ok(())
    }

    open spec fn reborn(forms: ()) -> () {
        ()
    }

    open spec fn materializes() -> bool {
        false
    }

    open spec fn keeps(forms: ()) -> bool {
        true
    }

    proof fn snapshot_keeps(forms: ()) {
    }

    open spec fn discarded(forms: ()) -> () {
        ()
    }

    open spec fn rooted(forms: ()) -> Set<Seq<u8>> {
        Set::empty()
    }

    open spec fn due(forms: ()) -> Option<u64> {
        None
    }

    open spec fn alarm_consumed(stages: ()) -> () {
        ()
    }

    fn new_forms() -> (r: ()) {
        ()
    }

    fn new_stages() -> (r: ()) {
        ()
    }

    fn tag_list() -> (r: Vec<u8>) {
        Vec::new()
    }

    fn begin(forms: &(), present: bool) -> (r: Result<(), FacetError>) {
        Ok(())
    }

    fn seal(
        forms: &mut (),
        stages: &mut (),
    ) -> (r: Result<(), FacetError>) {
        Ok(())
    }

    fn drain(stages: ()) -> (r: Vec<(u8, Vec<u8>)>) {
        let out: Vec<(u8, Vec<u8>)> = Vec::new();
        assert(out.deep_view() =~= Self::drained(stages.deep_view()));
        out
    }

    fn foldable(forms: &(), tag: u8, payload: &[u8], live: bool) -> (r: bool) {
        true
    }

    fn always_foldable(tag: u8, payload: &[u8]) -> (r: bool) {
        true
    }

    fn fold(forms: &mut (), tag: u8, payload: &[u8], live: bool) -> (r: Result<(), FacetError>) {
        Err(refuse_tag(tag))
    }

    fn snapshot(forms: &()) -> (r: Result<Vec<(u8, Vec<u8>)>, FacetError>) {
        let out: Vec<(u8, Vec<u8>)> = Vec::new();
        assert(out.deep_view() =~= seq![]);
        Ok(out)
    }

    fn restore(parts: &Vec<(u8, Vec<u8>)>) -> (r: Result<(), FacetError>) {
        Ok(())
    }

    fn discard(forms: &mut ()) {
    }

    fn roots(forms: &()) -> (r: OrdSet<BlobId>) {
        OrdSet::new()
    }

    fn alarm_due(forms: &()) -> (r: Option<u64>) {
        None
    }

    fn stage_clear_alarm(stages: &mut ()) {
    }
}

impl<A: Facet> FacetSet for (A,) {
    type Forms = (A::Form,);

    type Stages = (A::Stage,);

    open spec fn physical_tag(tag: u8) -> bool {
        if tag == A::tag() {
            A::physical()
        } else {
            false
        }
    }

    proof fn drained_tags(stages: (StageOf<A>,)) {
        let tags = Self::tags();
        assert(tags[0] == A::tag());
        assert forall|i: int| 0 <= i < Self::drained(stages).len() implies tags.contains(
            (#[trigger] Self::drained(stages)[i]).0,
        ) by {
            let n0 = A::drained(stages.0).len();
            if 0 <= i < n0 {
                assert(Self::drained(stages)[i] == under_tag(A::tag(), A::drained(stages.0))[i]);
            }
        }
    }

    proof fn live_as_replayed(forms: (FormOf<A>,), tag: u8, payload: Seq<u8>) {
    }

    open spec fn forms_wf(forms: (A::Form,)) -> bool {
        A::form_wf(forms.0)
    }

    open spec fn stages_wf(stages: (A::Stage,)) -> bool {
        A::stage_wf(stages.0)
    }

    open spec fn empty_forms() -> (FormOf<A>,) {
        (A::empty_form(),)
    }

    open spec fn empty_stages() -> (StageOf<A>,) {
        (A::empty_stage(),)
    }

    open spec fn tags() -> Seq<u8> {
        seq![A::tag()]
    }

    open spec fn begin_refusal(
        forms: (FormOf<A>,),
        present: bool,
    ) -> Option<Seq<char>> {
        A::begin_refusal(forms.0, present)
    }

    open spec fn seal_forms(
        forms: (FormOf<A>,),
        stages: (StageOf<A>,),
    ) -> (FormOf<A>,) {
        match A::sealed(forms.0, stages.0) {
            Err(_) => (forms.0,),
            Ok(s0) => (s0.0,),
        }
    }

    open spec fn sealed(
        forms: (FormOf<A>,),
        stages: (StageOf<A>,),
    ) -> Result<((FormOf<A>,), (StageOf<A>,)), Seq<char>> {
        match A::sealed(forms.0, stages.0) {
            Err(text) => Err(text),
            Ok(s0) => Ok(((s0.0,), (s0.1,))),
        }
    }

    open spec fn drained(stages: (StageOf<A>,)) -> Seq<(u8, Seq<u8>)> {
        under_tag(A::tag(), A::drained(stages.0))
    }

    open spec fn always_ok(tag: u8, payload: Seq<u8>) -> bool {
        if tag == A::tag() {
            A::always_ok(payload)
        } else {
            true
        }
    }

    proof fn always_ok_folds(
        forms: (FormOf<A>,),
        tag: u8,
        payload: Seq<u8>,
        live: bool,
    ) {
        A::always_ok_folds(forms.0, payload);
    }

    open spec fn fold_ok(
        forms: (FormOf<A>,),
        tag: u8,
        payload: Seq<u8>,
        live: bool,
    ) -> bool {
        if tag == A::tag() {
            live && A::physical() || A::fold_ok(forms.0, payload)
        } else {
            true
        }
    }

    open spec fn folded(
        forms: (FormOf<A>,),
        tag: u8,
        payload: Seq<u8>,
        live: bool,
    ) -> Result<
        (FormOf<A>,),
        Seq<char>,
    > {
        if tag == A::tag() {
            if live && A::physical() {
                Ok(forms)
            } else {
                match A::folded(forms.0, payload) {
                    Ok(form) => Ok((form,)),
                    Err(text) => Err(text),
                }
            }
        } else {
            Err(unknown_tag(tag))
        }
    }

    open spec fn snapped(
        forms: (FormOf<A>,),
    ) -> Result<Seq<(u8, Seq<u8>)>, Seq<char>> {
        match A::snapped(forms.0) {
            Err(text) => Err(text),
            Ok(p0) => Ok(seq![(A::tag(), p0)]),
        }
    }

    open spec fn restored(
        parts: Seq<(u8, Seq<u8>)>,
    ) -> Result<(FormOf<A>,), Seq<char>> {
        match A::restored(part_for(parts, A::tag())) {
            Err(text) => Err(text),
            Ok(f0) => Ok((f0,)),
        }
    }

    open spec fn reborn(forms: (FormOf<A>,)) -> (FormOf<A>,) {
        (A::reborn(forms.0),)
    }

    open spec fn materializes() -> bool {
        A::physical()
    }

    open spec fn keeps(forms: (FormOf<A>,)) -> bool {
        A::keeps(forms.0)
    }

    proof fn snapshot_keeps(forms: (FormOf<A>,)) {
        A::snapshot_keeps(forms.0);
        let parts = Self::snapped(forms)->Ok_0;
        let tags = Self::tags();
        assert(parts[0].0 == tags[0]);
        lemma_part_for(parts, 0);
    }

    open spec fn discarded(forms: (FormOf<A>,)) -> (FormOf<A>,) {
        (A::discarded(forms.0),)
    }

    open spec fn rooted(forms: (FormOf<A>,)) -> Set<Seq<u8>> {
        A::rooted(forms.0)
    }

    open spec fn due(forms: (FormOf<A>,)) -> Option<u64> {
        A::due(forms.0)
    }

    open spec fn alarm_consumed(
        stages: (StageOf<A>,),
    ) -> (StageOf<A>,) {
        (A::alarm_consumed(stages.0),)
    }

    fn new_forms() -> (r: (A::Form,)) {
        (A::new_form(),)
    }

    fn new_stages() -> (r: (A::Stage,)) {
        (A::new_stage(),)
    }

    fn tag_list() -> (r: Vec<u8>) {
        let mut out: Vec<u8> = Vec::new();
        out.push(A::tag_value());
        assert(out@ =~= Self::tags());
        out
    }

    fn begin(forms: &(A::Form,), present: bool) -> (r: Result<(), FacetError>) {
        if let Err(e) = A::begin(&forms.0, present) {
            return Err(e);
        }
        Ok(())
    }

    fn seal(
        forms: &mut (A::Form,),
        stages: &mut (A::Stage,),
    ) -> (r: Result<(), FacetError>) {
        if let Err(e) = A::seal(&mut forms.0, &mut stages.0) {
            return Err(e);
        }
        Ok(())
    }

    fn drain(stages: (A::Stage,)) -> (r: Vec<(u8, Vec<u8>)>) {
        let mut out: Vec<(u8, Vec<u8>)> = Vec::new();
        let ghost m = stages.deep_view();
        push_tagged(&mut out, A::tag_value(), A::drain(stages.0));
        assert(out.deep_view() =~= Self::drained(m));
        out
    }

    fn foldable(forms: &(A::Form,), tag: u8, payload: &[u8], live: bool) -> (r: bool) {
        if tag == A::tag_value() {
            return live && A::is_physical() || A::foldable(&forms.0, payload);
        }
        true
    }

    fn always_foldable(tag: u8, payload: &[u8]) -> (r: bool) {
        if tag == A::tag_value() {
            return A::always_foldable(payload);
        }
        true
    }

    fn fold(
        forms: &mut (A::Form,),
        tag: u8,
        payload: &[u8],
        live: bool,
    ) -> (r: Result<(), FacetError>) {
        if tag == A::tag_value() {
            if live && A::is_physical() {
                return Ok(());
            }
            return A::fold(&mut forms.0, payload);
        }
        Err(refuse_tag(tag))
    }

    fn snapshot(forms: &(A::Form,)) -> (r: Result<Vec<(u8, Vec<u8>)>, FacetError>) {
        let mut out: Vec<(u8, Vec<u8>)> = Vec::new();
        match A::snapshot(&forms.0) {
            Err(e) => {
                return Err(e);
            },
            Ok(part) => {
                assert(part.deep_view() =~= part@);
                out.push((A::tag_value(), part));
            },
        }
        assert(out.deep_view() =~= Self::snapped(forms.deep_view())->Ok_0);
        Ok(out)
    }

    fn restore(parts: &Vec<(u8, Vec<u8>)>) -> (r: Result<(A::Form,), FacetError>) {
        let f0 = match A::restore(find_part(parts, A::tag_value())) {
            Ok(form) => form,
            Err(e) => {
                return Err(e);
            },
        };
        Ok((f0,))
    }

    fn discard(forms: &mut (A::Form,)) {
        A::discard(&mut forms.0);
    }

    fn roots(forms: &(A::Form,)) -> (r: OrdSet<BlobId>) {
        A::roots(&forms.0)
    }

    fn alarm_due(forms: &(A::Form,)) -> (r: Option<u64>) {
        if let Some(due) = A::alarm_due(&forms.0) {
            return Some(due);
        }
        None
    }

    fn stage_clear_alarm(stages: &mut (A::Stage,)) {
        A::stage_clear_alarm(&mut stages.0);
    }
}

impl<A: Facet, B: Facet> FacetSet for (A, B) {
    type Forms = (A::Form, B::Form);

    type Stages = (A::Stage, B::Stage);

    open spec fn physical_tag(tag: u8) -> bool {
        if tag == A::tag() {
            A::physical()
        } else if tag == B::tag() {
            B::physical()
        } else {
            false
        }
    }

    proof fn drained_tags(stages: (StageOf<A>, StageOf<B>)) {
        let tags = Self::tags();
        assert(tags[0] == A::tag());
        assert(tags[1] == B::tag());
        assert forall|i: int| 0 <= i < Self::drained(stages).len() implies tags.contains(
            (#[trigger] Self::drained(stages)[i]).0,
        ) by {
            let n0 = A::drained(stages.0).len();
            let n1 = B::drained(stages.1).len();
            if 0 <= i < n0 {
                assert(Self::drained(stages)[i] == under_tag(A::tag(), A::drained(stages.0))[i]);
            }
            if n0 <= i < n0 + n1 {
                assert(Self::drained(stages)[i] == under_tag(B::tag(), B::drained(stages.1))[i - n0]);
            }
        }
    }

    proof fn live_as_replayed(
        forms: (FormOf<A>, FormOf<B>),
        tag: u8,
        payload: Seq<u8>,
    ) {
    }

    open spec fn forms_wf(forms: (A::Form, B::Form)) -> bool {
        A::form_wf(forms.0) && B::form_wf(forms.1)
    }

    open spec fn stages_wf(stages: (A::Stage, B::Stage)) -> bool {
        A::stage_wf(stages.0) && B::stage_wf(stages.1)
    }

    open spec fn empty_forms() -> (FormOf<A>, FormOf<B>) {
        (A::empty_form(), B::empty_form())
    }

    open spec fn empty_stages() -> (StageOf<A>, StageOf<B>) {
        (A::empty_stage(), B::empty_stage())
    }

    open spec fn tags() -> Seq<u8> {
        seq![A::tag(), B::tag()]
    }

    open spec fn begin_refusal(
        forms: (FormOf<A>, FormOf<B>),
        present: bool,
    ) -> Option<Seq<char>> {
        match A::begin_refusal(forms.0, present) {
            Some(text) => Some(text),
            None => B::begin_refusal(forms.1, present),
        }
    }

    open spec fn seal_forms(
        forms: (FormOf<A>, FormOf<B>),
        stages: (StageOf<A>, StageOf<B>),
    ) -> (FormOf<A>, FormOf<B>) {
        match A::sealed(forms.0, stages.0) {
            Err(_) => (forms.0, forms.1),
            Ok(s0) => match B::sealed(forms.1, stages.1) {
                Err(_) => (s0.0, forms.1),
                Ok(s1) => (s0.0, s1.0),
            },
        }
    }

    open spec fn sealed(
        forms: (FormOf<A>, FormOf<B>),
        stages: (StageOf<A>, StageOf<B>),
    ) -> Result<((FormOf<A>, FormOf<B>), (StageOf<A>, StageOf<B>)), Seq<char>> {
        match A::sealed(forms.0, stages.0) {
            Err(text) => Err(text),
            Ok(s0) => match B::sealed(forms.1, stages.1) {
                    Err(text) => Err(text),
                    Ok(s1) => Ok(((s0.0, s1.0), (s0.1, s1.1))),
                },
        }
    }

    open spec fn drained(
        stages: (StageOf<A>, StageOf<B>),
    ) -> Seq<(u8, Seq<u8>)> {
        under_tag(A::tag(), A::drained(stages.0)) + under_tag(B::tag(), B::drained(stages.1))
    }

    open spec fn always_ok(tag: u8, payload: Seq<u8>) -> bool {
        if tag == A::tag() {
            A::always_ok(payload)
        } else if tag == B::tag() {
            B::always_ok(payload)
        } else {
            true
        }
    }

    proof fn always_ok_folds(
        forms: (FormOf<A>, FormOf<B>),
        tag: u8,
        payload: Seq<u8>,
        live: bool,
    ) {
        A::always_ok_folds(forms.0, payload);
        B::always_ok_folds(forms.1, payload);
    }

    open spec fn fold_ok(
        forms: (FormOf<A>, FormOf<B>),
        tag: u8,
        payload: Seq<u8>,
        live: bool,
    ) -> bool {
        if tag == A::tag() {
            live && A::physical() || A::fold_ok(forms.0, payload)
        } else if tag == B::tag() {
            live && B::physical() || B::fold_ok(forms.1, payload)
        } else {
            true
        }
    }

    open spec fn folded(
        forms: (FormOf<A>, FormOf<B>),
        tag: u8,
        payload: Seq<u8>,
        live: bool,
    ) -> Result<
        (FormOf<A>, FormOf<B>),
        Seq<char>,
    > {
        if tag == A::tag() {
            if live && A::physical() {
                Ok(forms)
            } else {
                match A::folded(forms.0, payload) {
                    Ok(form) => Ok((form, forms.1)),
                    Err(text) => Err(text),
                }
            }
        } else if tag == B::tag() {
            if live && B::physical() {
                Ok(forms)
            } else {
                match B::folded(forms.1, payload) {
                    Ok(form) => Ok((forms.0, form)),
                    Err(text) => Err(text),
                }
            }
        } else {
            Err(unknown_tag(tag))
        }
    }

    open spec fn snapped(
        forms: (FormOf<A>, FormOf<B>),
    ) -> Result<Seq<(u8, Seq<u8>)>, Seq<char>> {
        match A::snapped(forms.0) {
            Err(text) => Err(text),
            Ok(p0) => match B::snapped(forms.1) {
            Err(text) => Err(text),
            Ok(p1) => Ok(seq![(A::tag(), p0), (B::tag(), p1)]),
        },
        }
    }

    open spec fn restored(
        parts: Seq<(u8, Seq<u8>)>,
    ) -> Result<(FormOf<A>, FormOf<B>), Seq<char>> {
        match A::restored(part_for(parts, A::tag())) {
            Err(text) => Err(text),
            Ok(f0) => match B::restored(part_for(parts, B::tag())) {
            Err(text) => Err(text),
            Ok(f1) => Ok((f0, f1)),
        },
        }
    }

    open spec fn reborn(
        forms: (FormOf<A>, FormOf<B>),
    ) -> (FormOf<A>, FormOf<B>) {
        (A::reborn(forms.0), B::reborn(forms.1))
    }

    open spec fn materializes() -> bool {
        A::physical() || B::physical()
    }

    open spec fn keeps(forms: (FormOf<A>, FormOf<B>)) -> bool {
        A::keeps(forms.0) && B::keeps(forms.1)
    }

    proof fn snapshot_keeps(forms: (FormOf<A>, FormOf<B>)) {
        A::snapshot_keeps(forms.0);
        B::snapshot_keeps(forms.1);
        let parts = Self::snapped(forms)->Ok_0;
        let tags = Self::tags();
        assert(parts[0].0 == tags[0]);
        assert(parts[1].0 == tags[1]);
        lemma_part_for(parts, 0);
        lemma_part_for(parts, 1);
    }

    open spec fn discarded(
        forms: (FormOf<A>, FormOf<B>),
    ) -> (FormOf<A>, FormOf<B>) {
        (A::discarded(forms.0), B::discarded(forms.1))
    }

    open spec fn rooted(
        forms: (FormOf<A>, FormOf<B>),
    ) -> Set<Seq<u8>> {
        A::rooted(forms.0).union(B::rooted(forms.1))
    }

    open spec fn due(forms: (FormOf<A>, FormOf<B>)) -> Option<u64> {
        match A::due(forms.0) {
            Some(due) => Some(due),
            None => B::due(forms.1),
        }
    }

    open spec fn alarm_consumed(
        stages: (StageOf<A>, StageOf<B>),
    ) -> (StageOf<A>, StageOf<B>) {
        (A::alarm_consumed(stages.0), B::alarm_consumed(stages.1))
    }

    fn new_forms() -> (r: (A::Form, B::Form)) {
        (A::new_form(), B::new_form())
    }

    fn new_stages() -> (r: (A::Stage, B::Stage)) {
        (A::new_stage(), B::new_stage())
    }

    fn tag_list() -> (r: Vec<u8>) {
        let mut out: Vec<u8> = Vec::new();
        out.push(A::tag_value());
        out.push(B::tag_value());
        assert(out@ =~= Self::tags());
        out
    }

    fn begin(forms: &(A::Form, B::Form), present: bool) -> (r: Result<(), FacetError>) {
        if let Err(e) = A::begin(&forms.0, present) {
            return Err(e);
        }
        if let Err(e) = B::begin(&forms.1, present) {
            return Err(e);
        }
        Ok(())
    }

    fn seal(
        forms: &mut (A::Form, B::Form),
        stages: &mut (A::Stage, B::Stage),
    ) -> (r: Result<(), FacetError>) {
        if let Err(e) = A::seal(&mut forms.0, &mut stages.0) {
            return Err(e);
        }
        if let Err(e) = B::seal(&mut forms.1, &mut stages.1) {
            return Err(e);
        }
        Ok(())
    }

    fn drain(stages: (A::Stage, B::Stage)) -> (r: Vec<(u8, Vec<u8>)>) {
        let mut out: Vec<(u8, Vec<u8>)> = Vec::new();
        let ghost m = stages.deep_view();
        push_tagged(&mut out, A::tag_value(), A::drain(stages.0));
        push_tagged(&mut out, B::tag_value(), B::drain(stages.1));
        assert(out.deep_view() =~= Self::drained(m));
        out
    }

    fn foldable(forms: &(A::Form, B::Form), tag: u8, payload: &[u8], live: bool) -> (r: bool) {
        if tag == A::tag_value() {
            return live && A::is_physical() || A::foldable(&forms.0, payload);
        }
        if tag == B::tag_value() {
            return live && B::is_physical() || B::foldable(&forms.1, payload);
        }
        true
    }

    fn always_foldable(tag: u8, payload: &[u8]) -> (r: bool) {
        if tag == A::tag_value() {
            return A::always_foldable(payload);
        }
        if tag == B::tag_value() {
            return B::always_foldable(payload);
        }
        true
    }

    fn fold(
        forms: &mut (A::Form, B::Form),
        tag: u8,
        payload: &[u8],
        live: bool,
    ) -> (r: Result<(), FacetError>) {
        if tag == A::tag_value() {
            if live && A::is_physical() {
                return Ok(());
            }
            return A::fold(&mut forms.0, payload);
        }
        if tag == B::tag_value() {
            if live && B::is_physical() {
                return Ok(());
            }
            return B::fold(&mut forms.1, payload);
        }
        Err(refuse_tag(tag))
    }

    fn snapshot(forms: &(A::Form, B::Form)) -> (r: Result<Vec<(u8, Vec<u8>)>, FacetError>) {
        let mut out: Vec<(u8, Vec<u8>)> = Vec::new();
        match A::snapshot(&forms.0) {
            Err(e) => {
                return Err(e);
            },
            Ok(part) => {
                assert(part.deep_view() =~= part@);
                out.push((A::tag_value(), part));
            },
        }
        match B::snapshot(&forms.1) {
            Err(e) => {
                return Err(e);
            },
            Ok(part) => {
                assert(part.deep_view() =~= part@);
                out.push((B::tag_value(), part));
            },
        }
        assert(out.deep_view() =~= Self::snapped(forms.deep_view())->Ok_0);
        Ok(out)
    }

    fn restore(parts: &Vec<(u8, Vec<u8>)>) -> (r: Result<(A::Form, B::Form), FacetError>) {
        let f0 = match A::restore(find_part(parts, A::tag_value())) {
            Ok(form) => form,
            Err(e) => {
                return Err(e);
            },
        };
        let f1 = match B::restore(find_part(parts, B::tag_value())) {
            Ok(form) => form,
            Err(e) => {
                return Err(e);
            },
        };
        Ok((f0, f1))
    }

    fn discard(forms: &mut (A::Form, B::Form)) {
        A::discard(&mut forms.0);
        B::discard(&mut forms.1);
    }

    fn roots(forms: &(A::Form, B::Form)) -> (r: OrdSet<BlobId>) {
        let mut roots = A::roots(&forms.0);
        roots.union(&B::roots(&forms.1));
        roots
    }

    fn alarm_due(forms: &(A::Form, B::Form)) -> (r: Option<u64>) {
        if let Some(due) = A::alarm_due(&forms.0) {
            return Some(due);
        }
        if let Some(due) = B::alarm_due(&forms.1) {
            return Some(due);
        }
        None
    }

    fn stage_clear_alarm(stages: &mut (A::Stage, B::Stage)) {
        A::stage_clear_alarm(&mut stages.0);
        B::stage_clear_alarm(&mut stages.1);
    }
}

impl<A: Facet, B: Facet, C: Facet> FacetSet for (A, B, C) {
    type Forms = (A::Form, B::Form, C::Form);

    type Stages = (A::Stage, B::Stage, C::Stage);

    open spec fn physical_tag(tag: u8) -> bool {
        if tag == A::tag() {
            A::physical()
        } else if tag == B::tag() {
            B::physical()
        } else if tag == C::tag() {
            C::physical()
        } else {
            false
        }
    }

    proof fn drained_tags(
        stages: (StageOf<A>, StageOf<B>, StageOf<C>),
    ) {
        let tags = Self::tags();
        assert(tags[0] == A::tag());
        assert(tags[1] == B::tag());
        assert(tags[2] == C::tag());
        assert forall|i: int| 0 <= i < Self::drained(stages).len() implies tags.contains(
            (#[trigger] Self::drained(stages)[i]).0,
        ) by {
            let n0 = A::drained(stages.0).len();
            let n1 = B::drained(stages.1).len();
            let n2 = C::drained(stages.2).len();
            if 0 <= i < n0 {
                assert(Self::drained(stages)[i] == under_tag(A::tag(), A::drained(stages.0))[i]);
            }
            if n0 <= i < n0 + n1 {
                assert(Self::drained(stages)[i] == under_tag(B::tag(), B::drained(stages.1))[i - n0]);
            }
            if n0 + n1 <= i < n0 + n1 + n2 {
                assert(Self::drained(stages)[i] == under_tag(C::tag(), C::drained(stages.2))[i - (n0 + n1)]);
            }
        }
    }

    proof fn live_as_replayed(
        forms: (FormOf<A>, FormOf<B>, FormOf<C>),
        tag: u8,
        payload: Seq<u8>,
    ) {
    }

    open spec fn forms_wf(forms: (A::Form, B::Form, C::Form)) -> bool {
        A::form_wf(forms.0) && B::form_wf(forms.1) && C::form_wf(forms.2)
    }

    open spec fn stages_wf(stages: (A::Stage, B::Stage, C::Stage)) -> bool {
        A::stage_wf(stages.0) && B::stage_wf(stages.1) && C::stage_wf(stages.2)
    }

    open spec fn empty_forms(
    ) -> (FormOf<A>, FormOf<B>, FormOf<C>) {
        (A::empty_form(), B::empty_form(), C::empty_form())
    }

    open spec fn empty_stages(
    ) -> (StageOf<A>, StageOf<B>, StageOf<C>) {
        (A::empty_stage(), B::empty_stage(), C::empty_stage())
    }

    open spec fn tags() -> Seq<u8> {
        seq![A::tag(), B::tag(), C::tag()]
    }

    open spec fn begin_refusal(
        forms: (FormOf<A>, FormOf<B>, FormOf<C>),
        present: bool,
    ) -> Option<Seq<char>> {
        match A::begin_refusal(forms.0, present) {
            Some(text) => Some(text),
            None => match B::begin_refusal(forms.1, present) {
            Some(text) => Some(text),
            None => C::begin_refusal(forms.2, present),
        },
        }
    }

    open spec fn seal_forms(
        forms: (FormOf<A>, FormOf<B>, FormOf<C>),
        stages: (StageOf<A>, StageOf<B>, StageOf<C>),
    ) -> (FormOf<A>, FormOf<B>, FormOf<C>) {
        match A::sealed(forms.0, stages.0) {
            Err(_) => (forms.0, forms.1, forms.2),
            Ok(s0) => match B::sealed(forms.1, stages.1) {
                Err(_) => (s0.0, forms.1, forms.2),
                Ok(s1) => match C::sealed(forms.2, stages.2) {
                    Err(_) => (s0.0, s1.0, forms.2),
                    Ok(s2) => (s0.0, s1.0, s2.0),
                },
            },
        }
    }

    open spec fn sealed(
        forms: (FormOf<A>, FormOf<B>, FormOf<C>),
        stages: (StageOf<A>, StageOf<B>, StageOf<C>),
    ) -> Result<((FormOf<A>, FormOf<B>, FormOf<C>), (StageOf<A>, StageOf<B>, StageOf<C>)), Seq<char>> {
        match A::sealed(forms.0, stages.0) {
            Err(text) => Err(text),
            Ok(s0) => match B::sealed(forms.1, stages.1) {
                    Err(text) => Err(text),
                    Ok(s1) => match C::sealed(forms.2, stages.2) {
                            Err(text) => Err(text),
                            Ok(s2) => Ok(((s0.0, s1.0, s2.0), (s0.1, s1.1, s2.1))),
                        },
                },
        }
    }

    open spec fn drained(
        stages: (StageOf<A>, StageOf<B>, StageOf<C>),
    ) -> Seq<(u8, Seq<u8>)> {
        under_tag(A::tag(), A::drained(stages.0)) + under_tag(B::tag(), B::drained(stages.1)) + under_tag(C::tag(), C::drained(stages.2))
    }

    open spec fn always_ok(tag: u8, payload: Seq<u8>) -> bool {
        if tag == A::tag() {
            A::always_ok(payload)
        } else if tag == B::tag() {
            B::always_ok(payload)
        } else if tag == C::tag() {
            C::always_ok(payload)
        } else {
            true
        }
    }

    proof fn always_ok_folds(
        forms: (FormOf<A>, FormOf<B>, FormOf<C>),
        tag: u8,
        payload: Seq<u8>,
        live: bool,
    ) {
        A::always_ok_folds(forms.0, payload);
        B::always_ok_folds(forms.1, payload);
        C::always_ok_folds(forms.2, payload);
    }

    open spec fn fold_ok(
        forms: (FormOf<A>, FormOf<B>, FormOf<C>),
        tag: u8,
        payload: Seq<u8>,
        live: bool,
    ) -> bool {
        if tag == A::tag() {
            live && A::physical() || A::fold_ok(forms.0, payload)
        } else if tag == B::tag() {
            live && B::physical() || B::fold_ok(forms.1, payload)
        } else if tag == C::tag() {
            live && C::physical() || C::fold_ok(forms.2, payload)
        } else {
            true
        }
    }

    open spec fn folded(
        forms: (FormOf<A>, FormOf<B>, FormOf<C>),
        tag: u8,
        payload: Seq<u8>,
        live: bool,
    ) -> Result<
        (FormOf<A>, FormOf<B>, FormOf<C>),
        Seq<char>,
    > {
        if tag == A::tag() {
            if live && A::physical() {
                Ok(forms)
            } else {
                match A::folded(forms.0, payload) {
                    Ok(form) => Ok((form, forms.1, forms.2)),
                    Err(text) => Err(text),
                }
            }
        } else if tag == B::tag() {
            if live && B::physical() {
                Ok(forms)
            } else {
                match B::folded(forms.1, payload) {
                    Ok(form) => Ok((forms.0, form, forms.2)),
                    Err(text) => Err(text),
                }
            }
        } else if tag == C::tag() {
            if live && C::physical() {
                Ok(forms)
            } else {
                match C::folded(forms.2, payload) {
                    Ok(form) => Ok((forms.0, forms.1, form)),
                    Err(text) => Err(text),
                }
            }
        } else {
            Err(unknown_tag(tag))
        }
    }

    open spec fn snapped(
        forms: (FormOf<A>, FormOf<B>, FormOf<C>),
    ) -> Result<Seq<(u8, Seq<u8>)>, Seq<char>> {
        match A::snapped(forms.0) {
            Err(text) => Err(text),
            Ok(p0) => match B::snapped(forms.1) {
            Err(text) => Err(text),
            Ok(p1) => match C::snapped(forms.2) {
            Err(text) => Err(text),
            Ok(p2) => Ok(seq![(A::tag(), p0), (B::tag(), p1), (C::tag(), p2)]),
        },
        },
        }
    }

    open spec fn restored(
        parts: Seq<(u8, Seq<u8>)>,
    ) -> Result<(FormOf<A>, FormOf<B>, FormOf<C>), Seq<char>> {
        match A::restored(part_for(parts, A::tag())) {
            Err(text) => Err(text),
            Ok(f0) => match B::restored(part_for(parts, B::tag())) {
            Err(text) => Err(text),
            Ok(f1) => match C::restored(part_for(parts, C::tag())) {
            Err(text) => Err(text),
            Ok(f2) => Ok((f0, f1, f2)),
        },
        },
        }
    }

    open spec fn reborn(
        forms: (FormOf<A>, FormOf<B>, FormOf<C>),
    ) -> (FormOf<A>, FormOf<B>, FormOf<C>) {
        (A::reborn(forms.0), B::reborn(forms.1), C::reborn(forms.2))
    }

    open spec fn materializes() -> bool {
        A::physical() || B::physical() || C::physical()
    }

    open spec fn keeps(
        forms: (FormOf<A>, FormOf<B>, FormOf<C>),
    ) -> bool {
        A::keeps(forms.0) && B::keeps(forms.1) && C::keeps(forms.2)
    }

    proof fn snapshot_keeps(
        forms: (FormOf<A>, FormOf<B>, FormOf<C>),
    ) {
        A::snapshot_keeps(forms.0);
        B::snapshot_keeps(forms.1);
        C::snapshot_keeps(forms.2);
        let parts = Self::snapped(forms)->Ok_0;
        let tags = Self::tags();
        assert(parts[0].0 == tags[0]);
        assert(parts[1].0 == tags[1]);
        assert(parts[2].0 == tags[2]);
        lemma_part_for(parts, 0);
        lemma_part_for(parts, 1);
        lemma_part_for(parts, 2);
    }

    open spec fn discarded(
        forms: (FormOf<A>, FormOf<B>, FormOf<C>),
    ) -> (FormOf<A>, FormOf<B>, FormOf<C>) {
        (A::discarded(forms.0), B::discarded(forms.1), C::discarded(forms.2))
    }

    open spec fn rooted(
        forms: (FormOf<A>, FormOf<B>, FormOf<C>),
    ) -> Set<Seq<u8>> {
        A::rooted(forms.0).union(B::rooted(forms.1)).union(C::rooted(forms.2))
    }

    open spec fn due(
        forms: (FormOf<A>, FormOf<B>, FormOf<C>),
    ) -> Option<u64> {
        match A::due(forms.0) {
            Some(due) => Some(due),
            None => match B::due(forms.1) {
            Some(due) => Some(due),
            None => C::due(forms.2),
        },
        }
    }

    open spec fn alarm_consumed(
        stages: (StageOf<A>, StageOf<B>, StageOf<C>),
    ) -> (StageOf<A>, StageOf<B>, StageOf<C>) {
        (A::alarm_consumed(stages.0), B::alarm_consumed(stages.1), C::alarm_consumed(stages.2))
    }

    fn new_forms() -> (r: (A::Form, B::Form, C::Form)) {
        (A::new_form(), B::new_form(), C::new_form())
    }

    fn new_stages() -> (r: (A::Stage, B::Stage, C::Stage)) {
        (A::new_stage(), B::new_stage(), C::new_stage())
    }

    fn tag_list() -> (r: Vec<u8>) {
        let mut out: Vec<u8> = Vec::new();
        out.push(A::tag_value());
        out.push(B::tag_value());
        out.push(C::tag_value());
        assert(out@ =~= Self::tags());
        out
    }

    fn begin(forms: &(A::Form, B::Form, C::Form), present: bool) -> (r: Result<(), FacetError>) {
        if let Err(e) = A::begin(&forms.0, present) {
            return Err(e);
        }
        if let Err(e) = B::begin(&forms.1, present) {
            return Err(e);
        }
        if let Err(e) = C::begin(&forms.2, present) {
            return Err(e);
        }
        Ok(())
    }

    fn seal(
        forms: &mut (A::Form, B::Form, C::Form),
        stages: &mut (A::Stage, B::Stage, C::Stage),
    ) -> (r: Result<(), FacetError>) {
        if let Err(e) = A::seal(&mut forms.0, &mut stages.0) {
            return Err(e);
        }
        if let Err(e) = B::seal(&mut forms.1, &mut stages.1) {
            return Err(e);
        }
        if let Err(e) = C::seal(&mut forms.2, &mut stages.2) {
            return Err(e);
        }
        Ok(())
    }

    fn drain(stages: (A::Stage, B::Stage, C::Stage)) -> (r: Vec<(u8, Vec<u8>)>) {
        let mut out: Vec<(u8, Vec<u8>)> = Vec::new();
        let ghost m = stages.deep_view();
        push_tagged(&mut out, A::tag_value(), A::drain(stages.0));
        push_tagged(&mut out, B::tag_value(), B::drain(stages.1));
        push_tagged(&mut out, C::tag_value(), C::drain(stages.2));
        assert(out.deep_view() =~= Self::drained(m));
        out
    }

    fn foldable(
        forms: &(A::Form, B::Form, C::Form),
        tag: u8,
        payload: &[u8],
        live: bool,
    ) -> (r: bool) {
        if tag == A::tag_value() {
            return live && A::is_physical() || A::foldable(&forms.0, payload);
        }
        if tag == B::tag_value() {
            return live && B::is_physical() || B::foldable(&forms.1, payload);
        }
        if tag == C::tag_value() {
            return live && C::is_physical() || C::foldable(&forms.2, payload);
        }
        true
    }

    fn always_foldable(tag: u8, payload: &[u8]) -> (r: bool) {
        if tag == A::tag_value() {
            return A::always_foldable(payload);
        }
        if tag == B::tag_value() {
            return B::always_foldable(payload);
        }
        if tag == C::tag_value() {
            return C::always_foldable(payload);
        }
        true
    }

    fn fold(
        forms: &mut (A::Form, B::Form, C::Form),
        tag: u8,
        payload: &[u8],
        live: bool,
    ) -> (r: Result<(), FacetError>) {
        if tag == A::tag_value() {
            if live && A::is_physical() {
                return Ok(());
            }
            return A::fold(&mut forms.0, payload);
        }
        if tag == B::tag_value() {
            if live && B::is_physical() {
                return Ok(());
            }
            return B::fold(&mut forms.1, payload);
        }
        if tag == C::tag_value() {
            if live && C::is_physical() {
                return Ok(());
            }
            return C::fold(&mut forms.2, payload);
        }
        Err(refuse_tag(tag))
    }

    fn snapshot(
        forms: &(A::Form, B::Form, C::Form),
    ) -> (r: Result<Vec<(u8, Vec<u8>)>, FacetError>) {
        let mut out: Vec<(u8, Vec<u8>)> = Vec::new();
        match A::snapshot(&forms.0) {
            Err(e) => {
                return Err(e);
            },
            Ok(part) => {
                assert(part.deep_view() =~= part@);
                out.push((A::tag_value(), part));
            },
        }
        match B::snapshot(&forms.1) {
            Err(e) => {
                return Err(e);
            },
            Ok(part) => {
                assert(part.deep_view() =~= part@);
                out.push((B::tag_value(), part));
            },
        }
        match C::snapshot(&forms.2) {
            Err(e) => {
                return Err(e);
            },
            Ok(part) => {
                assert(part.deep_view() =~= part@);
                out.push((C::tag_value(), part));
            },
        }
        assert(out.deep_view() =~= Self::snapped(forms.deep_view())->Ok_0);
        Ok(out)
    }

    fn restore(parts: &Vec<(u8, Vec<u8>)>) -> (r: Result<(A::Form, B::Form, C::Form), FacetError>) {
        let f0 = match A::restore(find_part(parts, A::tag_value())) {
            Ok(form) => form,
            Err(e) => {
                return Err(e);
            },
        };
        let f1 = match B::restore(find_part(parts, B::tag_value())) {
            Ok(form) => form,
            Err(e) => {
                return Err(e);
            },
        };
        let f2 = match C::restore(find_part(parts, C::tag_value())) {
            Ok(form) => form,
            Err(e) => {
                return Err(e);
            },
        };
        Ok((f0, f1, f2))
    }

    fn discard(forms: &mut (A::Form, B::Form, C::Form)) {
        A::discard(&mut forms.0);
        B::discard(&mut forms.1);
        C::discard(&mut forms.2);
    }

    fn roots(forms: &(A::Form, B::Form, C::Form)) -> (r: OrdSet<BlobId>) {
        let mut roots = A::roots(&forms.0);
        roots.union(&B::roots(&forms.1));
        roots.union(&C::roots(&forms.2));
        roots
    }

    fn alarm_due(forms: &(A::Form, B::Form, C::Form)) -> (r: Option<u64>) {
        if let Some(due) = A::alarm_due(&forms.0) {
            return Some(due);
        }
        if let Some(due) = B::alarm_due(&forms.1) {
            return Some(due);
        }
        if let Some(due) = C::alarm_due(&forms.2) {
            return Some(due);
        }
        None
    }

    fn stage_clear_alarm(stages: &mut (A::Stage, B::Stage, C::Stage)) {
        A::stage_clear_alarm(&mut stages.0);
        B::stage_clear_alarm(&mut stages.1);
        C::stage_clear_alarm(&mut stages.2);
    }
}

impl<A: Facet, B: Facet, C: Facet, D: Facet> FacetSet for (A, B, C, D) {
    type Forms = (A::Form, B::Form, C::Form, D::Form);

    type Stages = (A::Stage, B::Stage, C::Stage, D::Stage);

    open spec fn physical_tag(tag: u8) -> bool {
        if tag == A::tag() {
            A::physical()
        } else if tag == B::tag() {
            B::physical()
        } else if tag == C::tag() {
            C::physical()
        } else if tag == D::tag() {
            D::physical()
        } else {
            false
        }
    }

    proof fn drained_tags(
        stages: (StageOf<A>, StageOf<B>, StageOf<C>, StageOf<D>),
    ) {
        let tags = Self::tags();
        assert(tags[0] == A::tag());
        assert(tags[1] == B::tag());
        assert(tags[2] == C::tag());
        assert(tags[3] == D::tag());
        assert forall|i: int| 0 <= i < Self::drained(stages).len() implies tags.contains(
            (#[trigger] Self::drained(stages)[i]).0,
        ) by {
            let n0 = A::drained(stages.0).len();
            let n1 = B::drained(stages.1).len();
            let n2 = C::drained(stages.2).len();
            let n3 = D::drained(stages.3).len();
            if 0 <= i < n0 {
                assert(Self::drained(stages)[i] == under_tag(A::tag(), A::drained(stages.0))[i]);
            }
            if n0 <= i < n0 + n1 {
                assert(Self::drained(stages)[i] == under_tag(B::tag(), B::drained(stages.1))[i - n0]);
            }
            if n0 + n1 <= i < n0 + n1 + n2 {
                assert(Self::drained(stages)[i] == under_tag(C::tag(), C::drained(stages.2))[i - (n0 + n1)]);
            }
            if n0 + n1 + n2 <= i < n0 + n1 + n2 + n3 {
                assert(Self::drained(stages)[i] == under_tag(D::tag(), D::drained(stages.3))[i - (n0 + n1 + n2)]);
            }
        }
    }

    proof fn live_as_replayed(
        forms: (FormOf<A>, FormOf<B>, FormOf<C>, FormOf<D>),
        tag: u8,
        payload: Seq<u8>,
    ) {
    }

    open spec fn forms_wf(forms: (A::Form, B::Form, C::Form, D::Form)) -> bool {
        A::form_wf(forms.0) && B::form_wf(forms.1) && C::form_wf(forms.2) && D::form_wf(forms.3)
    }

    open spec fn stages_wf(stages: (A::Stage, B::Stage, C::Stage, D::Stage)) -> bool {
        A::stage_wf(stages.0) && B::stage_wf(stages.1) && C::stage_wf(stages.2) && D::stage_wf(stages.3)
    }

    open spec fn empty_forms(
    ) -> (FormOf<A>, FormOf<B>, FormOf<C>, FormOf<D>) {
        (A::empty_form(), B::empty_form(), C::empty_form(), D::empty_form())
    }

    open spec fn empty_stages(
    ) -> (StageOf<A>, StageOf<B>, StageOf<C>, StageOf<D>) {
        (A::empty_stage(), B::empty_stage(), C::empty_stage(), D::empty_stage())
    }

    open spec fn tags() -> Seq<u8> {
        seq![A::tag(), B::tag(), C::tag(), D::tag()]
    }

    open spec fn begin_refusal(
        forms: (FormOf<A>, FormOf<B>, FormOf<C>, FormOf<D>),
        present: bool,
    ) -> Option<Seq<char>> {
        match A::begin_refusal(forms.0, present) {
            Some(text) => Some(text),
            None => match B::begin_refusal(forms.1, present) {
            Some(text) => Some(text),
            None => match C::begin_refusal(forms.2, present) {
            Some(text) => Some(text),
            None => D::begin_refusal(forms.3, present),
        },
        },
        }
    }

    open spec fn seal_forms(
        forms: (FormOf<A>, FormOf<B>, FormOf<C>, FormOf<D>),
        stages: (StageOf<A>, StageOf<B>, StageOf<C>, StageOf<D>),
    ) -> (FormOf<A>, FormOf<B>, FormOf<C>, FormOf<D>) {
        match A::sealed(forms.0, stages.0) {
            Err(_) => (forms.0, forms.1, forms.2, forms.3),
            Ok(s0) => match B::sealed(forms.1, stages.1) {
                Err(_) => (s0.0, forms.1, forms.2, forms.3),
                Ok(s1) => match C::sealed(forms.2, stages.2) {
                    Err(_) => (s0.0, s1.0, forms.2, forms.3),
                    Ok(s2) => match D::sealed(forms.3, stages.3) {
                        Err(_) => (s0.0, s1.0, s2.0, forms.3),
                        Ok(s3) => (s0.0, s1.0, s2.0, s3.0),
                    },
                },
            },
        }
    }

    open spec fn sealed(
        forms: (FormOf<A>, FormOf<B>, FormOf<C>, FormOf<D>),
        stages: (StageOf<A>, StageOf<B>, StageOf<C>, StageOf<D>),
    ) -> Result<((FormOf<A>, FormOf<B>, FormOf<C>, FormOf<D>), (StageOf<A>, StageOf<B>, StageOf<C>, StageOf<D>)), Seq<char>> {
        match A::sealed(forms.0, stages.0) {
            Err(text) => Err(text),
            Ok(s0) => match B::sealed(forms.1, stages.1) {
                    Err(text) => Err(text),
                    Ok(s1) => match C::sealed(forms.2, stages.2) {
                            Err(text) => Err(text),
                            Ok(s2) => match D::sealed(forms.3, stages.3) {
                                    Err(text) => Err(text),
                                    Ok(s3) => Ok(((s0.0, s1.0, s2.0, s3.0), (s0.1, s1.1, s2.1, s3.1))),
                                },
                        },
                },
        }
    }

    open spec fn drained(
        stages: (StageOf<A>, StageOf<B>, StageOf<C>, StageOf<D>),
    ) -> Seq<(u8, Seq<u8>)> {
        under_tag(A::tag(), A::drained(stages.0)) + under_tag(B::tag(), B::drained(stages.1)) + under_tag(C::tag(), C::drained(stages.2)) + under_tag(D::tag(), D::drained(stages.3))
    }

    open spec fn always_ok(tag: u8, payload: Seq<u8>) -> bool {
        if tag == A::tag() {
            A::always_ok(payload)
        } else if tag == B::tag() {
            B::always_ok(payload)
        } else if tag == C::tag() {
            C::always_ok(payload)
        } else if tag == D::tag() {
            D::always_ok(payload)
        } else {
            true
        }
    }

    proof fn always_ok_folds(
        forms: (FormOf<A>, FormOf<B>, FormOf<C>, FormOf<D>),
        tag: u8,
        payload: Seq<u8>,
        live: bool,
    ) {
        A::always_ok_folds(forms.0, payload);
        B::always_ok_folds(forms.1, payload);
        C::always_ok_folds(forms.2, payload);
        D::always_ok_folds(forms.3, payload);
    }

    open spec fn fold_ok(
        forms: (FormOf<A>, FormOf<B>, FormOf<C>, FormOf<D>),
        tag: u8,
        payload: Seq<u8>,
        live: bool,
    ) -> bool {
        if tag == A::tag() {
            live && A::physical() || A::fold_ok(forms.0, payload)
        } else if tag == B::tag() {
            live && B::physical() || B::fold_ok(forms.1, payload)
        } else if tag == C::tag() {
            live && C::physical() || C::fold_ok(forms.2, payload)
        } else if tag == D::tag() {
            live && D::physical() || D::fold_ok(forms.3, payload)
        } else {
            true
        }
    }

    open spec fn folded(
        forms: (FormOf<A>, FormOf<B>, FormOf<C>, FormOf<D>),
        tag: u8,
        payload: Seq<u8>,
        live: bool,
    ) -> Result<
        (FormOf<A>, FormOf<B>, FormOf<C>, FormOf<D>),
        Seq<char>,
    > {
        if tag == A::tag() {
            if live && A::physical() {
                Ok(forms)
            } else {
                match A::folded(forms.0, payload) {
                    Ok(form) => Ok((form, forms.1, forms.2, forms.3)),
                    Err(text) => Err(text),
                }
            }
        } else if tag == B::tag() {
            if live && B::physical() {
                Ok(forms)
            } else {
                match B::folded(forms.1, payload) {
                    Ok(form) => Ok((forms.0, form, forms.2, forms.3)),
                    Err(text) => Err(text),
                }
            }
        } else if tag == C::tag() {
            if live && C::physical() {
                Ok(forms)
            } else {
                match C::folded(forms.2, payload) {
                    Ok(form) => Ok((forms.0, forms.1, form, forms.3)),
                    Err(text) => Err(text),
                }
            }
        } else if tag == D::tag() {
            if live && D::physical() {
                Ok(forms)
            } else {
                match D::folded(forms.3, payload) {
                    Ok(form) => Ok((forms.0, forms.1, forms.2, form)),
                    Err(text) => Err(text),
                }
            }
        } else {
            Err(unknown_tag(tag))
        }
    }

    open spec fn snapped(
        forms: (FormOf<A>, FormOf<B>, FormOf<C>, FormOf<D>),
    ) -> Result<Seq<(u8, Seq<u8>)>, Seq<char>> {
        match A::snapped(forms.0) {
            Err(text) => Err(text),
            Ok(p0) => match B::snapped(forms.1) {
            Err(text) => Err(text),
            Ok(p1) => match C::snapped(forms.2) {
            Err(text) => Err(text),
            Ok(p2) => match D::snapped(forms.3) {
            Err(text) => Err(text),
            Ok(p3) => Ok(seq![(A::tag(), p0), (B::tag(), p1), (C::tag(), p2), (D::tag(), p3)]),
        },
        },
        },
        }
    }

    open spec fn restored(
        parts: Seq<(u8, Seq<u8>)>,
    ) -> Result<(FormOf<A>, FormOf<B>, FormOf<C>, FormOf<D>), Seq<char>> {
        match A::restored(part_for(parts, A::tag())) {
            Err(text) => Err(text),
            Ok(f0) => match B::restored(part_for(parts, B::tag())) {
            Err(text) => Err(text),
            Ok(f1) => match C::restored(part_for(parts, C::tag())) {
            Err(text) => Err(text),
            Ok(f2) => match D::restored(part_for(parts, D::tag())) {
            Err(text) => Err(text),
            Ok(f3) => Ok((f0, f1, f2, f3)),
        },
        },
        },
        }
    }

    open spec fn reborn(
        forms: (FormOf<A>, FormOf<B>, FormOf<C>, FormOf<D>),
    ) -> (FormOf<A>, FormOf<B>, FormOf<C>, FormOf<D>) {
        (A::reborn(forms.0), B::reborn(forms.1), C::reborn(forms.2), D::reborn(forms.3))
    }

    open spec fn materializes() -> bool {
        A::physical() || B::physical() || C::physical() || D::physical()
    }

    open spec fn keeps(
        forms: (FormOf<A>, FormOf<B>, FormOf<C>, FormOf<D>),
    ) -> bool {
        A::keeps(forms.0) && B::keeps(forms.1) && C::keeps(forms.2) && D::keeps(forms.3)
    }

    proof fn snapshot_keeps(
        forms: (FormOf<A>, FormOf<B>, FormOf<C>, FormOf<D>),
    ) {
        A::snapshot_keeps(forms.0);
        B::snapshot_keeps(forms.1);
        C::snapshot_keeps(forms.2);
        D::snapshot_keeps(forms.3);
        let parts = Self::snapped(forms)->Ok_0;
        let tags = Self::tags();
        assert(parts[0].0 == tags[0]);
        assert(parts[1].0 == tags[1]);
        assert(parts[2].0 == tags[2]);
        assert(parts[3].0 == tags[3]);
        lemma_part_for(parts, 0);
        lemma_part_for(parts, 1);
        lemma_part_for(parts, 2);
        lemma_part_for(parts, 3);
    }

    open spec fn discarded(
        forms: (FormOf<A>, FormOf<B>, FormOf<C>, FormOf<D>),
    ) -> (FormOf<A>, FormOf<B>, FormOf<C>, FormOf<D>) {
        (A::discarded(forms.0), B::discarded(forms.1), C::discarded(forms.2), D::discarded(forms.3))
    }

    open spec fn rooted(
        forms: (FormOf<A>, FormOf<B>, FormOf<C>, FormOf<D>),
    ) -> Set<Seq<u8>> {
        A::rooted(forms.0).union(B::rooted(forms.1)).union(C::rooted(forms.2)).union(D::rooted(forms.3))
    }

    open spec fn due(
        forms: (FormOf<A>, FormOf<B>, FormOf<C>, FormOf<D>),
    ) -> Option<u64> {
        match A::due(forms.0) {
            Some(due) => Some(due),
            None => match B::due(forms.1) {
            Some(due) => Some(due),
            None => match C::due(forms.2) {
            Some(due) => Some(due),
            None => D::due(forms.3),
        },
        },
        }
    }

    open spec fn alarm_consumed(
        stages: (StageOf<A>, StageOf<B>, StageOf<C>, StageOf<D>),
    ) -> (StageOf<A>, StageOf<B>, StageOf<C>, StageOf<D>) {
        (A::alarm_consumed(stages.0), B::alarm_consumed(stages.1), C::alarm_consumed(stages.2), D::alarm_consumed(stages.3))
    }

    fn new_forms() -> (r: (A::Form, B::Form, C::Form, D::Form)) {
        (A::new_form(), B::new_form(), C::new_form(), D::new_form())
    }

    fn new_stages() -> (r: (A::Stage, B::Stage, C::Stage, D::Stage)) {
        (A::new_stage(), B::new_stage(), C::new_stage(), D::new_stage())
    }

    fn tag_list() -> (r: Vec<u8>) {
        let mut out: Vec<u8> = Vec::new();
        out.push(A::tag_value());
        out.push(B::tag_value());
        out.push(C::tag_value());
        out.push(D::tag_value());
        assert(out@ =~= Self::tags());
        out
    }

    fn begin(
        forms: &(A::Form, B::Form, C::Form, D::Form),
        present: bool,
    ) -> (r: Result<(), FacetError>) {
        if let Err(e) = A::begin(&forms.0, present) {
            return Err(e);
        }
        if let Err(e) = B::begin(&forms.1, present) {
            return Err(e);
        }
        if let Err(e) = C::begin(&forms.2, present) {
            return Err(e);
        }
        if let Err(e) = D::begin(&forms.3, present) {
            return Err(e);
        }
        Ok(())
    }

    fn seal(
        forms: &mut (A::Form, B::Form, C::Form, D::Form),
        stages: &mut (A::Stage, B::Stage, C::Stage, D::Stage),
    ) -> (r: Result<(), FacetError>) {
        if let Err(e) = A::seal(&mut forms.0, &mut stages.0) {
            return Err(e);
        }
        if let Err(e) = B::seal(&mut forms.1, &mut stages.1) {
            return Err(e);
        }
        if let Err(e) = C::seal(&mut forms.2, &mut stages.2) {
            return Err(e);
        }
        if let Err(e) = D::seal(&mut forms.3, &mut stages.3) {
            return Err(e);
        }
        Ok(())
    }

    fn drain(stages: (A::Stage, B::Stage, C::Stage, D::Stage)) -> (r: Vec<(u8, Vec<u8>)>) {
        let mut out: Vec<(u8, Vec<u8>)> = Vec::new();
        let ghost m = stages.deep_view();
        push_tagged(&mut out, A::tag_value(), A::drain(stages.0));
        push_tagged(&mut out, B::tag_value(), B::drain(stages.1));
        push_tagged(&mut out, C::tag_value(), C::drain(stages.2));
        push_tagged(&mut out, D::tag_value(), D::drain(stages.3));
        assert(out.deep_view() =~= Self::drained(m));
        out
    }

    fn foldable(
        forms: &(A::Form, B::Form, C::Form, D::Form),
        tag: u8,
        payload: &[u8],
        live: bool,
    ) -> (r: bool) {
        if tag == A::tag_value() {
            return live && A::is_physical() || A::foldable(&forms.0, payload);
        }
        if tag == B::tag_value() {
            return live && B::is_physical() || B::foldable(&forms.1, payload);
        }
        if tag == C::tag_value() {
            return live && C::is_physical() || C::foldable(&forms.2, payload);
        }
        if tag == D::tag_value() {
            return live && D::is_physical() || D::foldable(&forms.3, payload);
        }
        true
    }

    fn always_foldable(tag: u8, payload: &[u8]) -> (r: bool) {
        if tag == A::tag_value() {
            return A::always_foldable(payload);
        }
        if tag == B::tag_value() {
            return B::always_foldable(payload);
        }
        if tag == C::tag_value() {
            return C::always_foldable(payload);
        }
        if tag == D::tag_value() {
            return D::always_foldable(payload);
        }
        true
    }

    fn fold(
        forms: &mut (A::Form, B::Form, C::Form, D::Form),
        tag: u8,
        payload: &[u8],
        live: bool,
    ) -> (r: Result<(), FacetError>) {
        if tag == A::tag_value() {
            if live && A::is_physical() {
                return Ok(());
            }
            return A::fold(&mut forms.0, payload);
        }
        if tag == B::tag_value() {
            if live && B::is_physical() {
                return Ok(());
            }
            return B::fold(&mut forms.1, payload);
        }
        if tag == C::tag_value() {
            if live && C::is_physical() {
                return Ok(());
            }
            return C::fold(&mut forms.2, payload);
        }
        if tag == D::tag_value() {
            if live && D::is_physical() {
                return Ok(());
            }
            return D::fold(&mut forms.3, payload);
        }
        Err(refuse_tag(tag))
    }

    fn snapshot(
        forms: &(A::Form, B::Form, C::Form, D::Form),
    ) -> (r: Result<Vec<(u8, Vec<u8>)>, FacetError>) {
        let mut out: Vec<(u8, Vec<u8>)> = Vec::new();
        match A::snapshot(&forms.0) {
            Err(e) => {
                return Err(e);
            },
            Ok(part) => {
                assert(part.deep_view() =~= part@);
                out.push((A::tag_value(), part));
            },
        }
        match B::snapshot(&forms.1) {
            Err(e) => {
                return Err(e);
            },
            Ok(part) => {
                assert(part.deep_view() =~= part@);
                out.push((B::tag_value(), part));
            },
        }
        match C::snapshot(&forms.2) {
            Err(e) => {
                return Err(e);
            },
            Ok(part) => {
                assert(part.deep_view() =~= part@);
                out.push((C::tag_value(), part));
            },
        }
        match D::snapshot(&forms.3) {
            Err(e) => {
                return Err(e);
            },
            Ok(part) => {
                assert(part.deep_view() =~= part@);
                out.push((D::tag_value(), part));
            },
        }
        assert(out.deep_view() =~= Self::snapped(forms.deep_view())->Ok_0);
        Ok(out)
    }

    fn restore(
        parts: &Vec<(u8, Vec<u8>)>,
    ) -> (r: Result<(A::Form, B::Form, C::Form, D::Form), FacetError>) {
        let f0 = match A::restore(find_part(parts, A::tag_value())) {
            Ok(form) => form,
            Err(e) => {
                return Err(e);
            },
        };
        let f1 = match B::restore(find_part(parts, B::tag_value())) {
            Ok(form) => form,
            Err(e) => {
                return Err(e);
            },
        };
        let f2 = match C::restore(find_part(parts, C::tag_value())) {
            Ok(form) => form,
            Err(e) => {
                return Err(e);
            },
        };
        let f3 = match D::restore(find_part(parts, D::tag_value())) {
            Ok(form) => form,
            Err(e) => {
                return Err(e);
            },
        };
        Ok((f0, f1, f2, f3))
    }

    fn discard(forms: &mut (A::Form, B::Form, C::Form, D::Form)) {
        A::discard(&mut forms.0);
        B::discard(&mut forms.1);
        C::discard(&mut forms.2);
        D::discard(&mut forms.3);
    }

    fn roots(forms: &(A::Form, B::Form, C::Form, D::Form)) -> (r: OrdSet<BlobId>) {
        let mut roots = A::roots(&forms.0);
        roots.union(&B::roots(&forms.1));
        roots.union(&C::roots(&forms.2));
        roots.union(&D::roots(&forms.3));
        roots
    }

    fn alarm_due(forms: &(A::Form, B::Form, C::Form, D::Form)) -> (r: Option<u64>) {
        if let Some(due) = A::alarm_due(&forms.0) {
            return Some(due);
        }
        if let Some(due) = B::alarm_due(&forms.1) {
            return Some(due);
        }
        if let Some(due) = C::alarm_due(&forms.2) {
            return Some(due);
        }
        if let Some(due) = D::alarm_due(&forms.3) {
            return Some(due);
        }
        None
    }

    fn stage_clear_alarm(stages: &mut (A::Stage, B::Stage, C::Stage, D::Stage)) {
        A::stage_clear_alarm(&mut stages.0);
        B::stage_clear_alarm(&mut stages.1);
        C::stage_clear_alarm(&mut stages.2);
        D::stage_clear_alarm(&mut stages.3);
    }
}

// ---- Reaching one facet of a set ----

/// The index of the first position of a tuple (see [`HasFacet`]).
pub struct Here(());

/// The index one position behind `I` (see [`HasFacet`]).
pub struct There<I>(core::marker::PhantomData<I>);

/// The set holds the facet `F` at the position `I`. The index exists only so that
/// the impls for the positions do not overlap.
pub trait HasFacet<F: Facet, I>: FacetSet {
    /// `F`'s form among the forms.
    spec fn form_in(forms: Self::Forms) -> F::Form;

    /// `F`'s stage among the stages.
    spec fn stage_in(stages: Self::Stages) -> F::Stage;

    /// The stages with `F`'s replaced.
    spec fn with_stage(stages: Self::Stages, stage: F::Stage) -> Self::Stages;

    fn form(forms: &Self::Forms) -> (r: &F::Form)
        ensures
            *r == Self::form_in(*forms),
            Self::forms_wf(*forms) ==> F::form_wf(*r),
    ;

    fn stage_mut(stages: &mut Self::Stages) -> (r: &mut F::Stage)
        ensures
            *r == Self::stage_in(*old(stages)),
            *final(stages) == Self::with_stage(*old(stages), *final(r)),
            Self::stages_wf(*old(stages)) ==> F::stage_wf(*r),
            Self::stages_wf(*old(stages)) && F::stage_wf(*final(r)) ==> Self::stages_wf(
                *final(stages),
            ),
    ;
}

impl<A: Facet> HasFacet<A, Here> for (A,) {
    open spec fn form_in(forms: (A::Form,)) -> A::Form {
        forms.0
    }

    open spec fn stage_in(stages: (A::Stage,)) -> A::Stage {
        stages.0
    }

    open spec fn with_stage(stages: (A::Stage,), stage: A::Stage) -> (A::Stage,) {
        (stage,)
    }

    fn form(forms: &(A::Form,)) -> (r: &A::Form) {
        &forms.0
    }

    fn stage_mut(stages: &mut (A::Stage,)) -> (r: &mut A::Stage) {
        &mut stages.0
    }
}

impl<A: Facet, B: Facet> HasFacet<A, Here> for (A, B) {
    open spec fn form_in(forms: (A::Form, B::Form)) -> A::Form {
        forms.0
    }

    open spec fn stage_in(stages: (A::Stage, B::Stage)) -> A::Stage {
        stages.0
    }

    open spec fn with_stage(stages: (A::Stage, B::Stage), stage: A::Stage) -> (A::Stage, B::Stage) {
        (stage, stages.1)
    }

    fn form(forms: &(A::Form, B::Form)) -> (r: &A::Form) {
        &forms.0
    }

    fn stage_mut(stages: &mut (A::Stage, B::Stage)) -> (r: &mut A::Stage) {
        &mut stages.0
    }
}

impl<A: Facet, B: Facet> HasFacet<B, There<Here>> for (A, B) {
    open spec fn form_in(forms: (A::Form, B::Form)) -> B::Form {
        forms.1
    }

    open spec fn stage_in(stages: (A::Stage, B::Stage)) -> B::Stage {
        stages.1
    }

    open spec fn with_stage(stages: (A::Stage, B::Stage), stage: B::Stage) -> (A::Stage, B::Stage) {
        (stages.0, stage)
    }

    fn form(forms: &(A::Form, B::Form)) -> (r: &B::Form) {
        &forms.1
    }

    fn stage_mut(stages: &mut (A::Stage, B::Stage)) -> (r: &mut B::Stage) {
        &mut stages.1
    }
}

impl<A: Facet, B: Facet, C: Facet> HasFacet<A, Here> for (A, B, C) {
    open spec fn form_in(forms: (A::Form, B::Form, C::Form)) -> A::Form {
        forms.0
    }

    open spec fn stage_in(stages: (A::Stage, B::Stage, C::Stage)) -> A::Stage {
        stages.0
    }

    open spec fn with_stage(
        stages: (A::Stage, B::Stage, C::Stage),
        stage: A::Stage,
    ) -> (A::Stage, B::Stage, C::Stage) {
        (stage, stages.1, stages.2)
    }

    fn form(forms: &(A::Form, B::Form, C::Form)) -> (r: &A::Form) {
        &forms.0
    }

    fn stage_mut(stages: &mut (A::Stage, B::Stage, C::Stage)) -> (r: &mut A::Stage) {
        &mut stages.0
    }
}

impl<A: Facet, B: Facet, C: Facet> HasFacet<B, There<Here>> for (A, B, C) {
    open spec fn form_in(forms: (A::Form, B::Form, C::Form)) -> B::Form {
        forms.1
    }

    open spec fn stage_in(stages: (A::Stage, B::Stage, C::Stage)) -> B::Stage {
        stages.1
    }

    open spec fn with_stage(
        stages: (A::Stage, B::Stage, C::Stage),
        stage: B::Stage,
    ) -> (A::Stage, B::Stage, C::Stage) {
        (stages.0, stage, stages.2)
    }

    fn form(forms: &(A::Form, B::Form, C::Form)) -> (r: &B::Form) {
        &forms.1
    }

    fn stage_mut(stages: &mut (A::Stage, B::Stage, C::Stage)) -> (r: &mut B::Stage) {
        &mut stages.1
    }
}

impl<A: Facet, B: Facet, C: Facet> HasFacet<C, There<There<Here>>> for (A, B, C) {
    open spec fn form_in(forms: (A::Form, B::Form, C::Form)) -> C::Form {
        forms.2
    }

    open spec fn stage_in(stages: (A::Stage, B::Stage, C::Stage)) -> C::Stage {
        stages.2
    }

    open spec fn with_stage(
        stages: (A::Stage, B::Stage, C::Stage),
        stage: C::Stage,
    ) -> (A::Stage, B::Stage, C::Stage) {
        (stages.0, stages.1, stage)
    }

    fn form(forms: &(A::Form, B::Form, C::Form)) -> (r: &C::Form) {
        &forms.2
    }

    fn stage_mut(stages: &mut (A::Stage, B::Stage, C::Stage)) -> (r: &mut C::Stage) {
        &mut stages.2
    }
}

impl<A: Facet, B: Facet, C: Facet, D: Facet> HasFacet<A, Here> for (A, B, C, D) {
    open spec fn form_in(forms: (A::Form, B::Form, C::Form, D::Form)) -> A::Form {
        forms.0
    }

    open spec fn stage_in(stages: (A::Stage, B::Stage, C::Stage, D::Stage)) -> A::Stage {
        stages.0
    }

    open spec fn with_stage(
        stages: (A::Stage, B::Stage, C::Stage, D::Stage),
        stage: A::Stage,
    ) -> (A::Stage, B::Stage, C::Stage, D::Stage) {
        (stage, stages.1, stages.2, stages.3)
    }

    fn form(forms: &(A::Form, B::Form, C::Form, D::Form)) -> (r: &A::Form) {
        &forms.0
    }

    fn stage_mut(stages: &mut (A::Stage, B::Stage, C::Stage, D::Stage)) -> (r: &mut A::Stage) {
        &mut stages.0
    }
}

impl<A: Facet, B: Facet, C: Facet, D: Facet> HasFacet<B, There<Here>> for (A, B, C, D) {
    open spec fn form_in(forms: (A::Form, B::Form, C::Form, D::Form)) -> B::Form {
        forms.1
    }

    open spec fn stage_in(stages: (A::Stage, B::Stage, C::Stage, D::Stage)) -> B::Stage {
        stages.1
    }

    open spec fn with_stage(
        stages: (A::Stage, B::Stage, C::Stage, D::Stage),
        stage: B::Stage,
    ) -> (A::Stage, B::Stage, C::Stage, D::Stage) {
        (stages.0, stage, stages.2, stages.3)
    }

    fn form(forms: &(A::Form, B::Form, C::Form, D::Form)) -> (r: &B::Form) {
        &forms.1
    }

    fn stage_mut(stages: &mut (A::Stage, B::Stage, C::Stage, D::Stage)) -> (r: &mut B::Stage) {
        &mut stages.1
    }
}

impl<A: Facet, B: Facet, C: Facet, D: Facet> HasFacet<C, There<There<Here>>> for (A, B, C, D) {
    open spec fn form_in(forms: (A::Form, B::Form, C::Form, D::Form)) -> C::Form {
        forms.2
    }

    open spec fn stage_in(stages: (A::Stage, B::Stage, C::Stage, D::Stage)) -> C::Stage {
        stages.2
    }

    open spec fn with_stage(
        stages: (A::Stage, B::Stage, C::Stage, D::Stage),
        stage: C::Stage,
    ) -> (A::Stage, B::Stage, C::Stage, D::Stage) {
        (stages.0, stages.1, stage, stages.3)
    }

    fn form(forms: &(A::Form, B::Form, C::Form, D::Form)) -> (r: &C::Form) {
        &forms.2
    }

    fn stage_mut(stages: &mut (A::Stage, B::Stage, C::Stage, D::Stage)) -> (r: &mut C::Stage) {
        &mut stages.2
    }
}

impl<A: Facet, B: Facet, C: Facet, D: Facet> HasFacet<D, There<There<There<Here>>>> for (A, B, C, D) {
    open spec fn form_in(forms: (A::Form, B::Form, C::Form, D::Form)) -> D::Form {
        forms.3
    }

    open spec fn stage_in(stages: (A::Stage, B::Stage, C::Stage, D::Stage)) -> D::Stage {
        stages.3
    }

    open spec fn with_stage(
        stages: (A::Stage, B::Stage, C::Stage, D::Stage),
        stage: D::Stage,
    ) -> (A::Stage, B::Stage, C::Stage, D::Stage) {
        (stages.0, stages.1, stages.2, stage)
    }

    fn form(forms: &(A::Form, B::Form, C::Form, D::Form)) -> (r: &D::Form) {
        &forms.3
    }

    fn stage_mut(stages: &mut (A::Stage, B::Stage, C::Stage, D::Stage)) -> (r: &mut D::Stage) {
        &mut stages.3
    }
}

// ---- The cell ----

/// The tags of a set dispatch its records: none is the event fold's, none lies
/// outside the range of this crate's facets, and no two are the same.
pub open spec fn tags_dispatch(tags: Seq<u8>) -> bool {
    &&& forall|i: int| 0 <= i < tags.len() ==> EVENT_TAG < #[trigger] tags[i] <= MAX_BUILTIN_TAG
    &&& tags.no_duplicates()
}

/// Whether a set's tags dispatch its records.
pub fn valid_tags(tags: &Vec<u8>) -> (r: bool)
    ensures
        r == tags_dispatch(tags@),
{
    let mut i: usize = 0;
    while i < tags.len()
        invariant
            i <= tags@.len(),
            forall|k: int| 0 <= k < i ==> EVENT_TAG < #[trigger] tags@[k] <= MAX_BUILTIN_TAG,
            forall|k: int, l: int| 0 <= k < l < i ==> tags@[k] != tags@[l],
        decreases tags@.len() - i,
    {
        if tags[i] == EVENT_TAG || tags[i] > MAX_BUILTIN_TAG {
            return false;
        }
        let mut j: usize = 0;
        while j < i
            invariant
                j <= i < tags@.len(),
                forall|k: int| 0 <= k < j ==> tags@[k] != tags@[i as int],
            decreases i - j,
        {
            if tags[j] == tags[i] {
                assert(!tags@.no_duplicates()) by {
                    assert(tags@[j as int] == tags@[i as int]);
                }
                return false;
            }
            j = j + 1;
        }
        i = i + 1;
    }
    true
}

/// A grain's facets while it is active: the committed forms, the stages of the
/// command being decided, and the chunks that facet 0's snapshot travels in.
///
/// The stages are there only while a command is being decided: a write outside a
/// command has nowhere to go.
pub struct FacetCell<FS: FacetSet> {
    pub forms: FS::Forms,
    pub stages: Option<FS::Stages>,
    pub state_roots: RootSet,
}

impl<FS: FacetSet> FacetCell<FS> {
    pub open spec fn wf(&self) -> bool {
        &&& tags_dispatch(FS::tags())
        &&& FS::forms_wf(self.forms)
        &&& self.stages is Some ==> FS::stages_wf(self.stages->0)
        &&& self.state_roots.wf()
    }

    /// A fresh cell: empty forms, no command, nothing rooted.
    pub fn new() -> (r: FacetCell<FS>)
        requires
            tags_dispatch(FS::tags()),
        ensures
            r.wf(),
            r.forms.deep_view() == FS::empty_forms(),
            r.stages is None,
            r.state_roots@ == Set::<Seq<u8>>::empty(),
    {
        FacetCell { forms: FS::new_forms(), stages: None, state_roots: RootSet::default() }
    }

    /// Arm empty stages for a command. A refusal leaves the cell as it was.
    pub fn begin(&mut self, present: bool) -> (r: Result<(), FacetError>)
        requires
            old(self).wf(),
        ensures
            final(self).wf(),
            final(self).forms == old(self).forms,
            final(self).state_roots == old(self).state_roots,
            match r {
                Ok(_) => FS::begin_refusal(old(self).forms.deep_view(), present) is None
                    && final(self).stages is Some && final(self).stages->0.deep_view()
                    == FS::empty_stages(),
                Err(e) => FS::begin_refusal(old(self).forms.deep_view(), present) == Some(e.0@)
                    && final(self).stages == old(self).stages,
            },
    {
        match FS::begin(&self.forms, present) {
            Err(e) => Err(e),
            Ok(_) => {
                self.stages = Some(FS::new_stages());
                Ok(())
            },
        }
    }

    /// Close the command: its records, in set order, or why a facet could not close
    /// its work. The stages are disarmed either way, so a later write cannot leak into
    /// another command's batch.
    pub fn seal_and_drain(&mut self) -> (r: Result<Vec<(u8, Vec<u8>)>, FacetError>)
        requires
            old(self).wf(),
        ensures
            final(self).wf(),
            final(self).state_roots == old(self).state_roots,
            final(self).stages is None,
            match old(self).stages {
                None => r is Ok && r->Ok_0.deep_view() == Seq::<(u8, Seq<u8>)>::empty()
                    && final(self).forms == old(self).forms,
                Some(stages) => match FS::sealed(
                    old(self).forms.deep_view(),
                    stages.deep_view(),
                ) {
                    Ok((forms, closed)) => r is Ok && r->Ok_0.deep_view() == FS::drained(closed)
                        && final(self).forms.deep_view() == forms,
                    Err(text) => r matches Err(e) && e.0@ == text && final(self).forms.deep_view()
                        == FS::seal_forms(old(self).forms.deep_view(), stages.deep_view()),
                },
            },
    {
        match self.stages.take() {
            None => {
                let none: Vec<(u8, Vec<u8>)> = Vec::new();
                assert(none.deep_view() =~= seq![]);
                Ok(none)
            },
            Some(mut stages) => match FS::seal(&mut self.forms, &mut stages) {
                Ok(_) => Ok(FS::drain(stages)),
                Err(e) => Err(e),
            },
        }
    }

    /// Disarm the stages without draining them: the command failed before its
    /// append.
    pub fn abandon(&mut self)
        requires
            old(self).wf(),
        ensures
            final(self).wf(),
            final(self).forms == old(self).forms,
            final(self).state_roots == old(self).state_roots,
            final(self).stages is None,
    {
        self.stages = None;
    }

    /// Fold a record that has just committed.
    pub fn fold_live(&mut self, tag: u8, payload: &[u8]) -> (r: Result<(), FacetError>)
        requires
            old(self).wf(),
            FS::fold_ok(old(self).forms.deep_view(), tag, payload@, true),
        ensures
            final(self).wf(),
            final(self).stages == old(self).stages,
            final(self).state_roots == old(self).state_roots,
            match r {
                Ok(_) => FS::folded(old(self).forms.deep_view(), tag, payload@, true) == Ok::<
                    <FS::Forms as DeepView>::V,
                    Seq<char>,
                >(final(self).forms.deep_view()),
                Err(e) => FS::folded(old(self).forms.deep_view(), tag, payload@, true) == Err::<
                    <FS::Forms as DeepView>::V,
                    Seq<char>,
                >(e.0@) && final(self).forms.deep_view() == old(self).forms.deep_view(),
            },
    {
        FS::fold(&mut self.forms, tag, payload, true)
    }

    /// Fold a record read back from the journal.
    pub fn fold_replay(&mut self, tag: u8, payload: &[u8]) -> (r: Result<(), FacetError>)
        requires
            old(self).wf(),
            FS::fold_ok(old(self).forms.deep_view(), tag, payload@, false),
        ensures
            final(self).wf(),
            final(self).stages == old(self).stages,
            final(self).state_roots == old(self).state_roots,
            match r {
                Ok(_) => FS::folded(old(self).forms.deep_view(), tag, payload@, false) == Ok::<
                    <FS::Forms as DeepView>::V,
                    Seq<char>,
                >(final(self).forms.deep_view()),
                Err(e) => FS::folded(old(self).forms.deep_view(), tag, payload@, false) == Err::<
                    <FS::Forms as DeepView>::V,
                    Seq<char>,
                >(e.0@) && final(self).forms.deep_view() == old(self).forms.deep_view(),
            },
    {
        FS::fold(&mut self.forms, tag, payload, false)
    }

    /// Replace the forms with restored ones.
    pub fn install(&mut self, forms: FS::Forms)
        requires
            old(self).wf(),
            FS::forms_wf(forms),
        ensures
            final(self).wf(),
            final(self).forms == forms,
            final(self).stages == old(self).stages,
            final(self).state_roots == old(self).state_roots,
    {
        self.forms = forms;
    }

    /// Forget every materialization.
    pub fn discard(&mut self)
        requires
            old(self).wf(),
        ensures
            final(self).wf(),
            final(self).forms.deep_view() == FS::discarded(old(self).forms.deep_view()),
            final(self).stages == old(self).stages,
            final(self).state_roots == old(self).state_roots,
    {
        FS::discard(&mut self.forms);
    }

    /// Every blob a sweep must keep: those of the facets, and facet 0's.
    pub fn roots(&self) -> (r: OrdSet<BlobId>)
        requires
            self.wf(),
        ensures
            r.wf(),
            r@ == FS::rooted(self.forms.deep_view()).union(self.state_roots@),
    {
        let mut roots = FS::roots(&self.forms);
        roots.union(&self.state_roots.ids());
        roots
    }

    /// Facet 0's blobs alone: the chunks that need not be stored again.
    pub fn state_roots(&self) -> (r: OrdSet<BlobId>)
        requires
            self.wf(),
        ensures
            r.wf(),
            r@ == self.state_roots@,
    {
        self.state_roots.ids()
    }

    /// Keep a snapshot's chunks alive from now on.
    pub fn keep_state_chunks(&mut self, ids: &Vec<BlobId>)
        requires
            old(self).wf(),
        ensures
            final(self).wf(),
            final(self).forms == old(self).forms,
            final(self).stages == old(self).stages,
            final(self).state_roots@ == old(self).state_roots@.union(id_views(ids@).to_set()),
    {
        self.state_roots.extend(ids);
    }

    /// Adopt a restored snapshot's chunks in place of an earlier activation's.
    pub fn adopt_state_chunks(&mut self, ids: &Vec<BlobId>)
        requires
            old(self).wf(),
        ensures
            final(self).wf(),
            final(self).forms == old(self).forms,
            final(self).stages == old(self).stages,
            final(self).state_roots@ == id_views(ids@).to_set(),
    {
        self.state_roots.reset(ids);
    }

    /// The grain's pending alarm deadline.
    pub fn alarm_due(&self) -> (r: Option<u64>)
        requires
            self.wf(),
        ensures
            r == FS::due(self.forms.deep_view()),
    {
        FS::alarm_due(&self.forms)
    }

    /// Consume a fired alarm in the armed command, so that it clears with the
    /// command unless the handler arms it again.
    pub fn clear_alarm_stage(&mut self)
        requires
            old(self).wf(),
            old(self).stages is Some,
        ensures
            final(self).wf(),
            final(self).forms == old(self).forms,
            final(self).state_roots == old(self).state_roots,
            final(self).stages is Some,
            final(self).stages->0.deep_view() == FS::alarm_consumed(
                old(self).stages->0.deep_view(),
            ),
    {
        match self.stages.take() {
            Some(mut stages) => {
                FS::stage_clear_alarm(&mut stages);
                self.stages = Some(stages);
            },
            None => {},
        }
    }

    /// One facet's committed form.
    pub fn form<F: Facet, I>(&self) -> (r: &F::Form)
        where
            FS: HasFacet<F, I>,

        requires
            self.wf(),
        ensures
            *r == FS::form_in(self.forms),
            F::form_wf(*r),
    {
        <FS as HasFacet<F, I>>::form(&self.forms)
    }
}

// ---- What a set does with its facets ----

/// A set of one: every record of every facet is drained, under its facet's tag and in
/// the facets' order; every facet's blobs are kept, every form is discarded, every stage
/// has its alarm consumed, and the first deadline counts.
pub proof fn law_a_set_of_one_leaves_no_facet_out<A: Facet>(
    forms: (FormOf<A>,),
    stages: (StageOf<A>,),
    present: bool,
)
    ensures
        <(A,) as FacetSet>::tags().len() == 1,
        <(A,) as FacetSet>::tags()[0] == A::tag(),
        <(A,) as FacetSet>::drained(stages).len() == A::drained(stages.0).len(),
        forall|i: int|
            0 <= i < A::drained(stages.0).len() ==> <(A,) as FacetSet>::drained(stages)[0 + i] == (
                A::tag(),
                #[trigger] A::drained(stages.0)[i],
            ),
        forall|id: Seq<u8>| #[trigger] <(A,) as FacetSet>::rooted(forms).contains(id) <==> A::rooted(forms.0).contains(id),
        <(A,) as FacetSet>::begin_refusal(forms, present) is Some <==> A::begin_refusal(forms.0, present) is Some,
        <(A,) as FacetSet>::discarded(forms).0 == A::discarded(forms.0),
        <(A,) as FacetSet>::empty_forms().0 == A::empty_form(),
        <(A,) as FacetSet>::empty_stages().0 == A::empty_stage(),
        <(A,) as FacetSet>::alarm_consumed(stages).0 == A::alarm_consumed(stages.0),
        A::due(forms.0) is Some ==> <(A,) as FacetSet>::due(forms) == A::due(forms.0),
        A::due(forms.0) is None ==> <(A,) as FacetSet>::due(forms) is None,
{
}

/// A set of one: a record goes to the facet whose tag it carries and to no other; live, not
/// to one that materializes; and one whose tag no facet claims is refused.
pub proof fn law_a_set_of_one_dispatches_by_tag<A: Facet>(
    forms: (FormOf<A>,),
    tag: u8,
    payload: Seq<u8>,
    live: bool,
)
    requires
        <(A,) as FacetSet>::tags().no_duplicates(),
    ensures
        tag == A::tag() && !(live && A::physical()) ==> match A::folded(forms.0, payload) {
            Ok(form) => <(A,) as FacetSet>::folded(forms, tag, payload, live) matches Ok(after) && {
                &&& after.0 == form

            },
            Err(text) => <(A,) as FacetSet>::folded(forms, tag, payload, live) == Err::<(FormOf<A>,), Seq<char>>(text),
        },
        tag == A::tag() && live && A::physical() ==> <(A,) as FacetSet>::folded(forms, tag, payload, live)
            == Ok::<(FormOf<A>,), Seq<char>>(forms),
        tag != A::tag() ==> <(A,) as FacetSet>::folded(forms, tag, payload, live) is Err,
{
    let tags = <(A,) as FacetSet>::tags();
    assert(tags[0] == A::tag());
}

/// A set of two: every record of every facet is drained, under its facet's tag and in
/// the facets' order; every facet's blobs are kept, every form is discarded, every stage
/// has its alarm consumed, and the first deadline counts.
pub proof fn law_a_set_of_two_leaves_no_facet_out<A: Facet, B: Facet>(
    forms: (FormOf<A>, FormOf<B>),
    stages: (StageOf<A>, StageOf<B>),
    present: bool,
)
    ensures
        <(A, B) as FacetSet>::tags().len() == 2,
        <(A, B) as FacetSet>::tags()[0] == A::tag(),
        <(A, B) as FacetSet>::tags()[1] == B::tag(),
        <(A, B) as FacetSet>::drained(stages).len() == A::drained(stages.0).len() + B::drained(stages.1).len(),
        forall|i: int|
            0 <= i < A::drained(stages.0).len() ==> <(A, B) as FacetSet>::drained(stages)[0 + i] == (
                A::tag(),
                #[trigger] A::drained(stages.0)[i],
            ),
        forall|i: int|
            0 <= i < B::drained(stages.1).len() ==> <(A, B) as FacetSet>::drained(stages)[A::drained(stages.0).len() + i] == (
                B::tag(),
                #[trigger] B::drained(stages.1)[i],
            ),
        forall|id: Seq<u8>| #[trigger] <(A, B) as FacetSet>::rooted(forms).contains(id) <==> A::rooted(forms.0).contains(id) || B::rooted(forms.1).contains(id),
        <(A, B) as FacetSet>::begin_refusal(forms, present) is Some <==> A::begin_refusal(forms.0, present) is Some || B::begin_refusal(forms.1, present) is Some,
        <(A, B) as FacetSet>::discarded(forms).0 == A::discarded(forms.0),
        <(A, B) as FacetSet>::discarded(forms).1 == B::discarded(forms.1),
        <(A, B) as FacetSet>::empty_forms().0 == A::empty_form(),
        <(A, B) as FacetSet>::empty_stages().0 == A::empty_stage(),
        <(A, B) as FacetSet>::empty_forms().1 == B::empty_form(),
        <(A, B) as FacetSet>::empty_stages().1 == B::empty_stage(),
        <(A, B) as FacetSet>::alarm_consumed(stages).0 == A::alarm_consumed(stages.0),
        <(A, B) as FacetSet>::alarm_consumed(stages).1 == B::alarm_consumed(stages.1),
        A::due(forms.0) is Some ==> <(A, B) as FacetSet>::due(forms) == A::due(forms.0),
        A::due(forms.0) is None && B::due(forms.1) is Some ==> <(A, B) as FacetSet>::due(forms) == B::due(forms.1),
        A::due(forms.0) is None && B::due(forms.1) is None ==> <(A, B) as FacetSet>::due(forms) is None,
{
}

/// A set of two: a record goes to the facet whose tag it carries and to no other; live, not
/// to one that materializes; and one whose tag no facet claims is refused.
pub proof fn law_a_set_of_two_dispatches_by_tag<A: Facet, B: Facet>(
    forms: (FormOf<A>, FormOf<B>),
    tag: u8,
    payload: Seq<u8>,
    live: bool,
)
    requires
        <(A, B) as FacetSet>::tags().no_duplicates(),
    ensures
        tag == A::tag() && !(live && A::physical()) ==> match A::folded(forms.0, payload) {
            Ok(form) => <(A, B) as FacetSet>::folded(forms, tag, payload, live) matches Ok(after) && {
                &&& after.0 == form
            &&& after.1 == forms.1
            },
            Err(text) => <(A, B) as FacetSet>::folded(forms, tag, payload, live) == Err::<(FormOf<A>, FormOf<B>), Seq<char>>(text),
        },
        tag == A::tag() && live && A::physical() ==> <(A, B) as FacetSet>::folded(forms, tag, payload, live)
            == Ok::<(FormOf<A>, FormOf<B>), Seq<char>>(forms),
        tag == B::tag() && !(live && B::physical()) ==> match B::folded(forms.1, payload) {
            Ok(form) => <(A, B) as FacetSet>::folded(forms, tag, payload, live) matches Ok(after) && {
                &&& after.1 == form
            &&& after.0 == forms.0
            },
            Err(text) => <(A, B) as FacetSet>::folded(forms, tag, payload, live) == Err::<(FormOf<A>, FormOf<B>), Seq<char>>(text),
        },
        tag == B::tag() && live && B::physical() ==> <(A, B) as FacetSet>::folded(forms, tag, payload, live)
            == Ok::<(FormOf<A>, FormOf<B>), Seq<char>>(forms),
        tag != A::tag() && tag != B::tag() ==> <(A, B) as FacetSet>::folded(forms, tag, payload, live) is Err,
{
    let tags = <(A, B) as FacetSet>::tags();
    assert(tags[0] == A::tag());
    assert(tags[1] == B::tag());
}

/// A set of three: every record of every facet is drained, under its facet's tag and in
/// the facets' order; every facet's blobs are kept, every form is discarded, every stage
/// has its alarm consumed, and the first deadline counts.
pub proof fn law_a_set_of_three_leaves_no_facet_out<A: Facet, B: Facet, C: Facet>(
    forms: (FormOf<A>, FormOf<B>, FormOf<C>),
    stages: (StageOf<A>, StageOf<B>, StageOf<C>),
    present: bool,
)
    ensures
        <(A, B, C) as FacetSet>::tags().len() == 3,
        <(A, B, C) as FacetSet>::tags()[0] == A::tag(),
        <(A, B, C) as FacetSet>::tags()[1] == B::tag(),
        <(A, B, C) as FacetSet>::tags()[2] == C::tag(),
        <(A, B, C) as FacetSet>::drained(stages).len() == A::drained(stages.0).len() + B::drained(stages.1).len() + C::drained(stages.2).len(),
        forall|i: int|
            0 <= i < A::drained(stages.0).len() ==> <(A, B, C) as FacetSet>::drained(stages)[0 + i] == (
                A::tag(),
                #[trigger] A::drained(stages.0)[i],
            ),
        forall|i: int|
            0 <= i < B::drained(stages.1).len() ==> <(A, B, C) as FacetSet>::drained(stages)[A::drained(stages.0).len() + i] == (
                B::tag(),
                #[trigger] B::drained(stages.1)[i],
            ),
        forall|i: int|
            0 <= i < C::drained(stages.2).len() ==> <(A, B, C) as FacetSet>::drained(stages)[A::drained(stages.0).len() + B::drained(stages.1).len() + i] == (
                C::tag(),
                #[trigger] C::drained(stages.2)[i],
            ),
        forall|id: Seq<u8>| #[trigger] <(A, B, C) as FacetSet>::rooted(forms).contains(id) <==> A::rooted(forms.0).contains(id) || B::rooted(forms.1).contains(id) || C::rooted(forms.2).contains(id),
        <(A, B, C) as FacetSet>::begin_refusal(forms, present) is Some <==> A::begin_refusal(forms.0, present) is Some || B::begin_refusal(forms.1, present) is Some || C::begin_refusal(forms.2, present) is Some,
        <(A, B, C) as FacetSet>::discarded(forms).0 == A::discarded(forms.0),
        <(A, B, C) as FacetSet>::discarded(forms).1 == B::discarded(forms.1),
        <(A, B, C) as FacetSet>::discarded(forms).2 == C::discarded(forms.2),
        <(A, B, C) as FacetSet>::empty_forms().0 == A::empty_form(),
        <(A, B, C) as FacetSet>::empty_stages().0 == A::empty_stage(),
        <(A, B, C) as FacetSet>::empty_forms().1 == B::empty_form(),
        <(A, B, C) as FacetSet>::empty_stages().1 == B::empty_stage(),
        <(A, B, C) as FacetSet>::empty_forms().2 == C::empty_form(),
        <(A, B, C) as FacetSet>::empty_stages().2 == C::empty_stage(),
        <(A, B, C) as FacetSet>::alarm_consumed(stages).0 == A::alarm_consumed(stages.0),
        <(A, B, C) as FacetSet>::alarm_consumed(stages).1 == B::alarm_consumed(stages.1),
        <(A, B, C) as FacetSet>::alarm_consumed(stages).2 == C::alarm_consumed(stages.2),
        A::due(forms.0) is Some ==> <(A, B, C) as FacetSet>::due(forms) == A::due(forms.0),
        A::due(forms.0) is None && B::due(forms.1) is Some ==> <(A, B, C) as FacetSet>::due(forms) == B::due(forms.1),
        A::due(forms.0) is None && B::due(forms.1) is None && C::due(forms.2) is Some ==> <(A, B, C) as FacetSet>::due(forms) == C::due(forms.2),
        A::due(forms.0) is None && B::due(forms.1) is None && C::due(forms.2) is None ==> <(A, B, C) as FacetSet>::due(forms) is None,
{
}

/// A set of three: a record goes to the facet whose tag it carries and to no other; live, not
/// to one that materializes; and one whose tag no facet claims is refused.
pub proof fn law_a_set_of_three_dispatches_by_tag<A: Facet, B: Facet, C: Facet>(
    forms: (FormOf<A>, FormOf<B>, FormOf<C>),
    tag: u8,
    payload: Seq<u8>,
    live: bool,
)
    requires
        <(A, B, C) as FacetSet>::tags().no_duplicates(),
    ensures
        tag == A::tag() && !(live && A::physical()) ==> match A::folded(forms.0, payload) {
            Ok(form) => <(A, B, C) as FacetSet>::folded(forms, tag, payload, live) matches Ok(after) && {
                &&& after.0 == form
            &&& after.1 == forms.1
            &&& after.2 == forms.2
            },
            Err(text) => <(A, B, C) as FacetSet>::folded(forms, tag, payload, live) == Err::<(FormOf<A>, FormOf<B>, FormOf<C>), Seq<char>>(text),
        },
        tag == A::tag() && live && A::physical() ==> <(A, B, C) as FacetSet>::folded(forms, tag, payload, live)
            == Ok::<(FormOf<A>, FormOf<B>, FormOf<C>), Seq<char>>(forms),
        tag == B::tag() && !(live && B::physical()) ==> match B::folded(forms.1, payload) {
            Ok(form) => <(A, B, C) as FacetSet>::folded(forms, tag, payload, live) matches Ok(after) && {
                &&& after.1 == form
            &&& after.0 == forms.0
            &&& after.2 == forms.2
            },
            Err(text) => <(A, B, C) as FacetSet>::folded(forms, tag, payload, live) == Err::<(FormOf<A>, FormOf<B>, FormOf<C>), Seq<char>>(text),
        },
        tag == B::tag() && live && B::physical() ==> <(A, B, C) as FacetSet>::folded(forms, tag, payload, live)
            == Ok::<(FormOf<A>, FormOf<B>, FormOf<C>), Seq<char>>(forms),
        tag == C::tag() && !(live && C::physical()) ==> match C::folded(forms.2, payload) {
            Ok(form) => <(A, B, C) as FacetSet>::folded(forms, tag, payload, live) matches Ok(after) && {
                &&& after.2 == form
            &&& after.0 == forms.0
            &&& after.1 == forms.1
            },
            Err(text) => <(A, B, C) as FacetSet>::folded(forms, tag, payload, live) == Err::<(FormOf<A>, FormOf<B>, FormOf<C>), Seq<char>>(text),
        },
        tag == C::tag() && live && C::physical() ==> <(A, B, C) as FacetSet>::folded(forms, tag, payload, live)
            == Ok::<(FormOf<A>, FormOf<B>, FormOf<C>), Seq<char>>(forms),
        tag != A::tag() && tag != B::tag() && tag != C::tag() ==> <(A, B, C) as FacetSet>::folded(forms, tag, payload, live) is Err,
{
    let tags = <(A, B, C) as FacetSet>::tags();
    assert(tags[0] == A::tag());
    assert(tags[1] == B::tag());
    assert(tags[2] == C::tag());
}

/// A set of four: every record of every facet is drained, under its facet's tag and in
/// the facets' order; every facet's blobs are kept, every form is discarded, every stage
/// has its alarm consumed, and the first deadline counts.
pub proof fn law_a_set_of_four_leaves_no_facet_out<A: Facet, B: Facet, C: Facet, D: Facet>(
    forms: (FormOf<A>, FormOf<B>, FormOf<C>, FormOf<D>),
    stages: (StageOf<A>, StageOf<B>, StageOf<C>, StageOf<D>),
    present: bool,
)
    ensures
        <(A, B, C, D) as FacetSet>::tags().len() == 4,
        <(A, B, C, D) as FacetSet>::tags()[0] == A::tag(),
        <(A, B, C, D) as FacetSet>::tags()[1] == B::tag(),
        <(A, B, C, D) as FacetSet>::tags()[2] == C::tag(),
        <(A, B, C, D) as FacetSet>::tags()[3] == D::tag(),
        <(A, B, C, D) as FacetSet>::drained(stages).len() == A::drained(stages.0).len() + B::drained(stages.1).len() + C::drained(stages.2).len() + D::drained(stages.3).len(),
        forall|i: int|
            0 <= i < A::drained(stages.0).len() ==> <(A, B, C, D) as FacetSet>::drained(stages)[0 + i] == (
                A::tag(),
                #[trigger] A::drained(stages.0)[i],
            ),
        forall|i: int|
            0 <= i < B::drained(stages.1).len() ==> <(A, B, C, D) as FacetSet>::drained(stages)[A::drained(stages.0).len() + i] == (
                B::tag(),
                #[trigger] B::drained(stages.1)[i],
            ),
        forall|i: int|
            0 <= i < C::drained(stages.2).len() ==> <(A, B, C, D) as FacetSet>::drained(stages)[A::drained(stages.0).len() + B::drained(stages.1).len() + i] == (
                C::tag(),
                #[trigger] C::drained(stages.2)[i],
            ),
        forall|i: int|
            0 <= i < D::drained(stages.3).len() ==> <(A, B, C, D) as FacetSet>::drained(stages)[A::drained(stages.0).len() + B::drained(stages.1).len() + C::drained(stages.2).len() + i] == (
                D::tag(),
                #[trigger] D::drained(stages.3)[i],
            ),
        forall|id: Seq<u8>| #[trigger] <(A, B, C, D) as FacetSet>::rooted(forms).contains(id) <==> A::rooted(forms.0).contains(id) || B::rooted(forms.1).contains(id) || C::rooted(forms.2).contains(id) || D::rooted(forms.3).contains(id),
        <(A, B, C, D) as FacetSet>::begin_refusal(forms, present) is Some <==> A::begin_refusal(forms.0, present) is Some || B::begin_refusal(forms.1, present) is Some || C::begin_refusal(forms.2, present) is Some || D::begin_refusal(forms.3, present) is Some,
        <(A, B, C, D) as FacetSet>::discarded(forms).0 == A::discarded(forms.0),
        <(A, B, C, D) as FacetSet>::discarded(forms).1 == B::discarded(forms.1),
        <(A, B, C, D) as FacetSet>::discarded(forms).2 == C::discarded(forms.2),
        <(A, B, C, D) as FacetSet>::discarded(forms).3 == D::discarded(forms.3),
        <(A, B, C, D) as FacetSet>::empty_forms().0 == A::empty_form(),
        <(A, B, C, D) as FacetSet>::empty_stages().0 == A::empty_stage(),
        <(A, B, C, D) as FacetSet>::empty_forms().1 == B::empty_form(),
        <(A, B, C, D) as FacetSet>::empty_stages().1 == B::empty_stage(),
        <(A, B, C, D) as FacetSet>::empty_forms().2 == C::empty_form(),
        <(A, B, C, D) as FacetSet>::empty_stages().2 == C::empty_stage(),
        <(A, B, C, D) as FacetSet>::empty_forms().3 == D::empty_form(),
        <(A, B, C, D) as FacetSet>::empty_stages().3 == D::empty_stage(),
        <(A, B, C, D) as FacetSet>::alarm_consumed(stages).0 == A::alarm_consumed(stages.0),
        <(A, B, C, D) as FacetSet>::alarm_consumed(stages).1 == B::alarm_consumed(stages.1),
        <(A, B, C, D) as FacetSet>::alarm_consumed(stages).2 == C::alarm_consumed(stages.2),
        <(A, B, C, D) as FacetSet>::alarm_consumed(stages).3 == D::alarm_consumed(stages.3),
        A::due(forms.0) is Some ==> <(A, B, C, D) as FacetSet>::due(forms) == A::due(forms.0),
        A::due(forms.0) is None && B::due(forms.1) is Some ==> <(A, B, C, D) as FacetSet>::due(forms) == B::due(forms.1),
        A::due(forms.0) is None && B::due(forms.1) is None && C::due(forms.2) is Some ==> <(A, B, C, D) as FacetSet>::due(forms) == C::due(forms.2),
        A::due(forms.0) is None && B::due(forms.1) is None && C::due(forms.2) is None && D::due(forms.3) is Some ==> <(A, B, C, D) as FacetSet>::due(forms) == D::due(forms.3),
        A::due(forms.0) is None && B::due(forms.1) is None && C::due(forms.2) is None && D::due(forms.3) is None ==> <(A, B, C, D) as FacetSet>::due(forms) is None,
{
}

/// A set of four: a record goes to the facet whose tag it carries and to no other; live, not
/// to one that materializes; and one whose tag no facet claims is refused.
pub proof fn law_a_set_of_four_dispatches_by_tag<A: Facet, B: Facet, C: Facet, D: Facet>(
    forms: (FormOf<A>, FormOf<B>, FormOf<C>, FormOf<D>),
    tag: u8,
    payload: Seq<u8>,
    live: bool,
)
    requires
        <(A, B, C, D) as FacetSet>::tags().no_duplicates(),
    ensures
        tag == A::tag() && !(live && A::physical()) ==> match A::folded(forms.0, payload) {
            Ok(form) => <(A, B, C, D) as FacetSet>::folded(forms, tag, payload, live) matches Ok(after) && {
                &&& after.0 == form
            &&& after.1 == forms.1
            &&& after.2 == forms.2
            &&& after.3 == forms.3
            },
            Err(text) => <(A, B, C, D) as FacetSet>::folded(forms, tag, payload, live) == Err::<(FormOf<A>, FormOf<B>, FormOf<C>, FormOf<D>), Seq<char>>(text),
        },
        tag == A::tag() && live && A::physical() ==> <(A, B, C, D) as FacetSet>::folded(forms, tag, payload, live)
            == Ok::<(FormOf<A>, FormOf<B>, FormOf<C>, FormOf<D>), Seq<char>>(forms),
        tag == B::tag() && !(live && B::physical()) ==> match B::folded(forms.1, payload) {
            Ok(form) => <(A, B, C, D) as FacetSet>::folded(forms, tag, payload, live) matches Ok(after) && {
                &&& after.1 == form
            &&& after.0 == forms.0
            &&& after.2 == forms.2
            &&& after.3 == forms.3
            },
            Err(text) => <(A, B, C, D) as FacetSet>::folded(forms, tag, payload, live) == Err::<(FormOf<A>, FormOf<B>, FormOf<C>, FormOf<D>), Seq<char>>(text),
        },
        tag == B::tag() && live && B::physical() ==> <(A, B, C, D) as FacetSet>::folded(forms, tag, payload, live)
            == Ok::<(FormOf<A>, FormOf<B>, FormOf<C>, FormOf<D>), Seq<char>>(forms),
        tag == C::tag() && !(live && C::physical()) ==> match C::folded(forms.2, payload) {
            Ok(form) => <(A, B, C, D) as FacetSet>::folded(forms, tag, payload, live) matches Ok(after) && {
                &&& after.2 == form
            &&& after.0 == forms.0
            &&& after.1 == forms.1
            &&& after.3 == forms.3
            },
            Err(text) => <(A, B, C, D) as FacetSet>::folded(forms, tag, payload, live) == Err::<(FormOf<A>, FormOf<B>, FormOf<C>, FormOf<D>), Seq<char>>(text),
        },
        tag == C::tag() && live && C::physical() ==> <(A, B, C, D) as FacetSet>::folded(forms, tag, payload, live)
            == Ok::<(FormOf<A>, FormOf<B>, FormOf<C>, FormOf<D>), Seq<char>>(forms),
        tag == D::tag() && !(live && D::physical()) ==> match D::folded(forms.3, payload) {
            Ok(form) => <(A, B, C, D) as FacetSet>::folded(forms, tag, payload, live) matches Ok(after) && {
                &&& after.3 == form
            &&& after.0 == forms.0
            &&& after.1 == forms.1
            &&& after.2 == forms.2
            },
            Err(text) => <(A, B, C, D) as FacetSet>::folded(forms, tag, payload, live) == Err::<(FormOf<A>, FormOf<B>, FormOf<C>, FormOf<D>), Seq<char>>(text),
        },
        tag == D::tag() && live && D::physical() ==> <(A, B, C, D) as FacetSet>::folded(forms, tag, payload, live)
            == Ok::<(FormOf<A>, FormOf<B>, FormOf<C>, FormOf<D>), Seq<char>>(forms),
        tag != A::tag() && tag != B::tag() && tag != C::tag() && tag != D::tag() ==> <(A, B, C, D) as FacetSet>::folded(forms, tag, payload, live) is Err,
{
    let tags = <(A, B, C, D) as FacetSet>::tags();
    assert(tags[0] == A::tag());
    assert(tags[1] == B::tag());
    assert(tags[2] == C::tag());
    assert(tags[3] == D::tag());
}

/// A set of one: closing a command closes it for every facet, a snapshot has every
/// facet's contribution under its tag, and restoring gives each facet its own.
pub proof fn law_a_set_of_one_treats_each_facet_alike<A: Facet>(
    forms: (FormOf<A>,),
    stages: (StageOf<A>,),
    parts: Seq<(u8, Seq<u8>)>,
)
    ensures
        <(A,) as FacetSet>::sealed(forms, stages) matches Ok((f, s)) ==> {
            &&& A::sealed(forms.0, stages.0) == Ok::<(FormOf<A>, StageOf<A>), Seq<char>>((f.0, s.0))
        },
        A::sealed(forms.0, stages.0) is Ok ==> <(A,) as FacetSet>::sealed(forms, stages) is Ok,
        <(A,) as FacetSet>::snapped(forms) matches Ok(p) ==> {
            &&& p.len() == 1
            &&& A::snapped(forms.0) matches Ok(bytes) && p[0] == (A::tag(), bytes)
        },
        A::snapped(forms.0) is Ok ==> <(A,) as FacetSet>::snapped(forms) is Ok,
        <(A,) as FacetSet>::restored(parts) matches Ok(f) ==> {
            &&& A::restored(part_for(parts, A::tag())) == Ok::<FormOf<A>, Seq<char>>(f.0)
        },
        A::restored(part_for(parts, A::tag())) is Ok ==> <(A,) as FacetSet>::restored(parts) is Ok,
{
}

/// A set of two: closing a command closes it for every facet, a snapshot has every
/// facet's contribution under its tag, and restoring gives each facet its own.
pub proof fn law_a_set_of_two_treats_each_facet_alike<A: Facet, B: Facet>(
    forms: (FormOf<A>, FormOf<B>),
    stages: (StageOf<A>, StageOf<B>),
    parts: Seq<(u8, Seq<u8>)>,
)
    ensures
        <(A, B) as FacetSet>::sealed(forms, stages) matches Ok((f, s)) ==> {
            &&& A::sealed(forms.0, stages.0) == Ok::<(FormOf<A>, StageOf<A>), Seq<char>>((f.0, s.0))
            &&& B::sealed(forms.1, stages.1) == Ok::<(FormOf<B>, StageOf<B>), Seq<char>>((f.1, s.1))
        },
        A::sealed(forms.0, stages.0) is Ok && B::sealed(forms.1, stages.1) is Ok ==> <(A, B) as FacetSet>::sealed(forms, stages) is Ok,
        <(A, B) as FacetSet>::snapped(forms) matches Ok(p) ==> {
            &&& p.len() == 2
            &&& A::snapped(forms.0) matches Ok(bytes) && p[0] == (A::tag(), bytes)
            &&& B::snapped(forms.1) matches Ok(bytes) && p[1] == (B::tag(), bytes)
        },
        A::snapped(forms.0) is Ok && B::snapped(forms.1) is Ok ==> <(A, B) as FacetSet>::snapped(forms) is Ok,
        <(A, B) as FacetSet>::restored(parts) matches Ok(f) ==> {
            &&& A::restored(part_for(parts, A::tag())) == Ok::<FormOf<A>, Seq<char>>(f.0)
            &&& B::restored(part_for(parts, B::tag())) == Ok::<FormOf<B>, Seq<char>>(f.1)
        },
        A::restored(part_for(parts, A::tag())) is Ok && B::restored(part_for(parts, B::tag())) is Ok ==> <(A, B) as FacetSet>::restored(parts) is Ok,
{
}

/// A set of three: closing a command closes it for every facet, a snapshot has every
/// facet's contribution under its tag, and restoring gives each facet its own.
pub proof fn law_a_set_of_three_treats_each_facet_alike<A: Facet, B: Facet, C: Facet>(
    forms: (FormOf<A>, FormOf<B>, FormOf<C>),
    stages: (StageOf<A>, StageOf<B>, StageOf<C>),
    parts: Seq<(u8, Seq<u8>)>,
)
    ensures
        <(A, B, C) as FacetSet>::sealed(forms, stages) matches Ok((f, s)) ==> {
            &&& A::sealed(forms.0, stages.0) == Ok::<(FormOf<A>, StageOf<A>), Seq<char>>((f.0, s.0))
            &&& B::sealed(forms.1, stages.1) == Ok::<(FormOf<B>, StageOf<B>), Seq<char>>((f.1, s.1))
            &&& C::sealed(forms.2, stages.2) == Ok::<(FormOf<C>, StageOf<C>), Seq<char>>((f.2, s.2))
        },
        A::sealed(forms.0, stages.0) is Ok && B::sealed(forms.1, stages.1) is Ok && C::sealed(forms.2, stages.2) is Ok ==> <(A, B, C) as FacetSet>::sealed(forms, stages) is Ok,
        <(A, B, C) as FacetSet>::snapped(forms) matches Ok(p) ==> {
            &&& p.len() == 3
            &&& A::snapped(forms.0) matches Ok(bytes) && p[0] == (A::tag(), bytes)
            &&& B::snapped(forms.1) matches Ok(bytes) && p[1] == (B::tag(), bytes)
            &&& C::snapped(forms.2) matches Ok(bytes) && p[2] == (C::tag(), bytes)
        },
        A::snapped(forms.0) is Ok && B::snapped(forms.1) is Ok && C::snapped(forms.2) is Ok ==> <(A, B, C) as FacetSet>::snapped(forms) is Ok,
        <(A, B, C) as FacetSet>::restored(parts) matches Ok(f) ==> {
            &&& A::restored(part_for(parts, A::tag())) == Ok::<FormOf<A>, Seq<char>>(f.0)
            &&& B::restored(part_for(parts, B::tag())) == Ok::<FormOf<B>, Seq<char>>(f.1)
            &&& C::restored(part_for(parts, C::tag())) == Ok::<FormOf<C>, Seq<char>>(f.2)
        },
        A::restored(part_for(parts, A::tag())) is Ok && B::restored(part_for(parts, B::tag())) is Ok && C::restored(part_for(parts, C::tag())) is Ok ==> <(A, B, C) as FacetSet>::restored(parts) is Ok,
{
}

/// A set of four: closing a command closes it for every facet, a snapshot has every
/// facet's contribution under its tag, and restoring gives each facet its own.
pub proof fn law_a_set_of_four_treats_each_facet_alike<A: Facet, B: Facet, C: Facet, D: Facet>(
    forms: (FormOf<A>, FormOf<B>, FormOf<C>, FormOf<D>),
    stages: (StageOf<A>, StageOf<B>, StageOf<C>, StageOf<D>),
    parts: Seq<(u8, Seq<u8>)>,
)
    ensures
        <(A, B, C, D) as FacetSet>::sealed(forms, stages) matches Ok((f, s)) ==> {
            &&& A::sealed(forms.0, stages.0) == Ok::<(FormOf<A>, StageOf<A>), Seq<char>>((f.0, s.0))
            &&& B::sealed(forms.1, stages.1) == Ok::<(FormOf<B>, StageOf<B>), Seq<char>>((f.1, s.1))
            &&& C::sealed(forms.2, stages.2) == Ok::<(FormOf<C>, StageOf<C>), Seq<char>>((f.2, s.2))
            &&& D::sealed(forms.3, stages.3) == Ok::<(FormOf<D>, StageOf<D>), Seq<char>>((f.3, s.3))
        },
        A::sealed(forms.0, stages.0) is Ok && B::sealed(forms.1, stages.1) is Ok && C::sealed(forms.2, stages.2) is Ok && D::sealed(forms.3, stages.3) is Ok ==> <(A, B, C, D) as FacetSet>::sealed(forms, stages) is Ok,
        <(A, B, C, D) as FacetSet>::snapped(forms) matches Ok(p) ==> {
            &&& p.len() == 4
            &&& A::snapped(forms.0) matches Ok(bytes) && p[0] == (A::tag(), bytes)
            &&& B::snapped(forms.1) matches Ok(bytes) && p[1] == (B::tag(), bytes)
            &&& C::snapped(forms.2) matches Ok(bytes) && p[2] == (C::tag(), bytes)
            &&& D::snapped(forms.3) matches Ok(bytes) && p[3] == (D::tag(), bytes)
        },
        A::snapped(forms.0) is Ok && B::snapped(forms.1) is Ok && C::snapped(forms.2) is Ok && D::snapped(forms.3) is Ok ==> <(A, B, C, D) as FacetSet>::snapped(forms) is Ok,
        <(A, B, C, D) as FacetSet>::restored(parts) matches Ok(f) ==> {
            &&& A::restored(part_for(parts, A::tag())) == Ok::<FormOf<A>, Seq<char>>(f.0)
            &&& B::restored(part_for(parts, B::tag())) == Ok::<FormOf<B>, Seq<char>>(f.1)
            &&& C::restored(part_for(parts, C::tag())) == Ok::<FormOf<C>, Seq<char>>(f.2)
            &&& D::restored(part_for(parts, D::tag())) == Ok::<FormOf<D>, Seq<char>>(f.3)
        },
        A::restored(part_for(parts, A::tag())) is Ok && B::restored(part_for(parts, B::tag())) is Ok && C::restored(part_for(parts, C::tag())) is Ok && D::restored(part_for(parts, D::tag())) is Ok ==> <(A, B, C, D) as FacetSet>::restored(parts) is Ok,
{
}

/// A facet's contribution is the first that carries its tag; there is none if none does.
pub proof fn law_a_contribution_is_found_by_its_tag(parts: Seq<(u8, Seq<u8>)>, tag: u8)
    ensures
        match part_for(parts, tag) {
            Some(bytes) => exists|i: int|
                0 <= i < parts.len() && #[trigger] parts[i] == (tag, bytes) && forall|j: int|
                    0 <= j < i ==> (#[trigger] parts[j]).0 != tag,
            None => forall|i: int| 0 <= i < parts.len() ==> (#[trigger] parts[i]).0 != tag,
        },
    decreases parts.len(),
{
    if parts.len() > 0 {
        if parts[0].0 == tag {
            assert(parts[0] == (tag, parts[0].1));
        } else {
            let rest = parts.skip(1);
            law_a_contribution_is_found_by_its_tag(rest, tag);
            match part_for(rest, tag) {
                Some(bytes) => {
                    let i = choose|i: int|
                        0 <= i < rest.len() && #[trigger] rest[i] == (tag, bytes) && forall|j: int|
                            0 <= j < i ==> (#[trigger] rest[j]).0 != tag;
                    assert(parts[i + 1] == (tag, bytes));
                    assert forall|j: int| 0 <= j < i + 1 implies (#[trigger] parts[j]).0 != tag by {
                        if j > 0 {
                            assert(rest[j - 1] == parts[j]);
                        }
                    }
                },
                None => {
                    assert forall|i: int| 0 <= i < parts.len() implies (#[trigger] parts[i]).0
                        != tag by {
                        if i > 0 {
                            assert(rest[i - 1] == parts[i]);
                        }
                    }
                },
            }
        }
    }
}

/// A record can be split exactly if it is not empty and leads with a byte up to 0x7F: that
/// byte is its tag, and the rest its payload.
pub proof fn law_a_record_is_its_tag_and_its_payload(bytes: Seq<u8>)
    ensures
        record_parts(bytes) is Ok <==> bytes.len() > 0 && bytes[0] <= 0x7F,
        record_parts(bytes) matches Ok((tag, payload)) ==> bytes == seq![tag] + payload,
{
    if let Ok((tag, payload)) = record_parts(bytes) {
        assert(bytes =~= seq![tag] + payload);
    }
}

/// A set's tags dispatch its records if each is one of this crate's, none is the event's,
/// and no two are the same.
pub proof fn law_tags_tell_the_facets_apart(tags: Seq<u8>)
    ensures
        tags_dispatch(tags) <==> tags.no_duplicates() && forall|i: int|
            0 <= i < tags.len() ==> 1 <= #[trigger] tags[i] <= 0x3F,
{
}

/// A set of one: where a facet refuses to close, those before it are closed and the rest are
/// as they were; and a record can be folded if its own facet can fold it.
pub proof fn law_a_set_of_one_stops_at_a_refusal<A: Facet>(
    forms: (FormOf<A>,),
    stages: (StageOf<A>,),
    tag: u8,
    payload: Seq<u8>,
    live: bool,
)
    requires
        <(A,) as FacetSet>::tags().no_duplicates(),
    ensures
        A::sealed(forms.0, stages.0) is Err ==> {
            &&& <(A,) as FacetSet>::sealed(forms, stages) is Err
            &&& <(A,) as FacetSet>::seal_forms(forms, stages).0 == forms.0
        },
        tag == A::tag() && (live && A::physical() || A::fold_ok(forms.0, payload)) ==> <(A,) as FacetSet>::fold_ok(forms, tag, payload, live),
        tag == A::tag() && A::always_ok(payload) ==> <(A,) as FacetSet>::always_ok(tag, payload),
        tag == A::tag() ==> <(A,) as FacetSet>::physical_tag(tag) == A::physical(),
{
    let tags = <(A,) as FacetSet>::tags();
    assert(tags[0] == A::tag());
}

/// A set of two: where a facet refuses to close, those before it are closed and the rest are
/// as they were; and a record can be folded if its own facet can fold it.
pub proof fn law_a_set_of_two_stops_at_a_refusal<A: Facet, B: Facet>(
    forms: (FormOf<A>, FormOf<B>),
    stages: (StageOf<A>, StageOf<B>),
    tag: u8,
    payload: Seq<u8>,
    live: bool,
)
    requires
        <(A, B) as FacetSet>::tags().no_duplicates(),
    ensures
        A::sealed(forms.0, stages.0) is Err ==> {
            &&& <(A, B) as FacetSet>::sealed(forms, stages) is Err
            &&& <(A, B) as FacetSet>::seal_forms(forms, stages).0 == forms.0
            &&& <(A, B) as FacetSet>::seal_forms(forms, stages).1 == forms.1
        },
        A::sealed(forms.0, stages.0) is Ok && B::sealed(forms.1, stages.1) is Err ==> {
            &&& <(A, B) as FacetSet>::sealed(forms, stages) is Err
            &&& <(A, B) as FacetSet>::seal_forms(forms, stages).0 == A::sealed(forms.0, stages.0)->Ok_0.0
            &&& <(A, B) as FacetSet>::seal_forms(forms, stages).1 == forms.1
        },
        tag == A::tag() && (live && A::physical() || A::fold_ok(forms.0, payload)) ==> <(A, B) as FacetSet>::fold_ok(forms, tag, payload, live),
        tag == A::tag() && A::always_ok(payload) ==> <(A, B) as FacetSet>::always_ok(tag, payload),
        tag == A::tag() ==> <(A, B) as FacetSet>::physical_tag(tag) == A::physical(),
        tag == B::tag() && (live && B::physical() || B::fold_ok(forms.1, payload)) ==> <(A, B) as FacetSet>::fold_ok(forms, tag, payload, live),
        tag == B::tag() && B::always_ok(payload) ==> <(A, B) as FacetSet>::always_ok(tag, payload),
        tag == B::tag() ==> <(A, B) as FacetSet>::physical_tag(tag) == B::physical(),
{
    let tags = <(A, B) as FacetSet>::tags();
    assert(tags[0] == A::tag());
    assert(tags[1] == B::tag());
}

/// A set of three: where a facet refuses to close, those before it are closed and the rest are
/// as they were; and a record can be folded if its own facet can fold it.
pub proof fn law_a_set_of_three_stops_at_a_refusal<A: Facet, B: Facet, C: Facet>(
    forms: (FormOf<A>, FormOf<B>, FormOf<C>),
    stages: (StageOf<A>, StageOf<B>, StageOf<C>),
    tag: u8,
    payload: Seq<u8>,
    live: bool,
)
    requires
        <(A, B, C) as FacetSet>::tags().no_duplicates(),
    ensures
        A::sealed(forms.0, stages.0) is Err ==> {
            &&& <(A, B, C) as FacetSet>::sealed(forms, stages) is Err
            &&& <(A, B, C) as FacetSet>::seal_forms(forms, stages).0 == forms.0
            &&& <(A, B, C) as FacetSet>::seal_forms(forms, stages).1 == forms.1
            &&& <(A, B, C) as FacetSet>::seal_forms(forms, stages).2 == forms.2
        },
        A::sealed(forms.0, stages.0) is Ok && B::sealed(forms.1, stages.1) is Err ==> {
            &&& <(A, B, C) as FacetSet>::sealed(forms, stages) is Err
            &&& <(A, B, C) as FacetSet>::seal_forms(forms, stages).0 == A::sealed(forms.0, stages.0)->Ok_0.0
            &&& <(A, B, C) as FacetSet>::seal_forms(forms, stages).1 == forms.1
            &&& <(A, B, C) as FacetSet>::seal_forms(forms, stages).2 == forms.2
        },
        A::sealed(forms.0, stages.0) is Ok && B::sealed(forms.1, stages.1) is Ok && C::sealed(forms.2, stages.2) is Err ==> {
            &&& <(A, B, C) as FacetSet>::sealed(forms, stages) is Err
            &&& <(A, B, C) as FacetSet>::seal_forms(forms, stages).0 == A::sealed(forms.0, stages.0)->Ok_0.0
            &&& <(A, B, C) as FacetSet>::seal_forms(forms, stages).1 == B::sealed(forms.1, stages.1)->Ok_0.0
            &&& <(A, B, C) as FacetSet>::seal_forms(forms, stages).2 == forms.2
        },
        tag == A::tag() && (live && A::physical() || A::fold_ok(forms.0, payload)) ==> <(A, B, C) as FacetSet>::fold_ok(forms, tag, payload, live),
        tag == A::tag() && A::always_ok(payload) ==> <(A, B, C) as FacetSet>::always_ok(tag, payload),
        tag == A::tag() ==> <(A, B, C) as FacetSet>::physical_tag(tag) == A::physical(),
        tag == B::tag() && (live && B::physical() || B::fold_ok(forms.1, payload)) ==> <(A, B, C) as FacetSet>::fold_ok(forms, tag, payload, live),
        tag == B::tag() && B::always_ok(payload) ==> <(A, B, C) as FacetSet>::always_ok(tag, payload),
        tag == B::tag() ==> <(A, B, C) as FacetSet>::physical_tag(tag) == B::physical(),
        tag == C::tag() && (live && C::physical() || C::fold_ok(forms.2, payload)) ==> <(A, B, C) as FacetSet>::fold_ok(forms, tag, payload, live),
        tag == C::tag() && C::always_ok(payload) ==> <(A, B, C) as FacetSet>::always_ok(tag, payload),
        tag == C::tag() ==> <(A, B, C) as FacetSet>::physical_tag(tag) == C::physical(),
{
    let tags = <(A, B, C) as FacetSet>::tags();
    assert(tags[0] == A::tag());
    assert(tags[1] == B::tag());
    assert(tags[2] == C::tag());
}

/// A set of four: where a facet refuses to close, those before it are closed and the rest are
/// as they were; and a record can be folded if its own facet can fold it.
pub proof fn law_a_set_of_four_stops_at_a_refusal<A: Facet, B: Facet, C: Facet, D: Facet>(
    forms: (FormOf<A>, FormOf<B>, FormOf<C>, FormOf<D>),
    stages: (StageOf<A>, StageOf<B>, StageOf<C>, StageOf<D>),
    tag: u8,
    payload: Seq<u8>,
    live: bool,
)
    requires
        <(A, B, C, D) as FacetSet>::tags().no_duplicates(),
    ensures
        A::sealed(forms.0, stages.0) is Err ==> {
            &&& <(A, B, C, D) as FacetSet>::sealed(forms, stages) is Err
            &&& <(A, B, C, D) as FacetSet>::seal_forms(forms, stages).0 == forms.0
            &&& <(A, B, C, D) as FacetSet>::seal_forms(forms, stages).1 == forms.1
            &&& <(A, B, C, D) as FacetSet>::seal_forms(forms, stages).2 == forms.2
            &&& <(A, B, C, D) as FacetSet>::seal_forms(forms, stages).3 == forms.3
        },
        A::sealed(forms.0, stages.0) is Ok && B::sealed(forms.1, stages.1) is Err ==> {
            &&& <(A, B, C, D) as FacetSet>::sealed(forms, stages) is Err
            &&& <(A, B, C, D) as FacetSet>::seal_forms(forms, stages).0 == A::sealed(forms.0, stages.0)->Ok_0.0
            &&& <(A, B, C, D) as FacetSet>::seal_forms(forms, stages).1 == forms.1
            &&& <(A, B, C, D) as FacetSet>::seal_forms(forms, stages).2 == forms.2
            &&& <(A, B, C, D) as FacetSet>::seal_forms(forms, stages).3 == forms.3
        },
        A::sealed(forms.0, stages.0) is Ok && B::sealed(forms.1, stages.1) is Ok && C::sealed(forms.2, stages.2) is Err ==> {
            &&& <(A, B, C, D) as FacetSet>::sealed(forms, stages) is Err
            &&& <(A, B, C, D) as FacetSet>::seal_forms(forms, stages).0 == A::sealed(forms.0, stages.0)->Ok_0.0
            &&& <(A, B, C, D) as FacetSet>::seal_forms(forms, stages).1 == B::sealed(forms.1, stages.1)->Ok_0.0
            &&& <(A, B, C, D) as FacetSet>::seal_forms(forms, stages).2 == forms.2
            &&& <(A, B, C, D) as FacetSet>::seal_forms(forms, stages).3 == forms.3
        },
        A::sealed(forms.0, stages.0) is Ok && B::sealed(forms.1, stages.1) is Ok && C::sealed(forms.2, stages.2) is Ok && D::sealed(forms.3, stages.3) is Err ==> {
            &&& <(A, B, C, D) as FacetSet>::sealed(forms, stages) is Err
            &&& <(A, B, C, D) as FacetSet>::seal_forms(forms, stages).0 == A::sealed(forms.0, stages.0)->Ok_0.0
            &&& <(A, B, C, D) as FacetSet>::seal_forms(forms, stages).1 == B::sealed(forms.1, stages.1)->Ok_0.0
            &&& <(A, B, C, D) as FacetSet>::seal_forms(forms, stages).2 == C::sealed(forms.2, stages.2)->Ok_0.0
            &&& <(A, B, C, D) as FacetSet>::seal_forms(forms, stages).3 == forms.3
        },
        tag == A::tag() && (live && A::physical() || A::fold_ok(forms.0, payload)) ==> <(A, B, C, D) as FacetSet>::fold_ok(forms, tag, payload, live),
        tag == A::tag() && A::always_ok(payload) ==> <(A, B, C, D) as FacetSet>::always_ok(tag, payload),
        tag == A::tag() ==> <(A, B, C, D) as FacetSet>::physical_tag(tag) == A::physical(),
        tag == B::tag() && (live && B::physical() || B::fold_ok(forms.1, payload)) ==> <(A, B, C, D) as FacetSet>::fold_ok(forms, tag, payload, live),
        tag == B::tag() && B::always_ok(payload) ==> <(A, B, C, D) as FacetSet>::always_ok(tag, payload),
        tag == B::tag() ==> <(A, B, C, D) as FacetSet>::physical_tag(tag) == B::physical(),
        tag == C::tag() && (live && C::physical() || C::fold_ok(forms.2, payload)) ==> <(A, B, C, D) as FacetSet>::fold_ok(forms, tag, payload, live),
        tag == C::tag() && C::always_ok(payload) ==> <(A, B, C, D) as FacetSet>::always_ok(tag, payload),
        tag == C::tag() ==> <(A, B, C, D) as FacetSet>::physical_tag(tag) == C::physical(),
        tag == D::tag() && (live && D::physical() || D::fold_ok(forms.3, payload)) ==> <(A, B, C, D) as FacetSet>::fold_ok(forms, tag, payload, live),
        tag == D::tag() && D::always_ok(payload) ==> <(A, B, C, D) as FacetSet>::always_ok(tag, payload),
        tag == D::tag() ==> <(A, B, C, D) as FacetSet>::physical_tag(tag) == D::physical(),
{
    let tags = <(A, B, C, D) as FacetSet>::tags();
    assert(tags[0] == A::tag());
    assert(tags[1] == B::tag());
    assert(tags[2] == C::tag());
    assert(tags[3] == D::tag());
}

} // verus!
