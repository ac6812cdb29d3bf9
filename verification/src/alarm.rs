//! The alarm facet: one durable deadline per grain.
//!
//! A command may arm, move or cancel the deadline; the change commits with the
//! command's other records. The host consumes a fired alarm in the same stage, so
//! the deadline clears unless the handler arms it again.
use vstd::prelude::*;

use crate::blobs::BlobId;
use crate::facet::decode_payload;
use crate::facet::encode_payload;
use crate::facet::payload_of;
use crate::facet::replayed;
use crate::facet::Facet;
use crate::facet::FacetError;
use crate::ordmap::OrdSet;
use crate::wire::dec_option;
use crate::wire::enc_option;
use crate::wire::lemma_decoded;
use crate::wire::lemma_option;
use crate::wire::put_option;
use crate::wire::take_option;
use crate::wire::Decoded;
use crate::wire::Wire;
use crate::wire::WireError;

verus! {

/// The alarm facet.
pub struct Alarm;

/// One record: the deadline (in nanoseconds since the clock's epoch) is set, or
/// cleared.
#[derive(Clone, Copy, Debug, PartialEq, Eq)]
pub enum AlarmOp {
    At(u64),
    Clear,
}

impl DeepView for AlarmOp {
    type V = AlarmOp;

    open spec fn deep_view(&self) -> AlarmOp {
        *self
    }
}

impl Wire for AlarmOp {
    open spec fn wire_inv(&self) -> bool {
        true
    }

    open spec fn fits(m: AlarmOp) -> bool {
        true
    }

    open spec fn enc(m: AlarmOp) -> Seq<u8> {
        match m {
            AlarmOp::At(nanos) => u32::enc(0) + u64::enc(nanos),
            AlarmOp::Clear => u32::enc(1),
        }
    }

    open spec fn dec(b: Seq<u8>) -> Decoded<AlarmOp> {
        match u32::dec(b) {
            Err(e) => Err(e),
            Ok((index, rest)) => if index == 0 {
                match u64::dec(rest) {
                    Err(e) => Err(e),
                    Ok((nanos, after)) => Ok((AlarmOp::At(nanos), after)),
                }
            } else if index == 1 {
                Ok((AlarmOp::Clear, rest))
            } else {
                Err(WireError::BadValue)
            },
        }
    }

    proof fn round_trip(m: AlarmOp, rest: Seq<u8>) {
        match m {
            AlarmOp::At(nanos) => {
                assert(Self::enc(m) + rest =~= u32::enc(0) + (u64::enc(nanos) + rest));
                u32::round_trip(0, u64::enc(nanos) + rest);
                u64::round_trip(nanos, rest);
            },
            AlarmOp::Clear => {
                u32::round_trip(1, rest);
            },
        }
    }

    fn put(&self, out: &mut Vec<u8>) {
        let ghost before = out@;
        match self {
            AlarmOp::At(nanos) => {
                0u32.put(out);
                nanos.put(out);
            },
            AlarmOp::Clear => {
                1u32.put(out);
            },
        }
        assert(out@ =~= before + Self::enc(*self));
    }

    fn take<'a>(b: &'a [u8]) -> (r: Result<(AlarmOp, &'a [u8]), WireError>) {
        match u32::take(b) {
            Err(e) => Err(e),
            Ok((index, rest)) => if index == 0 {
                match u64::take(rest) {
                    Err(e) => Err(e),
                    Ok((nanos, after)) => Ok((AlarmOp::At(nanos), after)),
                }
            } else if index == 1 {
                Ok((AlarmOp::Clear, rest))
            } else {
                Err(WireError::BadValue)
            },
        }
    }
}

/// The committed form: the pending deadline, if one is armed.
#[derive(Clone, Copy, Debug, PartialEq, Eq)]
pub struct AlarmForm {
    pub due: Option<u64>,
}

/// The per-command stage: the last change the command made.
#[derive(Clone, Copy, Debug, PartialEq, Eq)]
pub struct AlarmStage {
    pub op: Option<AlarmOp>,
}

impl DeepView for AlarmForm {
    type V = Option<u64>;

    open spec fn deep_view(&self) -> Option<u64> {
        self.due
    }
}

impl DeepView for AlarmStage {
    type V = Option<AlarmOp>;

    open spec fn deep_view(&self) -> Option<AlarmOp> {
        self.op
    }
}

impl Default for AlarmForm {
    fn default() -> (r: AlarmForm)
        ensures
            r.due is None,
    {
        AlarmForm { due: None }
    }
}

impl Default for AlarmStage {
    fn default() -> (r: AlarmStage)
        ensures
            r.op is None,
    {
        AlarmStage { op: None }
    }
}

impl AlarmForm {
    /// The pending deadline.
    pub fn due(&self) -> (r: Option<u64>)
        ensures
            r == self.due,
    {
        self.due
    }
}

impl Wire for AlarmForm {
    open spec fn wire_inv(&self) -> bool {
        true
    }

    open spec fn fits(m: Option<u64>) -> bool {
        true
    }

    open spec fn enc(m: Option<u64>) -> Seq<u8> {
        enc_option::<u64>(m)
    }

    open spec fn dec(b: Seq<u8>) -> Decoded<Option<u64>> {
        dec_option::<u64>(b)
    }

    proof fn round_trip(m: Option<u64>, rest: Seq<u8>) {
        lemma_option::<u64>(m, rest);
    }

    fn put(&self, out: &mut Vec<u8>) {
        put_option(&self.due, out);
        assert(self.due.deep_view() == self.due);
    }

    fn take<'a>(b: &'a [u8]) -> (r: Result<(AlarmForm, &'a [u8]), WireError>) {
        match take_option::<u64>(b) {
            Err(e) => Err(e),
            Ok((due, rest)) => {
                assert(due.deep_view() == due);
                Ok((AlarmForm { due }, rest))
            },
        }
    }
}

/// The deadline after one op.
pub open spec fn alarm_applied(due: Option<u64>, op: AlarmOp) -> Option<u64> {
    match op {
        AlarmOp::At(nanos) => Some(nanos),
        AlarmOp::Clear => None,
    }
}

/// The deadline as a command sees it.
pub open spec fn pending_after(due: Option<u64>, staged: Option<AlarmOp>) -> Option<u64> {
    match staged {
        Some(op) => alarm_applied(due, op),
        None => due,
    }
}

impl Facet for Alarm {
    type Form = AlarmForm;

    type Stage = AlarmStage;

    open spec fn tag() -> u8 {
        4
    }

    open spec fn physical() -> bool {
        false
    }

    open spec fn form_wf(form: AlarmForm) -> bool {
        true
    }

    open spec fn stage_wf(stage: AlarmStage) -> bool {
        true
    }

    open spec fn empty_form() -> Option<u64> {
        None
    }

    open spec fn empty_stage() -> Option<AlarmOp> {
        None
    }

    open spec fn begin_refusal(form: Option<u64>, present: bool) -> Option<Seq<char>> {
        None
    }

    open spec fn sealed(form: Option<u64>, stage: Option<AlarmOp>) -> Result<
        (Option<u64>, Option<AlarmOp>),
        Seq<char>,
    > {
        Ok((form, stage))
    }

    open spec fn drained(stage: Option<AlarmOp>) -> Seq<Seq<u8>> {
        match stage {
            Some(op) => seq![AlarmOp::enc(op)],
            None => seq![],
        }
    }

    open spec fn fold_ok(form: Option<u64>, payload: Seq<u8>) -> bool {
        true
    }

    open spec fn always_ok(payload: Seq<u8>) -> bool {
        true
    }

    proof fn always_ok_folds(form: Option<u64>, payload: Seq<u8>) {
    }

    open spec fn folded(form: Option<u64>, payload: Seq<u8>) -> Result<Option<u64>, Seq<char>> {
        match payload_of::<AlarmOp>("alarm record"@, payload) {
            Ok(op) => Ok(alarm_applied(form, op)),
            Err(text) => Err(text),
        }
    }

    open spec fn snapped(form: Option<u64>) -> Result<Seq<u8>, Seq<char>> {
        Ok(AlarmForm::enc(form))
    }

    open spec fn restored(part: Option<Seq<u8>>) -> Result<Option<u64>, Seq<char>> {
        match part {
            Some(bytes) => payload_of::<AlarmForm>("alarm restore"@, bytes),
            None => Ok(None),
        }
    }

    open spec fn reborn(form: Option<u64>) -> Option<u64> {
        form
    }

    open spec fn keeps(form: Option<u64>) -> bool {
        true
    }

    proof fn snapshot_keeps(form: Option<u64>) {
        lemma_decoded::<AlarmForm>(form);
    }

    open spec fn discarded(form: Option<u64>) -> Option<u64> {
        form
    }

    open spec fn rooted(form: Option<u64>) -> Set<Seq<u8>> {
        Set::empty()
    }

    open spec fn due(form: Option<u64>) -> Option<u64> {
        form
    }

    open spec fn alarm_consumed(stage: Option<AlarmOp>) -> Option<AlarmOp> {
        Some(AlarmOp::Clear)
    }

    fn tag_value() -> (r: u8) {
        4
    }

    fn is_physical() -> (r: bool) {
        false
    }

    fn new_form() -> (r: AlarmForm) {
        AlarmForm::default()
    }

    fn new_stage() -> (r: AlarmStage) {
        AlarmStage::default()
    }

    fn begin(form: &AlarmForm, present: bool) -> (r: Result<(), FacetError>) {
        Ok(())
    }

    fn seal(form: &mut AlarmForm, stage: &mut AlarmStage) -> (r: Result<(), FacetError>) {
        Ok(())
    }

    fn drain(stage: AlarmStage) -> (r: Vec<Vec<u8>>) {
        let mut out: Vec<Vec<u8>> = Vec::new();
        if let Some(op) = &stage.op {
            let payload = encode_payload(op);
            assert(payload.deep_view() =~= payload@);
            out.push(payload);
        }
        assert(out.deep_view() =~= Self::drained(stage.op));
        out
    }

    fn foldable(form: &AlarmForm, payload: &[u8]) -> (r: bool) {
        true
    }

    fn always_foldable(payload: &[u8]) -> (r: bool) {
        true
    }

    fn fold(form: &mut AlarmForm, payload: &[u8]) -> (r: Result<(), FacetError>) {
        match decode_payload::<AlarmOp>("alarm record", payload) {
            Err(e) => Err(e),
            Ok(op) => {
                match op {
                    AlarmOp::At(nanos) => {
                        form.due = Some(nanos);
                    },
                    AlarmOp::Clear => {
                        form.due = None;
                    },
                }
                Ok(())
            },
        }
    }

    fn snapshot(form: &AlarmForm) -> (r: Result<Vec<u8>, FacetError>) {
        Ok(encode_payload(form))
    }

    fn restore(part: Option<&[u8]>) -> (r: Result<AlarmForm, FacetError>) {
        match part {
            Some(bytes) => decode_payload::<AlarmForm>("alarm restore", bytes),
            None => Ok(AlarmForm::default()),
        }
    }

    fn discard(form: &mut AlarmForm) {
    }

    fn roots(form: &AlarmForm) -> (r: OrdSet<BlobId>) {
        OrdSet::new()
    }

    fn alarm_due(form: &AlarmForm) -> (r: Option<u64>) {
        form.due
    }

    fn stage_clear_alarm(stage: &mut AlarmStage) {
        stage.op = Some(AlarmOp::Clear);
    }
}

/// A command's view of its grain's alarm, at the time `now` (in nanoseconds).
pub struct AlarmHandle<'a> {
    pub form: &'a AlarmForm,
    pub stage: AlarmStage,
    pub now: u64,
}

impl<'a> AlarmHandle<'a> {
    /// The deadline as the command sees it: a staged change wins over the committed
    /// deadline.
    pub fn pending(&self) -> (r: Option<u64>)
        ensures
            r == pending_after(self.form.due, self.stage.op),
    {
        match self.stage.op {
            Some(AlarmOp::At(nanos)) => Some(nanos),
            Some(AlarmOp::Clear) => None,
            None => self.form.due,
        }
    }

    /// Arm the alarm for `at`, in place of any earlier deadline.
    pub fn set_at(&mut self, at: u64)
        ensures
            final(self).form == old(self).form,
            final(self).now == old(self).now,
            final(self).stage.op == Some(AlarmOp::At(at)),
    {
        self.stage.op = Some(AlarmOp::At(at));
    }

    /// Arm the alarm for `after` nanoseconds from now.
    pub fn set_after(&mut self, after: u64)
        requires
            old(self).now + after <= u64::MAX,
        ensures
            final(self).form == old(self).form,
            final(self).now == old(self).now,
            final(self).stage.op == Some(AlarmOp::At((old(self).now + after) as u64)),
    {
        let at: u64 = self.now + after;
        self.set_at(at);
    }

    /// Cancel the alarm.
    pub fn clear(&mut self)
        ensures
            final(self).form == old(self).form,
            final(self).now == old(self).now,
            final(self).stage.op == Some(AlarmOp::Clear),
    {
        self.stage.op = Some(AlarmOp::Clear);
    }
}

// ---- Laws ----

/// Folding a command's records gives the deadline that the command saw.
pub proof fn law_folding_the_records_gives_what_the_command_saw(
    due: Option<u64>,
    staged: Option<AlarmOp>,
)
    ensures
        replayed::<Alarm>(due, Alarm::drained(staged)) == Ok::<Option<u64>, Seq<char>>(
            pending_after(due, staged),
        ),
{
    if let Some(op) = staged {
        lemma_decoded::<AlarmOp>(op);
        let payloads = Alarm::drained(staged);
        assert(payloads[0] == AlarmOp::enc(op));
        assert(payloads.skip(1) =~= seq![]);
        assert(replayed::<Alarm>(alarm_applied(due, op), payloads.skip(1)) == Ok::<
            Option<u64>,
            Seq<char>,
        >(alarm_applied(due, op)));
    }
}

/// A fired alarm is gone once its command commits, unless the handler arms it again.
pub proof fn law_a_fired_alarm_is_consumed(due: Option<u64>, staged: Option<AlarmOp>, again: u64)
    ensures
        pending_after(due, Alarm::alarm_consumed(staged)) is None,
        pending_after(due, Some(AlarmOp::At(again))) == Some(again),
{
}

/// A deadline restores from its own snapshot contribution.
pub proof fn law_snapshot_round_trips(due: Option<u64>)
    ensures
        Alarm::snapped(due) is Ok,
        Alarm::restored(Some(Alarm::snapped(due)->Ok_0)) == Ok::<Option<u64>, Seq<char>>(due),
{
    lemma_decoded::<AlarmForm>(due);
}

/// The alarm's deadline is the last one armed, in a command and once its records are
/// folded; a cancelled one is gone; a command that touches nothing leaves it, and adds no
/// record.
pub proof fn law_the_last_change_to_the_alarm_counts(due: Option<u64>, at: u64)
    ensures
        Alarm::tag() == 4,
        !Alarm::physical(),
        Alarm::empty_form() is None,
        Alarm::due(due) == due,
        Alarm::discarded(due) == due,
        Alarm::drained(None).len() == 0,
        pending_after(due, None) == due,
        pending_after(due, Some(AlarmOp::At(at))) == Some(at),
        pending_after(due, Some(AlarmOp::Clear)) is None,
        replayed::<Alarm>(due, Alarm::drained(Some(AlarmOp::At(at)))) == Ok::<
            Option<u64>,
            Seq<char>,
        >(Some(at)),
        replayed::<Alarm>(due, Alarm::drained(Some(AlarmOp::Clear))) == Ok::<
            Option<u64>,
            Seq<char>,
        >(None),
{
    law_folding_the_records_gives_what_the_command_saw(due, Some(AlarmOp::At(at)));
    law_folding_the_records_gives_what_the_command_saw(due, Some(AlarmOp::Clear));
}

/// An alarm's record is the number of its kind and, if it arms, the deadline; its snapshot
/// is whether there is a deadline, and which.
pub proof fn law_alarm_records_are_laid_out(at: u64)
    ensures
        AlarmOp::enc(AlarmOp::At(at)) == u32::enc(0) + u64::enc(at),
        AlarmOp::enc(AlarmOp::Clear) == u32::enc(1),
        AlarmForm::enc(None) == seq![0u8],
        AlarmForm::enc(Some(at)) == seq![1u8] + u64::enc(at),
{
}

/// A record of a kind that is not known is refused.
pub proof fn law_unknown_kinds_are_refused(kind: u32, rest: Seq<u8>)
    requires
        kind > 1,
    ensures
        AlarmOp::dec(u32::enc(kind) + rest) is Err,
{
    u32::round_trip(kind, rest);
}

/// Every record of the alarm can be folded into whatever deadline.
pub proof fn law_every_record_can_be_folded(due: Option<u64>, payload: Seq<u8>)
    ensures
        Alarm::fold_ok(due, payload),
        Alarm::always_ok(payload),
{
}

/// A form stands for its deadline, and a stage for its change.
pub proof fn law_views_of_the_alarm_leave_nothing_out(form: AlarmForm, stage: AlarmStage)
    ensures
        form.deep_view() == form.due,
        stage.deep_view() == stage.op,
{
}

} // verus!
