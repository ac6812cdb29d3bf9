//! The KV facet: an ordered map of small values on the grain.
//!
//! Its records are puts and deletes, folded into the map; a snapshot contribution
//! is the encoded map. A value above [`INLINE_MAX`] spills into the grain's blob
//! area and the map keeps its id, so the spilled ids are the facet's blob roots.
//! Writes stage in a per-command overlay that reads see through.
use vstd::prelude::*;

use crate::blobs::blake3_digest;
use crate::blobs::BlobId;
use crate::facet::decode_payload;
use crate::facet::encode_payload;
use crate::facet::payload_of;
use crate::facet::replayed;
use crate::facet::Facet;
use crate::facet::FacetError;
use crate::ordmap::ascending;
use crate::ordmap::Dup;
use crate::ordmap::OrdMap;
use crate::ordmap::OrdSet;
use crate::text::chars_of;
use crate::text::has_prefix;
use crate::text::starts_with;
use crate::wire::dec_map;
use crate::wire::enc_map;
use crate::wire::fits_map;
use crate::wire::lemma_decoded;
use crate::wire::lemma_map;
use crate::wire::lemma_sorted_keys;
use crate::wire::put_map;
use crate::wire::sorted_keys;
use crate::wire::sorted_pairs;
use crate::wire::take_map;
use crate::wire::Decoded;
use crate::wire::Wire;
use crate::wire::WireError;

verus! {

/// Values of at most this many bytes stay in the map; larger ones spill.
pub const INLINE_MAX: usize = 65536;

/// The KV facet.
pub struct Kv;

/// One stored value: its bytes, or the id of its spilled bytes and their length.
#[derive(Clone, Debug, PartialEq, Eq)]
pub enum KvValue {
    Inline(Vec<u8>),
    Spilled { id: BlobId, len: u64 },
}

#[verifier::ext_equal]
pub enum KvModel {
    Inline(Seq<u8>),
    Spilled { id: Seq<u8>, len: u64 },
}

impl DeepView for KvValue {
    type V = KvModel;

    open spec fn deep_view(&self) -> KvModel {
        match *self {
            KvValue::Inline(bytes) => KvModel::Inline(bytes@),
            KvValue::Spilled { id, len } => KvModel::Spilled { id: id@, len },
        }
    }
}

/// How long a value is, without fetching it.
pub open spec fn value_len(value: KvModel) -> nat {
    match value {
        KvModel::Inline(bytes) => bytes.len(),
        KvModel::Spilled { len, .. } => len as nat,
    }
}

impl KvValue {
    pub fn len(&self) -> (r: u64)
        ensures
            r == value_len(self.deep_view()),
    {
        match self {
            KvValue::Inline(bytes) => bytes.len() as u64,
            KvValue::Spilled { len, .. } => *len,
        }
    }
}

/// A byte string equal to another.
pub fn copy_bytes(bytes: &Vec<u8>) -> (r: Vec<u8>)
    ensures
        r@ == bytes@,
{
    vstd::slice::slice_to_vec(bytes.as_slice())
}

impl Dup for KvValue {
    open spec fn dup_inv(&self) -> bool {
        true
    }

    fn dup(&self) -> (r: KvValue) {
        match self {
            KvValue::Inline(bytes) => KvValue::Inline(copy_bytes(bytes)),
            KvValue::Spilled { id, len } => KvValue::Spilled { id: *id, len: *len },
        }
    }
}

impl Wire for KvValue {
    open spec fn wire_inv(&self) -> bool {
        true
    }

    open spec fn fits(m: KvModel) -> bool {
        match m {
            KvModel::Inline(bytes) => bytes.len() <= usize::MAX,
            KvModel::Spilled { id, .. } => id.len() == 32,
        }
    }

    open spec fn enc(m: KvModel) -> Seq<u8> {
        match m {
            KvModel::Inline(bytes) => u32::enc(0) + <Vec<u8> as Wire>::enc(bytes),
            KvModel::Spilled { id, len } => u32::enc(1) + (BlobId::enc(id) + u64::enc(len)),
        }
    }

    open spec fn dec(b: Seq<u8>) -> Decoded<KvModel> {
        match u32::dec(b) {
            Err(e) => Err(e),
            Ok((index, rest)) => if index == 0 {
                match <Vec<u8> as Wire>::dec(rest) {
                    Err(e) => Err(e),
                    Ok((bytes, after)) => Ok((KvModel::Inline(bytes), after)),
                }
            } else if index == 1 {
                match <(BlobId, u64) as Wire>::dec(rest) {
                    Err(e) => Err(e),
                    Ok(((id, len), after)) => Ok((KvModel::Spilled { id, len }, after)),
                }
            } else {
                Err(WireError::BadValue)
            },
        }
    }

    proof fn round_trip(m: KvModel, rest: Seq<u8>) {
        match m {
            KvModel::Inline(bytes) => {
                let body = <Vec<u8> as Wire>::enc(bytes);
                assert(Self::enc(m) + rest =~= u32::enc(0) + (body + rest));
                u32::round_trip(0, body + rest);
                <Vec<u8> as Wire>::round_trip(bytes, rest);
            },
            KvModel::Spilled { id, len } => {
                let body = <(BlobId, u64) as Wire>::enc((id, len));
                assert(Self::enc(m) + rest =~= u32::enc(1) + (body + rest));
                u32::round_trip(1, body + rest);
                <(BlobId, u64) as Wire>::round_trip((id, len), rest);
            },
        }
    }

    fn put(&self, out: &mut Vec<u8>) {
        let ghost before = out@;
        match self {
            KvValue::Inline(bytes) => {
                0u32.put(out);
                bytes.put(out);
                assert(bytes.deep_view() =~= bytes@);
            },
            KvValue::Spilled { id, len } => {
                1u32.put(out);
                id.put(out);
                len.put(out);
            },
        }
        assert(out@ =~= before + Self::enc(self.deep_view()));
    }

    fn take<'a>(b: &'a [u8]) -> (r: Result<(KvValue, &'a [u8]), WireError>) {
        match u32::take(b) {
            Err(e) => Err(e),
            Ok((index, rest)) => if index == 0 {
                match <Vec<u8> as Wire>::take(rest) {
                    Err(e) => Err(e),
                    Ok((bytes, after)) => {
                        assert(bytes.deep_view() =~= bytes@);
                        Ok((KvValue::Inline(bytes), after))
                    },
                }
            } else if index == 1 {
                match <(BlobId, u64) as Wire>::take(rest) {
                    Err(e) => Err(e),
                    Ok(((id, len), after)) => Ok((KvValue::Spilled { id, len }, after)),
                }
            } else {
                Err(WireError::BadValue)
            },
        }
    }
}

/// One record: the unit of durable change.
#[derive(Clone, Debug, PartialEq, Eq)]
pub enum KvOp {
    Put { key: String, value: KvValue },
    Delete { key: String },
}

#[verifier::ext_equal]
pub enum KvOpModel {
    Put { key: Seq<char>, value: KvModel },
    Delete { key: Seq<char> },
}

impl DeepView for KvOp {
    type V = KvOpModel;

    open spec fn deep_view(&self) -> KvOpModel {
        match *self {
            KvOp::Put { key, value } => KvOpModel::Put { key: key@, value: value.deep_view() },
            KvOp::Delete { key } => KvOpModel::Delete { key: key@ },
        }
    }
}

impl Wire for KvOp {
    open spec fn wire_inv(&self) -> bool {
        true
    }

    open spec fn fits(m: KvOpModel) -> bool {
        match m {
            KvOpModel::Put { key, value } => String::fits(key) && KvValue::fits(value),
            KvOpModel::Delete { key } => String::fits(key),
        }
    }

    open spec fn enc(m: KvOpModel) -> Seq<u8> {
        match m {
            KvOpModel::Put { key, value } => u32::enc(0) + (String::enc(key) + KvValue::enc(value)),
            KvOpModel::Delete { key } => u32::enc(1) + String::enc(key),
        }
    }

    open spec fn dec(b: Seq<u8>) -> Decoded<KvOpModel> {
        match u32::dec(b) {
            Err(e) => Err(e),
            Ok((index, rest)) => if index == 0 {
                match <(String, KvValue) as Wire>::dec(rest) {
                    Err(e) => Err(e),
                    Ok(((key, value), after)) => Ok((KvOpModel::Put { key, value }, after)),
                }
            } else if index == 1 {
                match String::dec(rest) {
                    Err(e) => Err(e),
                    Ok((key, after)) => Ok((KvOpModel::Delete { key }, after)),
                }
            } else {
                Err(WireError::BadValue)
            },
        }
    }

    proof fn round_trip(m: KvOpModel, rest: Seq<u8>) {
        match m {
            KvOpModel::Put { key, value } => {
                let body = <(String, KvValue) as Wire>::enc((key, value));
                assert(Self::enc(m) + rest =~= u32::enc(0) + (body + rest));
                u32::round_trip(0, body + rest);
                <(String, KvValue) as Wire>::round_trip((key, value), rest);
            },
            KvOpModel::Delete { key } => {
                let body = String::enc(key);
                assert(Self::enc(m) + rest =~= u32::enc(1) + (body + rest));
                u32::round_trip(1, body + rest);
                String::round_trip(key, rest);
            },
        }
    }

    fn put(&self, out: &mut Vec<u8>) {
        let ghost before = out@;
        match self {
            KvOp::Put { key, value } => {
                0u32.put(out);
                key.put(out);
                value.put(out);
            },
            KvOp::Delete { key } => {
                1u32.put(out);
                key.put(out);
            },
        }
        assert(out@ =~= before + Self::enc(self.deep_view()));
    }

    fn take<'a>(b: &'a [u8]) -> (r: Result<(KvOp, &'a [u8]), WireError>) {
        match u32::take(b) {
            Err(e) => Err(e),
            Ok((index, rest)) => if index == 0 {
                match <(String, KvValue) as Wire>::take(rest) {
                    Err(e) => Err(e),
                    Ok(((key, value), after)) => Ok((KvOp::Put { key, value }, after)),
                }
            } else if index == 1 {
                match String::take(rest) {
                    Err(e) => Err(e),
                    Ok((key, after)) => Ok((KvOp::Delete { key }, after)),
                }
            } else {
                Err(WireError::BadValue)
            },
        }
    }
}

/// The committed form: the folded map.
#[derive(Clone, Debug, PartialEq, Eq)]
pub struct KvForm {
    pub map: OrdMap<String, KvValue>,
}

/// The per-command stage: what the command has put (`Some`) and deleted (`None`).
/// The last write to a key wins, as the fold would have it.
#[derive(Clone, Debug, PartialEq, Eq)]
pub struct KvStage {
    pub overlay: OrdMap<String, Option<KvValue>>,
}

impl DeepView for KvForm {
    type V = Map<Seq<char>, KvModel>;

    open spec fn deep_view(&self) -> Map<Seq<char>, KvModel> {
        self.map.deep_view()
    }
}

impl DeepView for KvStage {
    type V = Map<Seq<char>, Option<KvModel>>;

    open spec fn deep_view(&self) -> Map<Seq<char>, Option<KvModel>> {
        self.overlay.deep_view()
    }
}

impl Default for KvForm {
    fn default() -> (r: KvForm)
        ensures
            r.map.wf(),
            r.deep_view() == Map::<Seq<char>, KvModel>::empty(),
    {
        let r = KvForm { map: OrdMap::new() };
        assert(r.deep_view() =~= Map::<Seq<char>, KvModel>::empty());
        r
    }
}

impl Default for KvStage {
    fn default() -> (r: KvStage)
        ensures
            r.overlay.wf(),
            r.deep_view() == Map::<Seq<char>, Option<KvModel>>::empty(),
    {
        let r = KvStage { overlay: OrdMap::new() };
        assert(r.deep_view() =~= Map::<Seq<char>, Option<KvModel>>::empty());
        r
    }
}

impl Wire for KvForm {
    open spec fn wire_inv(&self) -> bool {
        self.map.wf()
    }

    open spec fn fits(m: Map<Seq<char>, KvModel>) -> bool {
        fits_map::<String, KvValue>(m)
    }

    open spec fn enc(m: Map<Seq<char>, KvModel>) -> Seq<u8> {
        enc_map::<String, KvValue>(m)
    }

    open spec fn dec(b: Seq<u8>) -> Decoded<Map<Seq<char>, KvModel>> {
        dec_map::<String, KvValue>(b)
    }

    proof fn round_trip(m: Map<Seq<char>, KvModel>, rest: Seq<u8>) {
        lemma_map::<String, KvValue>(m, rest);
    }

    fn put(&self, out: &mut Vec<u8>) {
        put_map(&self.map, out);
    }

    fn take<'a>(b: &'a [u8]) -> (r: Result<(KvForm, &'a [u8]), WireError>) {
        match take_map::<String, KvValue>(b) {
            Err(e) => Err(e),
            Ok((map, rest)) => Ok((KvForm { map }, rest)),
        }
    }
}

/// The map after one op.
pub open spec fn kv_applied(m: Map<Seq<char>, KvModel>, op: KvOpModel) -> Map<Seq<char>, KvModel> {
    match op {
        KvOpModel::Put { key, value } => m.insert(key, value),
        KvOpModel::Delete { key } => m.remove(key),
    }
}

/// The op that a staged write to a key becomes.
pub open spec fn op_for(key: Seq<char>, staged: Option<KvModel>) -> KvOpModel {
    match staged {
        Some(value) => KvOpModel::Put { key, value },
        None => KvOpModel::Delete { key },
    }
}

/// The committed map seen through a command's stage.
pub open spec fn merged(
    form: Map<Seq<char>, KvModel>,
    stage: Map<Seq<char>, Option<KvModel>>,
) -> Map<Seq<char>, KvModel> {
    Map::new(
        |k: Seq<char>| if stage.contains_key(k) {
            stage[k] is Some
        } else {
            form.contains_key(k)
        },
        |k: Seq<char>| if stage.contains_key(k) {
            stage[k]->0
        } else {
            form[k]
        },
    )
}

/// The ids of the spilled values.
pub open spec fn spilled_ids(m: Map<Seq<char>, KvModel>) -> Set<Seq<u8>> {
    Set::new(
        |id: Seq<u8>|
            exists|k: Seq<char>| #[trigger] m.contains_key(k) && spills_to(m[k], id),
    )
}

pub open spec fn spills_to(value: KvModel, id: Seq<u8>) -> bool {
    match value {
        KvModel::Inline(_) => false,
        KvModel::Spilled { id: held, .. } => held == id,
    }
}

impl Facet for Kv {
    type Form = KvForm;

    type Stage = KvStage;

    open spec fn tag() -> u8 {
        1
    }

    open spec fn physical() -> bool {
        false
    }

    open spec fn form_wf(form: KvForm) -> bool {
        form.map.wf()
    }

    open spec fn stage_wf(stage: KvStage) -> bool {
        stage.overlay.wf()
    }

    open spec fn empty_form() -> Map<Seq<char>, KvModel> {
        Map::empty()
    }

    open spec fn empty_stage() -> Map<Seq<char>, Option<KvModel>> {
        Map::empty()
    }

    open spec fn begin_refusal(form: Map<Seq<char>, KvModel>, present: bool) -> Option<Seq<char>> {
        None
    }

    /// One record per touched key, in key order.
    open spec fn sealed(
        form: Map<Seq<char>, KvModel>,
        stage: Map<Seq<char>, Option<KvModel>>,
    ) -> Result<
        (Map<Seq<char>, KvModel>, Map<Seq<char>, Option<KvModel>>),
        Seq<char>,
    > {
        Ok((form, stage))
    }

    open spec fn drained(stage: Map<Seq<char>, Option<KvModel>>) -> Seq<Seq<u8>> {
        sorted_pairs::<String, Option<KvModel>>(stage).map_values(
            |p: (Seq<char>, Option<KvModel>)| KvOp::enc(op_for(p.0, p.1)),
        )
    }

    open spec fn fold_ok(form: Map<Seq<char>, KvModel>, payload: Seq<u8>) -> bool {
        true
    }

    open spec fn always_ok(payload: Seq<u8>) -> bool {
        true
    }

    proof fn always_ok_folds(form: Map<Seq<char>, KvModel>, payload: Seq<u8>) {
    }

    open spec fn folded(form: Map<Seq<char>, KvModel>, payload: Seq<u8>) -> Result<
        Map<Seq<char>, KvModel>,
        Seq<char>,
    > {
        match payload_of::<KvOp>("kv record"@, payload) {
            Ok(op) => Ok(kv_applied(form, op)),
            Err(text) => Err(text),
        }
    }

    open spec fn snapped(form: Map<Seq<char>, KvModel>) -> Result<Seq<u8>, Seq<char>> {
        Ok(KvForm::enc(form))
    }

    open spec fn restored(part: Option<Seq<u8>>) -> Result<Map<Seq<char>, KvModel>, Seq<char>> {
        match part {
            Some(bytes) => payload_of::<KvForm>("kv restore"@, bytes),
            None => Ok(Map::empty()),
        }
    }

    open spec fn reborn(form: Map<Seq<char>, KvModel>) -> Map<Seq<char>, KvModel> {
        form
    }

    open spec fn keeps(form: Map<Seq<char>, KvModel>) -> bool {
        KvForm::fits(form)
    }

    proof fn snapshot_keeps(form: Map<Seq<char>, KvModel>) {
        lemma_decoded::<KvForm>(form);
    }

    open spec fn discarded(form: Map<Seq<char>, KvModel>) -> Map<Seq<char>, KvModel> {
        form
    }

    open spec fn rooted(form: Map<Seq<char>, KvModel>) -> Set<Seq<u8>> {
        spilled_ids(form)
    }

    open spec fn due(form: Map<Seq<char>, KvModel>) -> Option<u64> {
        None
    }

    open spec fn alarm_consumed(stage: Map<Seq<char>, Option<KvModel>>) -> Map<
        Seq<char>,
        Option<KvModel>,
    > {
        stage
    }

    fn tag_value() -> (r: u8) {
        1
    }

    fn is_physical() -> (r: bool) {
        false
    }

    fn new_form() -> (r: KvForm) {
        KvForm::default()
    }

    fn new_stage() -> (r: KvStage) {
        KvStage::default()
    }

    fn begin(form: &KvForm, present: bool) -> (r: Result<(), FacetError>) {
        Ok(())
    }

    fn seal(form: &mut KvForm, stage: &mut KvStage) -> (r: Result<(), FacetError>) {
        Ok(())
    }

    fn drain(stage: KvStage) -> (r: Vec<Vec<u8>>) {
        let ghost m = stage.deep_view();
        let ghost keys = stage.overlay.key_seq();
        let ghost want = Self::drained(m);
        let mut out: Vec<Vec<u8>> = Vec::new();
        let n: usize = stage.overlay.len();
        let mut i: usize = 0;
        proof {
            lemma_sorted_keys(&stage.overlay);
        }
        assert(out.deep_view() =~= want.take(0));
        while i < n
            invariant
                stage.overlay.wf(),
                m == stage.deep_view(),
                keys == stage.overlay.key_seq(),
                keys == sorted_keys::<String, Option<KvModel>>(m),
                want == Self::drained(m),
                n == keys.len(),
                want.len() == n,
                i <= n,
                out.deep_view() == want.take(i as int),
            decreases n - i,
        {
            let key = stage.overlay.key_at(i).clone();
            let ghost k = keys[i as int];
            let op = match stage.overlay.value_at(i) {
                Some(value) => KvOp::Put { key, value: value.dup() },
                None => KvOp::Delete { key },
            };
            assert(op.deep_view() == op_for(k, m[k]));
            let payload = encode_payload(&op);
            let ghost was = out.deep_view();
            out.push(payload);
            proof {
                assert(payload.deep_view() =~= payload@);
                assert(want[i as int] == KvOp::enc(op_for(k, m[k])));
                assert(out.deep_view() =~= was.push(want[i as int]));
                assert(want.take(i + 1) =~= want.take(i as int).push(want[i as int]));
            }
            i = i + 1;
        }
        assert(want.take(i as int) =~= want);
        out
    }

    fn foldable(form: &KvForm, payload: &[u8]) -> (r: bool) {
        true
    }

    fn always_foldable(payload: &[u8]) -> (r: bool) {
        true
    }

    fn fold(form: &mut KvForm, payload: &[u8]) -> (r: Result<(), FacetError>) {
        let ghost m = form.deep_view();
        match decode_payload::<KvOp>("kv record", payload) {
            Err(e) => Err(e),
            Ok(op) => {
                let ghost model = op.deep_view();
                match op {
                    KvOp::Put { key, value } => {
                        form.map.insert(key, value);
                    },
                    KvOp::Delete { key } => {
                        form.map.remove(&key);
                    },
                }
                assert(form.deep_view() =~= kv_applied(m, model));
                Ok(())
            },
        }
    }

    fn snapshot(form: &KvForm) -> (r: Result<Vec<u8>, FacetError>) {
        Ok(encode_payload(form))
    }

    fn restore(part: Option<&[u8]>) -> (r: Result<KvForm, FacetError>) {
        match part {
            Some(bytes) => decode_payload::<KvForm>("kv restore", bytes),
            None => Ok(KvForm::default()),
        }
    }

    fn discard(form: &mut KvForm) {
    }

    fn roots(form: &KvForm) -> (r: OrdSet<BlobId>) {
        let ghost m = form.deep_view();
        let ghost keys = form.map.key_seq();
        let mut ids: OrdSet<BlobId> = OrdSet::new();
        let n: usize = form.map.len();
        let mut i: usize = 0;
        while i < n
            invariant
                form.map.wf(),
                m == form.deep_view(),
                keys == form.map.key_seq(),
                n == keys.len(),
                i <= n,
                ids.wf(),
                forall|id: Seq<u8>| #[trigger] ids@.contains(id) ==> spilled_ids(m).contains(id),
                forall|j: int, id: Seq<u8>|
                    0 <= j < i && #[trigger] spills_to(m[keys[j]], id) ==> ids@.contains(id),
            decreases n - i,
        {
            let ghost k = keys[i as int];
            match form.map.value_at(i) {
                KvValue::Inline(_) => {
                    assert(m[k] is Inline);
                },
                KvValue::Spilled { id, .. } => {
                    assert(m.contains_key(k) && spills_to(m[k], id@));
                    ids.insert(*id);
                },
            }
            i = i + 1;
        }
        proof {
            form.map.lemma_keys();
            assert forall|id: Seq<u8>| spilled_ids(m).contains(id) implies ids@.contains(id) by {
                let k = choose|k: Seq<char>| #[trigger] m.contains_key(k) && spills_to(m[k], id);
                assert(form.map@.contains_key(k));
                let j = keys.index_of(k);
                assert(keys[j] == k);
                assert(spills_to(m[keys[j]], id));
            }
            assert(ids@ =~= spilled_ids(m));
        }
        ids
    }

    fn alarm_due(form: &KvForm) -> (r: Option<u64>) {
        None
    }

    fn stage_clear_alarm(stage: &mut KvStage) {
    }
}

// ---- The handle ----

/// What a read found: nothing, bytes at hand, or a blob to fetch.
#[derive(Clone, Debug, PartialEq, Eq)]
pub enum KvRead {
    Missing,
    Ready(Vec<u8>),
    Fetch(BlobId),
}

/// A value made ready to be put: how the map holds it, and the bytes to store in
/// the blob area before it does.
#[derive(Clone, Debug, PartialEq, Eq)]
pub struct Prepared {
    pub value: KvValue,
    pub blob: Option<Vec<u8>>,
}

/// A command's view of the map. Reads see the committed map through what the
/// command has staged; writes stage. Outside a command there is no stage, and a
/// write has nowhere to go.
pub struct KvHandle<'a> {
    pub form: &'a KvForm,
    pub stage: Option<KvStage>,
}

impl<'a> KvHandle<'a> {
    pub open spec fn wf(&self) -> bool {
        self.form.map.wf() && (self.stage is Some ==> self.stage->0.overlay.wf())
    }

    /// What the command has staged; nothing outside a command.
    pub open spec fn staged(&self) -> Map<Seq<char>, Option<KvModel>> {
        match self.stage {
            Some(stage) => stage.deep_view(),
            None => Map::empty(),
        }
    }

    /// The map as the command sees it.
    pub open spec fn seen(&self) -> Map<Seq<char>, KvModel> {
        merged(self.form.deep_view(), self.staged())
    }

    /// The value at `key` as the command sees it: a staged put or delete wins over
    /// the committed map.
    fn resolve(&self, key: &str) -> (r: Option<&KvValue>)
        requires
            self.wf(),
        ensures
            r is Some == self.seen().contains_key(key@),
            r is Some ==> r->0.deep_view() == self.seen()[key@],
    {
        let owned = key.to_owned();
        match &self.stage {
            Some(stage) => match stage.overlay.get(&owned) {
                Some(staged) => match staged {
                    Some(value) => Some(value),
                    None => None,
                },
                None => self.form.map.get(&owned),
            },
            None => self.form.map.get(&owned),
        }
    }

    /// The value at `key`.
    pub fn get(&self, key: &str) -> (r: KvRead)
        requires
            self.wf(),
        ensures
            match r {
                KvRead::Missing => !self.seen().contains_key(key@),
                KvRead::Ready(bytes) => self.seen().contains_key(key@) && self.seen()[key@]
                    == KvModel::Inline(bytes@),
                KvRead::Fetch(id) => self.seen().contains_key(key@) && self.seen()[key@] is Spilled
                    && self.seen()[key@]->id == id@,
            },
    {
        match self.resolve(key) {
            None => KvRead::Missing,
            Some(value) => match value {
                KvValue::Inline(bytes) => KvRead::Ready(copy_bytes(bytes)),
                KvValue::Spilled { id, .. } => KvRead::Fetch(*id),
            },
        }
    }

    pub fn contains(&self, key: &str) -> (r: bool)
        requires
            self.wf(),
        ensures
            r == self.seen().contains_key(key@),
    {
        self.resolve(key).is_some()
    }

    /// The length of `key`'s value, without fetching it.
    pub fn len_of(&self, key: &str) -> (r: Option<u64>)
        requires
            self.wf(),
        ensures
            r is Some == self.seen().contains_key(key@),
            r is Some ==> r->0 == value_len(self.seen()[key@]),
    {
        match self.resolve(key) {
            Some(value) => Some(value.len()),
            None => None,
        }
    }

    /// Decide how a value will be held: above [`INLINE_MAX`] bytes as a blob, which
    /// must be durable before the value is put.
    pub fn prepare(value: Vec<u8>) -> (r: Prepared)
        ensures
            value@.len() <= INLINE_MAX ==> r.value.deep_view() == KvModel::Inline(value@)
                && r.blob is None,
            value@.len() > INLINE_MAX ==> r.value.deep_view() == (KvModel::Spilled {
                id: blake3_digest(value@),
                len: value@.len() as u64,
            }) && r.blob == Some(value),
            r.blob is Some <==> value@.len() > 65536,
    {
        if value.len() > INLINE_MAX {
            let len: u64 = value.len() as u64;
            let id = BlobId::of(value.as_slice());
            Prepared { value: KvValue::Spilled { id, len }, blob: Some(value) }
        } else {
            Prepared { value: KvValue::Inline(value), blob: None }
        }
    }

    /// Stage `key = value`.
    pub fn put(&mut self, key: String, value: KvValue)
        requires
            old(self).wf(),
            old(self).stage is Some,
        ensures
            final(self).wf(),
            final(self).form == old(self).form,
            final(self).stage is Some,
            final(self).staged() == old(self).staged().insert(key@, Some(value.deep_view())),
            final(self).seen() == old(self).seen().insert(key@, value.deep_view()),
    {
        let ghost before = self.staged();
        proof {
            law_puts_and_deletes_are_those_of_a_map(
                self.form.deep_view(),
                before,
                key@,
                value.deep_view(),
            );
        }
        match self.stage.take() {
            Some(mut stage) => {
                let ghost k = key@;
                let ghost v = value.deep_view();
                stage.overlay.insert(key, Some(value));
                assert(stage.deep_view() =~= before.insert(k, Some(v)));
                self.stage = Some(stage);
            },
            None => {},
        }
    }

    /// Stage the removal of `key`.
    pub fn delete(&mut self, key: String)
        requires
            old(self).wf(),
            old(self).stage is Some,
        ensures
            final(self).wf(),
            final(self).form == old(self).form,
            final(self).stage is Some,
            final(self).staged() == old(self).staged().insert(key@, None),
            final(self).seen() == old(self).seen().remove(key@),
    {
        let ghost before = self.staged();
        proof {
            law_puts_and_deletes_are_those_of_a_map(
                self.form.deep_view(),
                before,
                key@,
                KvModel::Inline(seq![]),
            );
        }
        match self.stage.take() {
            Some(mut stage) => {
                let ghost k = key@;
                stage.overlay.insert(key, None);
                assert(stage.deep_view() =~= before.insert(k, None));
                self.stage = Some(stage);
            },
            None => {},
        }
    }

    /// The entries under `prefix` as the command sees them, in key order.
    pub fn merged_range(&self, prefix: &str) -> (r: OrdMap<String, KvValue>)
        requires
            self.wf(),
        ensures
            r.wf(),
            r.deep_view() == under_prefix(self.seen(), prefix@),
    {
        let wanted = chars_of(prefix);
        let ghost m = self.form.deep_view();
        let ghost keys = self.form.map.key_seq();
        let mut out: OrdMap<String, KvValue> = OrdMap::new();
        let n: usize = self.form.map.len();
        let mut i: usize = 0;
        while i < n
            invariant
                self.wf(),
                wanted@ == prefix@,
                m == self.form.deep_view(),
                keys == self.form.map.key_seq(),
                n == keys.len(),
                i <= n,
                out.wf(),
                forall|k: Seq<char>| #[trigger]
                    out.deep_view().contains_key(k) ==> m.contains_key(k) && has_prefix(k, prefix@)
                        && out.deep_view()[k] == m[k],
                forall|j: int|
                    0 <= j < i && has_prefix(#[trigger] keys[j], prefix@)
                        ==> out.deep_view().contains_key(keys[j]),
            decreases n - i,
        {
            let key = self.form.map.key_at(i);
            if starts_with(key.as_str(), &wanted) {
                let ghost was = out;
                let value = self.form.map.value_at(i).dup();
                let ghost v = value.deep_view();
                out.insert(key.clone(), value);
                assert(out.deep_view() =~= was.deep_view().insert(keys[i as int], v));
            }
            i = i + 1;
        }
        proof {
            self.form.map.lemma_keys();
            assert forall|k: Seq<char>| m.contains_key(k) && has_prefix(k, prefix@) implies
                #[trigger] out.deep_view().contains_key(k) by {
                assert(self.form.map@.contains_key(k));
                let j = keys.index_of(k);
                assert(keys[j] == k);
            }
        }
        match &self.stage {
            None => {
                assert(out.deep_view() =~= under_prefix(self.seen(), prefix@));
            },
            Some(stage) => {
                let ghost base = out.deep_view();
                let ghost s = stage.deep_view();
                let ghost touched = stage.overlay.key_seq();
                let count: usize = stage.overlay.len();
                let mut j: usize = 0;
                proof {
                    stage.overlay.lemma_keys();
                    assert(s.restrict(touched.take(0).to_set()) =~= Map::empty());
                    assert(out.deep_view() =~= under_prefix(
                        merged(m, s.restrict(touched.take(0).to_set())),
                        prefix@,
                    ));
                }
                while j < count
                    invariant
                        self.wf(),
                        self.stage == Some(*stage),
                        wanted@ == prefix@,
                        m == self.form.deep_view(),
                        s == stage.deep_view(),
                        touched == stage.overlay.key_seq(),
                        touched.no_duplicates(),
                        count == touched.len(),
                        j <= count,
                        out.wf(),
                        out.deep_view() == under_prefix(
                            merged(m, s.restrict(touched.take(j as int).to_set())),
                            prefix@,
                        ),
                    decreases count - j,
                {
                    let key = stage.overlay.key_at(j);
                    let ghost k = touched[j as int];
                    let ghost was = out;
                    let ghost now = s.restrict(touched.take(j as int).to_set());
                    let ghost next = s.restrict(touched.take(j + 1).to_set());
                    proof {
                        lemma_touch_one(s, touched, j as int);
                    }
                    let relevant: bool = starts_with(key.as_str(), &wanted);
                    match stage.overlay.value_at(j) {
                        Some(value) => {
                            assert(s[k] == Some(value.deep_view()));
                            if relevant {
                                let copy = value.dup();
                                let ghost v = copy.deep_view();
                                out.insert(key.clone(), copy);
                                assert(out.deep_view() =~= was.deep_view().insert(k, v));
                            }
                        },
                        None => {
                            assert(s[k] == None::<KvModel>);
                            if relevant {
                                out.remove(key);
                                assert(out.deep_view() =~= was.deep_view().remove(k));
                            }
                        },
                    }
                    assert(out.deep_view() =~= under_prefix(merged(m, next), prefix@));
                    j = j + 1;
                }
                proof {
                    assert(touched.take(j as int) =~= touched);
                    assert(s.restrict(touched.to_set()) =~= s);
                }
            },
        }
        out
    }

    /// The keys under `prefix` as the command sees them, in order.
    pub fn keys(&self, prefix: &str) -> (r: Vec<String>)
        requires
            self.wf(),
        ensures
            r.deep_view() == sorted_keys::<String, KvModel>(under_prefix(self.seen(), prefix@)),
            ascending::<String>(r.deep_view()),
            forall|k: Seq<char>| #[trigger]
                r.deep_view().contains(k) <==> self.seen().contains_key(k) && k.len()
                    >= prefix@.len() && k.take(prefix@.len() as int) == prefix@,
    {
        let entries = self.merged_range(prefix);
        let mut out: Vec<String> = Vec::new();
        let n: usize = entries.len();
        let mut i: usize = 0;
        proof {
            lemma_sorted_keys(&entries);
        }
        assert(out.deep_view() =~= entries.key_seq().take(0));
        while i < n
            invariant
                entries.wf(),
                n == entries.key_seq().len(),
                i <= n,
                out.deep_view() == entries.key_seq().take(i as int),
            decreases n - i,
        {
            let key = entries.key_at(i).clone();
            let ghost was = out.deep_view();
            out.push(key);
            assert(out.deep_view() =~= was.push(entries.key_seq()[i as int]));
            i = i + 1;
            assert(out.deep_view() =~= entries.key_seq().take(i as int));
        }
        assert(entries.key_seq().take(i as int) =~= entries.key_seq());
        proof {
            let m = under_prefix(self.seen(), prefix@);
            assert forall|k: Seq<char>| #[trigger] out.deep_view().contains(k) <==> self.seen(
            ).contains_key(k) && k.len() >= prefix@.len() && k.take(prefix@.len() as int)
                == prefix@ by {
                assert(out.deep_view().to_set().contains(k) <==> m.contains_key(k));
            }
        }
        out
    }

    /// The entries under `prefix` as the command sees them, in key order: the bytes
    /// at hand, or the blob to fetch.
    pub fn list(&self, prefix: &str) -> (r: Vec<(String, KvRead)>)
        requires
            self.wf(),
        ensures
            r@.len() == sorted_keys::<String, KvModel>(under_prefix(self.seen(), prefix@)).len(),
            forall|i: int|
                0 <= i < r@.len() ==> (#[trigger] r@[i]).0@ == sorted_keys::<String, KvModel>(
                    under_prefix(self.seen(), prefix@),
                )[i] && reads_as(r@[i].1, self.seen()[r@[i].0@]),
            forall|i: int|
                0 <= i < r@.len() ==> match (#[trigger] r@[i]).1 {
                    KvRead::Missing => false,
                    KvRead::Ready(bytes) => self.seen()[r@[i].0@] == KvModel::Inline(bytes@),
                    KvRead::Fetch(id) => self.seen()[r@[i].0@] matches KvModel::Spilled {
                        id: held,
                        ..
                    } && held == id@,
                },
    {
        let entries = self.merged_range(prefix);
        let ghost keys = entries.key_seq();
        let ghost m = entries.deep_view();
        let mut out: Vec<(String, KvRead)> = Vec::new();
        let n: usize = entries.len();
        let mut i: usize = 0;
        proof {
            lemma_sorted_keys(&entries);
        }
        while i < n
            invariant
                self.wf(),
                entries.wf(),
                keys == entries.key_seq(),
                m == entries.deep_view(),
                m == under_prefix(self.seen(), prefix@),
                n == keys.len(),
                i <= n,
                out@.len() == i,
                forall|j: int|
                    0 <= j < i ==> (#[trigger] out@[j]).0@ == keys[j] && reads_as(
                        out@[j].1,
                        self.seen()[out@[j].0@],
                    ),
            decreases n - i,
        {
            let key = entries.key_at(i).clone();
            let ghost k = keys[i as int];
            let value = entries.value_at(i);
            assert(m.contains_key(k) && m[k] == value.deep_view());
            assert(self.seen()[k] == value.deep_view());
            let read = match value {
                KvValue::Inline(bytes) => KvRead::Ready(copy_bytes(bytes)),
                KvValue::Spilled { id, .. } => KvRead::Fetch(*id),
            };
            out.push((key, read));
            i = i + 1;
        }
        out
    }
}

/// A read stands for a value: its bytes, or the blob they are in.
pub open spec fn reads_as(read: KvRead, value: KvModel) -> bool {
    match read {
        KvRead::Missing => false,
        KvRead::Ready(bytes) => value == KvModel::Inline(bytes@),
        KvRead::Fetch(id) => spills_to(value, id@),
    }
}

/// The entries whose keys begin with `prefix`.
pub open spec fn under_prefix(m: Map<Seq<char>, KvModel>, prefix: Seq<char>) -> Map<
    Seq<char>,
    KvModel,
> {
    m.restrict(Set::new(|k: Seq<char>| has_prefix(k, prefix)))
}

/// Considering one more staged key.
proof fn lemma_touch_one(s: Map<Seq<char>, Option<KvModel>>, touched: Seq<Seq<char>>, j: int)
    requires
        touched.no_duplicates(),
        0 <= j < touched.len(),
        s.contains_key(touched[j]),
    ensures
        s.restrict(touched.take(j + 1).to_set()) == s.restrict(touched.take(j).to_set()).insert(
            touched[j],
            s[touched[j]],
        ),
{
    let now = touched.take(j);
    let next = touched.take(j + 1);
    assert forall|k: Seq<char>| next.to_set().contains(k) == (now.to_set().contains(k) || k
        == touched[j]) by {
        if now.contains(k) {
            let i = now.index_of(k);
            assert(next[i] == k);
        }
        if k == touched[j] {
            assert(next[j] == k);
        }
        if next.contains(k) {
            let i = next.index_of(k);
            if i < j {
                assert(now[i] == k);
            }
        }
    }
    assert(s.restrict(next.to_set()) =~= s.restrict(now.to_set()).insert(touched[j], s[touched[j]]));
}

// ---- Laws ----

/// Every staged write can be encoded.
pub open spec fn stage_fits(stage: Map<Seq<char>, Option<KvModel>>) -> bool {
    forall|k: Seq<char>| #[trigger]
        stage.contains_key(k) ==> KvOp::fits(op_for(k, stage[k]))
}

proof fn lemma_replay_keys(
    form: Map<Seq<char>, KvModel>,
    stage: Map<Seq<char>, Option<KvModel>>,
    keys: Seq<Seq<char>>,
)
    requires
        keys.no_duplicates(),
        forall|i: int| 0 <= i < keys.len() ==> stage.contains_key(#[trigger] keys[i]),
        stage_fits(stage),
    ensures
        replayed::<Kv>(form, keys.map_values(|k: Seq<char>| KvOp::enc(op_for(k, stage[k]))))
            == Ok::<Map<Seq<char>, KvModel>, Seq<char>>(
            merged(form, stage.restrict(keys.to_set())),
        ),
    decreases keys.len(),
{
    let f = |k: Seq<char>| KvOp::enc(op_for(k, stage[k]));
    let payloads = keys.map_values(f);
    if keys.len() == 0 {
        assert(merged(form, stage.restrict(keys.to_set())) =~= form);
    } else {
        let k = keys[0];
        let rest = keys.skip(1);
        let op = op_for(k, stage[k]);
        lemma_decoded::<KvOp>(op);
        let next = kv_applied(form, op);
        assert(payloads[0] == KvOp::enc(op));
        assert(payloads.skip(1) =~= rest.map_values(f));
        assert forall|i: int| 0 <= i < rest.len() implies stage.contains_key(#[trigger] rest[i]) by {
            assert(rest[i] == keys[i + 1]);
        }
        lemma_replay_keys(next, stage, rest);
        assert forall|c: Seq<char>| keys.to_set().contains(c) == (rest.to_set().contains(c) || c
            == k) by {
            if rest.contains(c) {
                let i = rest.index_of(c);
                assert(keys[i + 1] == c);
            }
            if c == k {
                assert(keys[0] == c);
            }
            if keys.contains(c) {
                let i = keys.index_of(c);
                if i > 0 {
                    assert(rest[i - 1] == c);
                }
            }
        }
        assert(!rest.contains(k)) by {
            if rest.contains(k) {
                let i = rest.index_of(k);
                assert(keys[i + 1] == keys[0]);
            }
        }
        assert(merged(next, stage.restrict(rest.to_set())) =~= merged(
            form,
            stage.restrict(keys.to_set()),
        ));
    }
}

/// What a command saw through its stage is what the map holds once the command's
/// records have been folded, live or on replay.
pub proof fn law_folding_the_records_gives_what_the_command_saw(form: KvForm, stage: KvStage)
    requires
        stage.overlay.wf(),
        stage_fits(stage.deep_view()),
    ensures
        replayed::<Kv>(form.deep_view(), Kv::drained(stage.deep_view())) == Ok::<
            Map<Seq<char>, KvModel>,
            Seq<char>,
        >(merged(form.deep_view(), stage.deep_view())),
{
    let m = stage.deep_view();
    let keys = sorted_keys::<String, Option<KvModel>>(m);
    lemma_sorted_keys(&stage.overlay);
    stage.overlay.lemma_keys();
    assert forall|i: int| 0 <= i < keys.len() implies m.contains_key(#[trigger] keys[i]) by {
        assert(keys.to_set().contains(keys[i]));
    }
    lemma_replay_keys(form.deep_view(), m, keys);
    assert(Kv::drained(m) =~= keys.map_values(|k: Seq<char>| KvOp::enc(op_for(k, m[k]))));
    assert(m.restrict(keys.to_set()) =~= m);
}

/// A map restores from its own snapshot contribution.
pub proof fn law_snapshot_round_trips(form: KvForm)
    requires
        form.map.wf(),
        KvForm::fits(form.deep_view()),
    ensures
        Kv::snapped(form.deep_view()) is Ok,
        Kv::restored(Some(Kv::snapped(form.deep_view())->Ok_0)) == Ok::<
            Map<Seq<char>, KvModel>,
            Seq<char>,
        >(form.deep_view()),
{
    lemma_decoded::<KvForm>(form.deep_view());
}

/// A command reads what it has just put, and nothing where it has just deleted;
/// other keys are as they were.
pub proof fn law_commands_read_their_own_writes(
    form: Map<Seq<char>, KvModel>,
    stage: Map<Seq<char>, Option<KvModel>>,
    key: Seq<char>,
    staged: Option<KvModel>,
    other: Seq<char>,
)
    ensures
        merged(form, stage.insert(key, staged)).contains_key(key) == (staged is Some),
        staged is Some ==> merged(form, stage.insert(key, staged))[key] == staged->0,
        other != key ==> merged(form, stage.insert(key, staged)).contains_key(other) == merged(
            form,
            stage,
        ).contains_key(other),
        other != key && merged(form, stage).contains_key(other) ==> merged(
            form,
            stage.insert(key, staged),
        )[other] == merged(form, stage)[other],
{
}

/// A put inserts its key, a delete takes it away, in what the command sees and in what
/// folding the record leaves; nothing else changes.
pub proof fn law_puts_and_deletes_are_those_of_a_map(
    form: Map<Seq<char>, KvModel>,
    stage: Map<Seq<char>, Option<KvModel>>,
    key: Seq<char>,
    value: KvModel,
)
    ensures
        merged(form, Map::empty()) == form,
        merged(form, stage.insert(key, Some(value))) == merged(form, stage).insert(key, value),
        merged(form, stage.insert(key, None)) == merged(form, stage).remove(key),
        KvOp::fits(KvOpModel::Put { key, value }) ==> Kv::folded(
            form,
            KvOp::enc(KvOpModel::Put { key, value }),
        ) == Ok::<Map<Seq<char>, KvModel>, Seq<char>>(form.insert(key, value)),
        KvOp::fits(KvOpModel::Delete { key }) ==> Kv::folded(
            form,
            KvOp::enc(KvOpModel::Delete { key }),
        ) == Ok::<Map<Seq<char>, KvModel>, Seq<char>>(form.remove(key)),
{
    assert(merged(form, Map::empty()) =~= form);
    assert(merged(form, stage.insert(key, Some(value))) =~= merged(form, stage).insert(key, value));
    assert(merged(form, stage.insert(key, None)) =~= merged(form, stage).remove(key));
    if KvOp::fits(KvOpModel::Put { key, value }) {
        lemma_decoded::<KvOp>(KvOpModel::Put { key, value });
    }
    if KvOp::fits(KvOpModel::Delete { key }) {
        lemma_decoded::<KvOp>(KvOpModel::Delete { key });
    }
}

/// The facet's records carry its tag; it starts empty, keeps nothing outside its journal,
/// and refuses no command.
pub proof fn law_the_map_is_rebuilt_from_its_journal(form: Map<Seq<char>, KvModel>, present: bool)
    ensures
        Kv::tag() == 1,
        !Kv::physical(),
        Kv::empty_form() == Map::<Seq<char>, KvModel>::empty(),
        Kv::discarded(form) == form,
        Kv::due(form) is None,
        Kv::begin_refusal(form, present) is None,
        Kv::drained(Map::empty()).len() == 0,
{
    let keys = sorted_keys::<String, Option<KvModel>>(Map::empty());
    let none = Seq::<Seq<char>>::empty();
    assert(ascending::<String>(none) && none.to_set() =~= Map::<
        Seq<char>,
        Option<KvModel>,
    >::empty().dom());
    assert(keys.to_set() == Map::<Seq<char>, Option<KvModel>>::empty().dom());
    if keys.len() > 0 {
        assert(keys.to_set().contains(keys[0]));
    }
}

/// Every blob that a value of the map lies in is kept by a sweep, and no other is.
pub proof fn law_spilled_values_are_rooted(
    form: Map<Seq<char>, KvModel>,
    key: Seq<char>,
    id: Seq<u8>,
    len: u64,
)
    ensures
        form.contains_key(key) && form[key] == (KvModel::Spilled { id, len }) ==> Kv::rooted(
            form,
        ).contains(id),
        Kv::rooted(form).contains(id) ==> exists|k: Seq<char>, n: u64|
            form.contains_key(k) && #[trigger] holds_spilled(form[k], id, n),
{
    if form.contains_key(key) && form[key] == (KvModel::Spilled { id, len }) {
        assert(spills_to(form[key], id));
    }
    if Kv::rooted(form).contains(id) {
        let k = choose|k: Seq<char>| #[trigger] form.contains_key(k) && spills_to(form[k], id);
        assert(holds_spilled(form[k], id, form[k]->len));
    }
}

pub open spec fn holds_spilled(value: KvModel, id: Seq<u8>, len: u64) -> bool {
    value == (KvModel::Spilled { id, len })
}

/// A value's length is that of its bytes, wherever they lie.
pub proof fn law_a_values_length_is_that_of_its_bytes(bytes: Seq<u8>, id: Seq<u8>, len: u64)
    ensures
        value_len(KvModel::Inline(bytes)) == bytes.len(),
        value_len(KvModel::Spilled { id, len }) == len,
{
}

/// The entries under a prefix are those of the map whose keys begin with it.
pub proof fn law_a_prefix_selects_by_beginning(
    m: Map<Seq<char>, KvModel>,
    prefix: Seq<char>,
    key: Seq<char>,
)
    ensures
        under_prefix(m, prefix).contains_key(key) <==> m.contains_key(key) && exists|tail: Seq<char>|
            key == #[trigger] (prefix + tail),
        under_prefix(m, prefix).contains_key(key) ==> under_prefix(m, prefix)[key] == m[key],
        under_prefix(m, seq![]) == m,
{
    assert(key.take(0) =~= Seq::<char>::empty());
    if has_prefix(key, prefix) {
        assert(key =~= prefix + key.skip(prefix.len() as int));
    }
    if exists|tail: Seq<char>| key == #[trigger] (prefix + tail) {
        let tail = choose|tail: Seq<char>| key == #[trigger] (prefix + tail);
        assert(key.take(prefix.len() as int) =~= prefix);
    }
    assert forall|k: Seq<char>| has_prefix(k, seq![]) by {
        assert(k.take(0) =~= Seq::<char>::empty());
    }
    assert(under_prefix(m, seq![]) =~= m);
}

/// A record of the map: the number of its kind, the key and, for a put, the value; a value:
/// the number of its kind, and its bytes or its blob's id and length.
pub proof fn law_kv_records_are_laid_out(
    key: Seq<char>,
    value: KvModel,
    bytes: Seq<u8>,
    id: Seq<u8>,
    len: u64,
)
    ensures
        KvOp::enc(KvOpModel::Put { key, value }) == u32::enc(0) + (String::enc(key) + KvValue::enc(
            value,
        )),
        KvOp::enc(KvOpModel::Delete { key }) == u32::enc(1) + String::enc(key),
        KvValue::enc(KvModel::Inline(bytes)) == u32::enc(0) + <Vec<u8> as Wire>::enc(bytes),
        KvValue::enc(KvModel::Spilled { id, len }) == u32::enc(1) + (BlobId::enc(id) + u64::enc(
            len,
        )),
{
}

/// A record or a value of a kind that is not known is refused.
pub proof fn law_unknown_kinds_are_refused(kind: u32, rest: Seq<u8>)
    requires
        kind > 1,
    ensures
        KvOp::dec(u32::enc(kind) + rest) is Err,
        KvValue::dec(u32::enc(kind) + rest) is Err,
{
    u32::round_trip(kind, rest);
}

/// Every record of the map can be folded into whatever map.
pub proof fn law_every_record_can_be_folded(form: Map<Seq<char>, KvModel>, payload: Seq<u8>)
    ensures
        Kv::fold_ok(form, payload),
        Kv::always_ok(payload),
{
}

/// A snapshot of the map is the map.
pub proof fn law_a_snapshot_is_the_map(form: KvForm)
    requires
        form.map.wf(),
    ensures
        Kv::snapped(form.deep_view()) == Ok::<Seq<u8>, Seq<char>>(
            <OrdMap<String, KvValue> as Wire>::enc(form.map.deep_view()),
        ),
{
}

/// A form stands for its map, and a stage for its overlay: all of it.
pub proof fn law_views_of_the_map_leave_nothing_out(form: KvForm, stage: KvStage, op: KvOp)
    ensures
        form.deep_view() == form.map.deep_view(),
        stage.deep_view() == stage.overlay.deep_view(),
        op matches KvOp::Put { key, value } ==> op.deep_view() == (KvOpModel::Put {
            key: key@,
            value: value.deep_view(),
        }),
        op matches KvOp::Delete { key } ==> op.deep_view() == (KvOpModel::Delete { key: key@ }),
{
}

} // verus!
