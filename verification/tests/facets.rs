//! Record envelopes, composite snapshots, and the key-value and alarm facets.
use granary::alarm::Alarm;
use granary::alarm::AlarmForm;
use granary::alarm::AlarmHandle;
use granary::alarm::AlarmStage;
use granary::blobs::BlobId;
use granary::facet::encode_payload;
use granary::facet::split_record;
use granary::facet::tag_record;
use granary::facet::valid_tags;
use granary::facet::Facet;
use granary::facet::FacetCell;
use granary::facet::FacetSet;
use granary::facet::EVENT_TAG;
use granary::facet::MAX_TAG;
use granary::facet_blobs::set_of;
use granary::kv::Kv;
use granary::kv::KvForm;
use granary::kv::KvHandle;
use granary::kv::KvOp;
use granary::kv::KvRead;
use granary::kv::KvStage;
use granary::kv::KvValue;
use granary::ordmap::OrdMap;
use granary::ordmap::OrdSet;
use granary::snapshot::admit_extensions;
use granary::snapshot::CompositeSnapshot;
use granary::snapshot::SnapshotBody;
use granary::snapshot::StateManifest;
use granary::snapshot::StatePayload;
use granary::snapshot::EXT_STATE_CHUNKS;
use granary::snapshot::INLINE_MAX;
use granary::stamp::stamp;
use granary::stamp::unstamp;
use granary::stamp::CRITICAL;
use granary::wire::from_bytes;
use std::collections::BTreeMap;

#[test]
fn record_envelope_round_trips() {
    let record = tag_record(3, &[1, 2, 3]);
    assert_eq!(record, vec![3, 1, 2, 3]);
    let (tag, payload) = split_record(&record).unwrap();
    assert_eq!(tag, 3);
    assert_eq!(payload, &[1, 2, 3]);
}

#[test]
fn empty_record_is_corrupt() {
    assert!(split_record(&[]).is_err());
}

#[test]
fn every_revision_1_record_is_already_stamped() {
    for tag in [EVENT_TAG, 1, 6, MAX_TAG] {
        let record = tag_record(tag, &[7]);
        assert_eq!(record.len(), 2, "revision 1 adds one byte, the tag");
        assert_eq!(split_record(&record).unwrap(), (tag, &[7][..]));
    }
}

#[test]
fn a_later_envelope_revision_is_refused_as_a_version_skew() {
    let err = split_record(&[0x80 | 2, 9, 9]).expect_err("revision 2 is unreadable here");
    assert!(
        err.0.contains("granary.record") && err.0.contains("v2"),
        "the refusal must name the boundary and the revision: {}",
        err.0
    );
}

#[test]
fn empty_set_rejects_every_nonzero_tag() {
    let mut forms = ();
    assert!(<() as FacetSet>::fold(&mut forms, 1, &[], false).is_err());
    assert!(<() as FacetSet>::fold(&mut forms, 7, &[], true).is_err());
}

fn composite() -> CompositeSnapshot {
    CompositeSnapshot {
        state: StatePayload::Inline(vec![9, 9]),
        facets: vec![(1, vec![4]), (2, vec![])],
    }
}

/// The inline bytes of a payload that did not travel by blob.
fn inline(payload: StatePayload) -> Vec<u8> {
    match payload {
        StatePayload::Inline(bytes) => bytes,
        StatePayload::Chunked(_) => panic!("expected an inline state"),
    }
}

/// A body with the state and facets of `composite`, as the format lays it out.
fn stamped_body(ext: BTreeMap<u16, Vec<u8>>) -> Vec<u8> {
    let facets: Vec<(u8, Vec<u8>)> = vec![(1, vec![4]), (2, vec![])];
    let body = (String::from("json"), (vec![9u8, 9], facets), ext);
    stamp(b"GRSNAP", 1, &postcard::to_allocvec(&body).unwrap())
}

#[test]
fn composite_snapshot_round_trips() {
    let bytes = composite().encode("json");
    assert!(bytes.starts_with(b"GRSNAP"), "the stamp leads the body");
    let back = CompositeSnapshot::decode(&bytes, "json").unwrap();
    assert_eq!(inline(back.state), vec![9, 9]);
    assert_eq!(back.facets, vec![(1, vec![4]), (2, vec![])]);
}

#[test]
fn a_snapshot_is_laid_out_as_its_format_says() {
    assert_eq!(composite().encode("json"), stamped_body(BTreeMap::new()));
}

#[test]
fn a_chunked_state_round_trips_as_a_manifest() {
    let ids = vec![BlobId::of(b"one"), BlobId::of(b"two")];
    let composite = CompositeSnapshot {
        state: StatePayload::Chunked(StateManifest { bytes: 7, chunks: ids.clone() }),
        facets: vec![(1, vec![4])],
    };
    let bytes = composite.encode("json");
    let back = CompositeSnapshot::decode(&bytes, "json").unwrap();
    assert_eq!(back.state.chunks(), ids);
    assert_eq!(back.facets, vec![(1, vec![4])]);
}

#[test]
fn a_chunked_state_costs_the_record_only_its_manifest() {
    // The snapshot record's size follows the number of chunks, not the size of the
    // state.
    let ids: Vec<BlobId> = (0u8..8).map(|i| BlobId::of(&[i])).collect();
    let chunked = CompositeSnapshot {
        state: StatePayload::Chunked(StateManifest { bytes: 8 * 64 * 1024, chunks: ids }),
        facets: Vec::new(),
    }
    .encode("json");
    assert!(
        chunked.len() < 512,
        "a manifest for 512 KiB of state took {} bytes",
        chunked.len()
    );
}

#[test]
fn a_snapshot_carrying_both_state_forms_is_refused() {
    // Neither form can be preferred without guessing, so the reader refuses.
    let mut ext = BTreeMap::new();
    ext.insert(
        EXT_STATE_CHUNKS,
        encode_payload(&StateManifest { bytes: 3, chunks: vec![BlobId::of(b"x")] }),
    );
    let bytes = stamped_body(ext);

    let err = CompositeSnapshot::decode(&bytes, "json")
        .err()
        .expect("an ambiguous state carriage must not decode");
    assert!(
        err.0.contains("both an inline state and a chunk manifest"),
        "the refusal must say what is ambiguous: {}",
        err.0
    );
}

#[test]
fn a_build_without_the_chunk_extension_refuses_a_chunked_snapshot() {
    // The key is critical, so a reader whose known-key list lacks it refuses the whole
    // snapshot instead of rebuilding the grain from the empty inline state.
    let bytes = CompositeSnapshot {
        state: StatePayload::Chunked(StateManifest { bytes: 3, chunks: vec![BlobId::of(b"x")] }),
        facets: Vec::new(),
    }
    .encode("json");
    let raw = unstamp("granary.snapshot", b"GRSNAP", 1, &bytes).unwrap();
    let body: SnapshotBody = from_bytes(raw).unwrap();

    let err = admit_extensions(&body.ext, "granary.snapshot", &vec![])
        .expect_err("a reader that lacks the key must refuse");
    assert!(err.0.contains("0x8001"), "the refusal must name the key: {}", err.0);
}

#[test]
fn a_snapshot_from_a_later_revision_is_refused_by_name() {
    let mut bytes = composite().encode("json");
    // A revision above the window, as a future release would write.
    bytes[6..8].copy_from_slice(&9u16.to_le_bytes());
    let err = CompositeSnapshot::decode(&bytes, "json")
        .err()
        .expect("an unreadable revision must not decode");
    assert!(
        err.0.contains("granary.snapshot") && err.0.contains("v9"),
        "the refusal must name the boundary and the revision: {}",
        err.0
    );
}

#[test]
fn unstamped_bytes_are_refused_rather_than_misparsed() {
    let err = CompositeSnapshot::decode(&[2, 9, 9, 0], "json")
        .err()
        .expect("unstamped bytes must not decode");
    assert!(
        err.0.contains("granary.snapshot"),
        "the refusal must name the boundary: {}",
        err.0
    );
}

#[test]
fn a_codec_change_is_reported_as_a_codec_change() {
    let bytes = composite().encode("json");
    let err = CompositeSnapshot::decode(&bytes, "postcard")
        .err()
        .expect("a codec change must not decode");
    assert!(
        err.0.contains("'json'") && err.0.contains("'postcard'"),
        "the refusal must name both codecs: {}",
        err.0
    );
}

#[test]
fn an_unknown_ancillary_snapshot_extension_is_ignored() {
    let mut ext = BTreeMap::new();
    ext.insert(0x0001u16, vec![1u8, 2, 3]);
    let back = CompositeSnapshot::decode(&stamped_body(ext), "json")
        .expect("an ancillary entry is skipped");
    assert_eq!(inline(back.state), vec![9, 9]);
}

#[test]
fn an_unknown_critical_snapshot_extension_is_refused() {
    let mut ext = BTreeMap::new();
    ext.insert(CRITICAL | 0x7, vec![]);
    let err = CompositeSnapshot::decode(&stamped_body(ext), "json")
        .err()
        .expect("a critical entry that is not known must be refused");
    assert!(
        err.0.contains("granary.snapshot") && err.0.contains("0x8007"),
        "the refusal must name the boundary and the key: {}",
        err.0
    );
}

#[test]
fn the_extension_area_costs_one_byte_while_empty() {
    let stamped = composite().encode("json");
    let facets: Vec<(u8, Vec<u8>)> = vec![(1, vec![4]), (2, vec![])];
    let bare = stamp(
        b"GRSNAP",
        1,
        &postcard::to_allocvec(&(String::from("json"), (vec![9u8, 9], facets))).unwrap(),
    );
    assert_eq!(stamped.len(), bare.len() + 1);
}

#[test]
fn a_truncated_snapshot_body_does_not_decode() {
    let bytes = composite().encode("json");
    let err = CompositeSnapshot::decode(&bytes[..bytes.len() - 1], "json").unwrap_err();
    assert!(err.0.starts_with("snapshot decode: "), "{}", err.0);
}

#[test]
fn a_large_state_travels_by_chunks_and_loads_back() {
    let state: Vec<u8> = (0..INLINE_MAX * 5).map(|i| (i * 31 % 251) as u8).collect();
    let none = OrdSet::new();
    let (payload, chunks) = StatePayload::store(state.clone(), &none);
    let ids = payload.chunks();
    assert!(!ids.is_empty());
    assert_eq!(chunks.concat(), state);
    assert_eq!(ids, chunks.iter().map(|c| BlobId::of(c)).collect::<Vec<_>>());
    assert_eq!(payload.clone().load(&chunks), Ok(state.clone()));
    // What is rooted already is not stored again.
    let (again, missing) = StatePayload::store(state, &set_of(&ids));
    assert_eq!(again, payload);
    assert!(missing.is_empty());
    // A state that comes back short is refused.
    let mut short = chunks;
    short.pop();
    assert!(payload.load(&short).is_err());
}

#[test]
fn a_small_state_stays_inline() {
    let (payload, chunks) = StatePayload::store(vec![7; INLINE_MAX], &OrdSet::new());
    assert_eq!(payload, StatePayload::Inline(vec![7; INLINE_MAX]));
    assert!(chunks.is_empty());
    assert_eq!(payload.load(&vec![]), Ok(vec![7; INLINE_MAX]));
}

// ---- Key-value ----

#[test]
fn ops_fold_into_the_map_and_round_trip_the_snapshot() {
    let mut form = KvForm::default();
    let put = encode_payload(&KvOp::Put { key: "a".into(), value: KvValue::Inline(vec![1]) });
    Kv::fold(&mut form, &put).unwrap();
    assert_eq!(form.map.get(&"a".to_string()), Some(&KvValue::Inline(vec![1])));

    let snapshot = encode_payload(&form);
    let restored: KvForm = from_bytes(&snapshot).unwrap();
    assert_eq!(restored.map, form.map);

    let delete = encode_payload(&KvOp::Delete { key: "a".into() });
    Kv::fold(&mut form, &delete).unwrap();
    assert!(form.map.is_empty());
}

#[test]
fn key_value_ops_are_laid_out_as_their_format_says() {
    let put = encode_payload(&KvOp::Put { key: "k".into(), value: KvValue::Inline(vec![1, 2]) });
    let laid_out = (0u32, String::from("k"), 0u32, vec![1u8, 2]);
    assert_eq!(put, postcard::to_allocvec(&laid_out).unwrap());
    let delete = encode_payload(&KvOp::Delete { key: "gone".into() });
    assert_eq!(delete, postcard::to_allocvec(&(1u32, String::from("gone"))).unwrap());
    let mut form = KvForm::default();
    form.map.insert("b".into(), KvValue::Inline(vec![3]));
    form.map.insert("a".into(), KvValue::Inline(vec![]));
    let mut map = BTreeMap::new();
    map.insert(String::from("b"), (0u32, vec![3u8]));
    map.insert(String::from("a"), (0u32, vec![]));
    assert_eq!(encode_payload(&form), postcard::to_allocvec(&map).unwrap());
}

#[test]
fn roots_are_exactly_the_spilled_ids() {
    let mut form = KvForm::default();
    let id = BlobId::of(b"big");
    form.map.insert("big".into(), KvValue::Spilled { id, len: 3 });
    form.map.insert("small".into(), KvValue::Inline(vec![0]));
    assert_eq!(Kv::roots(&form), set_of(&vec![id]));
}

#[test]
fn corrupt_record_is_a_facet_error() {
    let mut form = KvForm::default();
    assert!(Kv::fold(&mut form, &[0xFF, 0xFF, 0xFF]).is_err());
}

#[test]
fn a_command_reads_its_own_writes_and_leaves_the_form_alone() {
    let mut form = KvForm::default();
    form.map.insert("a/1".into(), KvValue::Inline(vec![1]));
    form.map.insert("a/2".into(), KvValue::Inline(vec![2]));
    form.map.insert("b".into(), KvValue::Inline(vec![3]));
    let mut kv = KvHandle { form: &form, stage: Some(KvStage::default()) };
    kv.put("a/3".into(), KvValue::Inline(vec![9, 9]));
    kv.delete("a/1".into());
    assert_eq!(kv.get("a/3"), KvRead::Ready(vec![9, 9]));
    assert_eq!(kv.get("a/1"), KvRead::Missing);
    assert!(!kv.contains("a/1"));
    assert_eq!(kv.len_of("a/3"), Some(2));
    assert_eq!(kv.keys("a/"), vec!["a/2".to_string(), "a/3".to_string()]);
    assert_eq!(kv.keys(""), vec!["a/2".to_string(), "a/3".to_string(), "b".to_string()]);
    assert_eq!(
        kv.list("a/"),
        vec![
            ("a/2".to_string(), KvRead::Ready(vec![2])),
            ("a/3".to_string(), KvRead::Ready(vec![9, 9])),
        ]
    );
    // Folding what the command staged gives what it saw.
    let records = Kv::drain(kv.stage.unwrap());
    for record in &records {
        Kv::fold(&mut form, record).unwrap();
    }
    assert_eq!(form.map.get(&"a/1".to_string()), None);
    assert_eq!(form.map.get(&"a/3".to_string()), Some(&KvValue::Inline(vec![9, 9])));
}

#[test]
fn a_large_value_spills_to_a_blob() {
    let value = vec![5u8; 65537];
    let prepared = KvHandle::prepare(value.clone());
    assert_eq!(prepared.value, KvValue::Spilled { id: BlobId::of(&value), len: 65537 });
    assert_eq!(prepared.blob, Some(value));
    let small = KvHandle::prepare(vec![5u8; 65536]);
    assert_eq!(small.value, KvValue::Inline(vec![5u8; 65536]));
    assert_eq!(small.blob, None);
    let mut form = KvForm::default();
    form.map.insert("v".into(), prepared.value);
    let kv = KvHandle { form: &form, stage: None };
    assert_eq!(kv.get("v"), KvRead::Fetch(BlobId::of(&vec![5u8; 65537])));
    assert_eq!(kv.len_of("v"), Some(65537));
}

// ---- Alarm ----

#[test]
fn an_alarm_is_set_cleared_and_replayed() {
    let mut form = AlarmForm::default();
    let mut alarm = AlarmHandle { form: &form, stage: AlarmStage::default(), now: 100 };
    assert_eq!(alarm.pending(), None);
    alarm.set_after(50);
    assert_eq!(alarm.pending(), Some(150));
    alarm.set_at(120);
    assert_eq!(alarm.pending(), Some(120));
    let records = Alarm::drain(alarm.stage);
    assert_eq!(records, vec![postcard::to_allocvec(&(0u32, 120u64)).unwrap()]);
    Alarm::fold(&mut form, &records[0]).unwrap();
    assert_eq!(form.due(), Some(120));
    let mut alarm = AlarmHandle { form: &form, stage: AlarmStage::default(), now: 130 };
    alarm.clear();
    assert_eq!(alarm.pending(), None);
    let records = Alarm::drain(alarm.stage);
    Alarm::fold(&mut form, &records[0]).unwrap();
    assert_eq!(form.due(), None);
    assert!(Alarm::fold(&mut form, &[7]).is_err());
}

// ---- Facet sets ----

#[test]
fn a_cell_folds_what_its_commands_staged() {
    let mut cell: FacetCell<(Kv, Alarm)> = FacetCell::new();
    assert!(cell.begin(true).is_ok());
    assert!(cell.seal_and_drain().unwrap().is_empty());
    let put = encode_payload(&KvOp::Put { key: "k".into(), value: KvValue::Inline(vec![1]) });
    cell.fold_replay(Kv::tag_value(), &put).unwrap();
    let form: &KvForm = cell.form::<Kv, granary::facet::Here>();
    assert_eq!(form.map.get(&"k".to_string()), Some(&KvValue::Inline(vec![1])));
    let due = postcard::to_allocvec(&(0u32, 77u64)).unwrap();
    cell.fold_live(Alarm::tag_value(), &due).unwrap();
    assert_eq!(cell.alarm_due(), Some(77));
    assert!(cell.fold_replay(0x3E, &[]).is_err(), "an undeclared tag is refused");
    let id = BlobId::of(b"chunk");
    cell.keep_state_chunks(&vec![id]);
    assert!(cell.roots().contains(&id));
}

#[test]
fn facet_tags_are_distinct_and_in_range() {
    assert!(valid_tags(&vec![1, 2, 3]));
    assert!(!valid_tags(&vec![1, 2, 1]));
    assert!(!valid_tags(&vec![0]));
    assert!(!valid_tags(&vec![0x80]));
    let tags = <(Kv, Alarm) as FacetSet>::tag_list();
    assert!(valid_tags(&tags));
}

#[test]
fn an_ordered_map_keeps_its_keys_in_order() {
    let mut map: OrdMap<u64, u8> = OrdMap::new();
    for k in [5u64, 1, 9, 3] {
        assert_eq!(map.insert(k, k as u8), None);
    }
    assert_eq!(map.insert(9, 90), Some(9));
    let keys: Vec<u64> = (0..map.len()).map(|i| *map.key_at(i)).collect();
    assert_eq!(keys, vec![1, 3, 5, 9]);
    *map.get_mut(&3).unwrap() = 33;
    assert_eq!(map.remove(&3), Some(33));
    assert!(!map.contains_key(&3));
}
