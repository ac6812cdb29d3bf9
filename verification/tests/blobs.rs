//! Content ids, and the checks around reading a blob.
use granary::blobs::finish_get;
use granary::blobs::into_grain_error;
use granary::blobs::slice_range;
use granary::blobs::BlobId;
use granary::error::GrainError;
use granary::facet_blobs::scratch_name;
use granary::facet_blobs::set_of;
use granary::facet_blobs::RootSet;
use granary::grain::GrainName;
use granary::journal::GrainJournalError;

#[test]
fn id_is_the_blake3_digest_and_dedups_equal_content() {
    // Equal content addresses one blob; different content, different ids.
    assert_eq!(BlobId::of(b"abc"), BlobId::of(b"abc"));
    assert_ne!(BlobId::of(b"abc"), BlobId::of(b"abd"));
    assert_eq!(BlobId::of(b"abc"), BlobId::from_bytes(*blake3::hash(b"abc").as_bytes()));
}

#[test]
fn id_round_trips_through_hex_and_raw_bytes() {
    let id = BlobId::of(b"some bytes");
    // The raw digest round-trips.
    assert_eq!(BlobId::from_bytes(*id.as_bytes()), id);
    // The text is a 64-char lowercase hex string.
    let hex = id.to_hex();
    assert_eq!(hex.len(), 64);
    assert!(hex.chars().all(|c| c.is_ascii_hexdigit() && !c.is_ascii_uppercase()));
    assert_eq!(id.debug_text(), format!("BlobId({hex})"));
    assert_eq!(BlobId::from_hex(&hex), Some(id));
}

#[test]
fn a_text_that_is_no_id_is_refused() {
    let hex = BlobId::of(b"x").to_hex();
    assert_eq!(BlobId::from_hex(""), None);
    assert_eq!(BlobId::from_hex(&hex[1..]), None);
    assert_eq!(BlobId::from_hex(&hex.to_uppercase()), None);
    assert_eq!(BlobId::from_hex(&hex.replace(|c: char| c.is_ascii_digit(), "g")), None);
}

#[test]
fn the_empty_blob_has_its_known_digest() {
    assert_eq!(
        BlobId::of(b"").to_hex(),
        "af1349b9f5f9a1a6a0404dea36dcc9499bcb25c9adc112b7cc9a93cae41f3262"
    );
}

#[test]
fn a_read_verifies_its_bytes() {
    let id = BlobId::of(b"content");
    assert!(id.verifies(b"content"));
    assert!(!id.verifies(b"contenu"));
}

#[test]
fn a_range_is_clamped_to_the_blob() {
    let bytes = b"0123456789".to_vec();
    assert_eq!(slice_range(bytes.clone(), None), bytes);
    assert_eq!(slice_range(bytes.clone(), Some((2, 5))), b"234".to_vec());
    assert_eq!(slice_range(bytes.clone(), Some((8, 100))), b"89".to_vec());
    assert_eq!(slice_range(bytes.clone(), Some((7, 3))), Vec::<u8>::new());
    assert_eq!(slice_range(bytes, Some((u64::MAX, u64::MAX))), Vec::<u8>::new());
}

#[test]
fn a_finished_read_is_the_range_or_the_failure() {
    let id = BlobId::of(b"hello");
    assert_eq!(
        finish_get(&id, Ok(Some(b"hello".to_vec())), Some((1, 4))),
        Ok(b"ell".to_vec())
    );
    assert_eq!(
        finish_get(&id, Ok(None), None),
        Err(GrainError::Unavailable(format!("blob {} not found", id.to_hex())))
    );
    let failed = finish_get(&id, Err(GrainJournalError::Unavailable("gone".into())), None);
    assert_eq!(failed, Err(into_grain_error(GrainJournalError::Unavailable("gone".into()))));
}

#[test]
fn a_root_set_resets_and_extends() {
    let (a, b) = (BlobId::of(b"a"), BlobId::of(b"b"));
    let mut roots = RootSet::default();
    assert!(roots.ids().is_empty());
    roots.reset(&vec![a]);
    roots.extend(&vec![b, a]);
    assert_eq!(roots.ids(), set_of(&vec![a, b]));
    roots.reset(&vec![b]);
    assert!(!roots.ids().contains(&a));
}

#[test]
fn a_scratch_name_is_the_digest_of_the_grains_name() {
    let name = GrainName::new("t", "any/../key");
    assert_eq!(
        scratch_name(&name, "disk"),
        format!("{}.disk", BlobId::of(b"t/any/../key").to_hex())
    );
}
