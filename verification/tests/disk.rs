//! The disk image facet: manifests, captures, imports and materialization.
use granary::blobs::BlobId;
use granary::disk::begin_staged_op;
use granary::disk::block_count;
use granary::disk::block_len;
use granary::disk::commit_staged_op;
use granary::disk::io_disk_err;
use granary::disk::io_facet_err;
use granary::disk::take_pending;
use granary::disk::CaptureStart;
use granary::disk::Capturing;
use granary::disk::Disk;
use granary::disk::DiskCaptureStats;
use granary::disk::DiskError;
use granary::disk::DiskForm;
use granary::disk::DiskHandle;
use granary::disk::DiskManifest;
use granary::disk::DiskStage;
use granary::disk::DiskState;
use granary::disk::Importing;
use granary::disk::Materializing;
use granary::disk::BLOCK_BYTES;
use granary::disk::MAX_IMAGE_BYTES;
use granary::facet::Facet;
use granary::wire::to_bytes;

/// An image of two and a half blocks.
fn image() -> Vec<u8> {
    (0..BLOCK_BYTES as usize * 5 / 2).map(|i| (i / 997 % 251) as u8).collect()
}

fn import(bytes: &[u8]) -> (DiskManifest, DiskCaptureStats) {
    let mut run = Importing::new(bytes.len() as u64).unwrap();
    let mut at = 0;
    while let Some(len) = run.next_len() {
        run.add_block(&bytes[at..at + len]);
        at += len;
    }
    assert_eq!(at, bytes.len());
    run.finish()
}

#[test]
fn blocks_cover_the_image() {
    assert_eq!(block_count(0), 0);
    assert_eq!(block_count(1), 1);
    assert_eq!(block_count(BLOCK_BYTES), 1);
    assert_eq!(block_count(BLOCK_BYTES + 1), 2);
    assert_eq!(block_count(u64::MAX), 1 << 44);
    assert_eq!(block_len(BLOCK_BYTES + 7, 0), BLOCK_BYTES as usize);
    assert_eq!(block_len(BLOCK_BYTES + 7, 1), 7);
}

#[test]
fn an_import_names_every_block() {
    let bytes = image();
    let (manifest, stats) = import(&bytes);
    assert_eq!(manifest.image_bytes, bytes.len() as u64);
    let step = BLOCK_BYTES as usize;
    assert_eq!(
        manifest.blocks,
        vec![
            (0, BlobId::of(&bytes[..step])),
            (1, BlobId::of(&bytes[step..2 * step])),
            (2, BlobId::of(&bytes[2 * step..])),
        ]
    );
    assert_eq!(stats, DiskCaptureStats { blocks: 3, bytes: bytes.len() as u64 });
    assert!(Importing::new(MAX_IMAGE_BYTES + 1).is_err());
}

#[test]
fn a_capture_names_only_what_changed() {
    let mut bytes = image();
    let (manifest, _) = import(&bytes);
    let mut state = DiskState::default();
    state.apply(&manifest, true);
    let digest = state.content_digest();
    let step = BLOCK_BYTES as usize;
    bytes[step + 5] ^= 1;
    let Ok(CaptureStart::Scan(mut run)) = Capturing::new(&state, bytes.len() as u64) else {
        panic!("the image has a committed size");
    };
    let mut at = 0;
    let mut changed = Vec::new();
    while let Some(len) = run.next_len() {
        changed.push(run.add_block(&bytes[at..at + len]));
        at += len;
    }
    assert_eq!(changed, vec![false, true, false]);
    let (delta, stats) = run.finish();
    let delta = delta.expect("one block changed");
    assert_eq!(delta.blocks, vec![(1, BlobId::of(&bytes[step..2 * step]))]);
    assert_eq!(stats, DiskCaptureStats { blocks: 1, bytes: BLOCK_BYTES });
    // The delta over the base is the whole image.
    state.apply(&delta, false);
    assert_eq!(state.manifest(), import(&bytes).0);
    assert_ne!(state.content_digest().to_hex(), digest.to_hex());
    // A capture of an image nobody imported, or of another size, is another matter.
    assert!(matches!(Capturing::new(&DiskState::default(), 5), Ok(CaptureStart::Empty)));
    assert!(Capturing::new(&state, 5).is_err());
}

#[test]
fn an_unchanged_image_has_nothing_to_record() {
    let bytes = image();
    let (manifest, _) = import(&bytes);
    let mut state = DiskState::default();
    state.apply(&manifest, true);
    let Ok(CaptureStart::Scan(mut run)) = Capturing::new(&state, bytes.len() as u64) else {
        panic!("the image has a committed size");
    };
    let mut at = 0;
    while let Some(len) = run.next_len() {
        run.add_block(&bytes[at..at + len]);
        at += len;
    }
    assert_eq!(run.finish(), (None, DiskCaptureStats { blocks: 0, bytes: 0 }));
}

#[test]
fn a_manifest_that_makes_no_sense_is_refused() {
    let block = BlobId::of(b"b");
    let good = DiskManifest {
        image_bytes: BLOCK_BYTES + 1,
        block_bytes: BLOCK_BYTES as u32,
        blocks: vec![(1, block)],
    };
    assert!(good.validate().is_ok());
    let bad = DiskManifest { block_bytes: 4096, ..good.clone() };
    assert!(bad.validate().unwrap_err().0.contains("4096"));
    let bad = DiskManifest { image_bytes: MAX_IMAGE_BYTES + 1, ..good.clone() };
    assert!(bad.validate().unwrap_err().0.contains("bound"));
    let bad = DiskManifest { blocks: vec![(2, block)], ..good };
    assert!(bad.validate().unwrap_err().0.contains("lies outside"));
}

#[test]
fn an_image_is_materialized_from_its_manifest() {
    let bytes = image();
    let (manifest, _) = import(&bytes);
    let mut form = Disk::restore(Some(&to_bytes(&manifest))).unwrap();
    let state = form.0.as_mut().expect("restored");
    let pending = take_pending(state).expect("a manifest waits");
    assert_eq!(pending, manifest);
    let mut run = Materializing::new(pending).unwrap();
    let mut offsets = Vec::new();
    for (idx, (_, id)) in manifest.blocks.iter().enumerate() {
        assert_eq!(run.next(), Some(*id));
        let len = block_len(manifest.image_bytes, idx as u32);
        assert!(run.place(len + 1).is_err(), "a block of the wrong length is refused");
        offsets.push(run.place(len).unwrap());
    }
    assert_eq!(run.next(), None);
    assert_eq!(offsets, vec![0, BLOCK_BYTES, 2 * BLOCK_BYTES]);
    run.finish(state);
    assert_eq!(state.manifest(), manifest);
    assert_eq!(Disk::snapshot(&form), Ok(to_bytes(&manifest)));
    assert!(Disk::restore(Some(&[1])).is_err());
}

#[test]
fn one_capture_or_import_per_command() {
    let form = DiskForm(Some(DiskState::default()));
    let mut stage = DiskStage::default();
    assert_eq!(begin_staged_op(&form, Some(&stage)), Ok(()));
    assert!(begin_staged_op(&form, None).is_err());
    assert!(begin_staged_op(&DiskForm(None), Some(&stage)).is_err());
    let (manifest, _) = import(b"abc");
    let mut state = DiskState::default();
    commit_staged_op(&mut state, &mut stage, &manifest, true);
    assert_eq!(
        begin_staged_op(&form, Some(&stage)),
        Err(DiskError("one capture or import per command".into()))
    );
    assert_eq!(Disk::drain(stage), vec![to_bytes(&manifest)]);
    let form = DiskForm(Some(state));
    let handle = DiskHandle { form: &form, stage: None };
    assert_eq!(handle.image_bytes(), Ok(3));
    assert!(handle.content_digest().unwrap().is_some());
    let none = DiskForm(None);
    assert!(DiskHandle { form: &none, stage: None }.image_bytes().is_err());
    assert_eq!(io_facet_err("x").0, "disk io: x");
    assert_eq!(io_disk_err("x").to_text(), "disk error: io: x");
}
