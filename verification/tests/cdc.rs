//! Content-defined chunking.
use granary::cdc::cut_point;
use granary::cdc::split;
use granary::cdc::MAX_CHUNK;
use granary::cdc::MIN_CHUNK;

/// Deterministic pseudo-random bytes: content with enough entropy for the gear hash
/// to find boundaries in.
fn content(len: usize, seed: u64) -> Vec<u8> {
    let mut out = Vec::with_capacity(len);
    let mut z = seed | 1;
    while out.len() < len {
        z = z.wrapping_mul(6364136223846793005).wrapping_add(1442695040888963407);
        out.extend_from_slice(&z.to_le_bytes());
    }
    out.truncate(len);
    out
}

#[test]
fn chunks_cover_the_input_in_order() {
    let bytes = content(4 * 1024 * 1024, 7);
    let chunks = split(&bytes);
    assert_eq!(chunks.concat(), bytes, "the split must be lossless");
    assert!(chunks.len() > 1, "4 MiB must cut into more than one chunk");
}

#[test]
fn every_chunk_but_the_last_respects_the_bounds() {
    let bytes = content(4 * 1024 * 1024, 11);
    let chunks = split(&bytes);
    for chunk in &chunks[..chunks.len() - 1] {
        assert!(
            (MIN_CHUNK..=MAX_CHUNK).contains(&chunk.len()),
            "chunk of {} bytes is outside {MIN_CHUNK}..={MAX_CHUNK}",
            chunk.len()
        );
    }
    assert!(chunks.last().unwrap().len() <= MAX_CHUNK);
}

#[test]
fn a_payload_under_the_minimum_is_one_chunk() {
    assert!(split(&[]).is_empty());
    let small = content(MIN_CHUNK - 1, 3);
    assert_eq!(split(&small).len(), 1);
}

#[test]
fn incompressible_sameness_still_terminates_at_the_maximum() {
    // A constant byte string never varies the hash, so no boundary is ever chosen and
    // only MAX_CHUNK ends a chunk.
    let flat = vec![0xABu8; 1024 * 1024];
    let chunks = split(&flat);
    assert_eq!(chunks.concat(), flat);
    for chunk in &chunks[..chunks.len() - 1] {
        assert_eq!(chunk.len(), MAX_CHUNK);
    }
}

#[test]
fn an_insertion_disturbs_only_the_chunks_around_it() {
    let before = content(2 * 1024 * 1024, 23);
    let mut after = before.clone();
    after.splice(1_000_000..1_000_000, content(1024, 99));

    let old: Vec<&[u8]> = split(&before);
    let new: Vec<&[u8]> = split(&after);
    let head = zip_common(old.iter(), new.iter());
    let tail = zip_common(old.iter().rev(), new.iter().rev());
    assert!(head > 0 && tail > 0, "the splice is in the middle");
    let disturbed = old.len() - head - tail;
    assert!(
        disturbed <= 2,
        "an insertion should disturb a chunk or two, not {disturbed} of {}",
        old.len()
    );
}

/// How many leading elements the two iterators agree on.
fn zip_common<'a>(
    a: impl Iterator<Item = &'a &'a [u8]>,
    b: impl Iterator<Item = &'a &'a [u8]>,
) -> usize {
    a.zip(b).take_while(|(a, b)| a == b).count()
}

#[test]
fn an_appended_tail_leaves_the_prefix_alone() {
    // State grows at the end between snapshots.
    let before = content(1024 * 1024, 41);
    let mut after = before.clone();
    after.extend_from_slice(&content(200 * 1024, 42));

    let old = split(&before);
    let new = split(&after);
    let shared = old.iter().zip(new.iter()).take_while(|(a, b)| a == b).count();
    assert!(
        shared + 1 >= old.len(),
        "an append must leave all but the final chunk untouched: {shared} of {}",
        old.len()
    );
}

#[test]
fn a_cut_depends_on_what_precedes_it() {
    let bytes = content(1024 * 1024, 5);
    let cut = cut_point(&bytes);
    assert!(cut < bytes.len());
    assert_eq!(cut_point(&bytes[..cut + 100]), cut);
    assert_eq!(cut_point(&bytes[..cut]), cut);
}
