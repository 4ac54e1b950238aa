use chunkdiff::diffing::Chunk;
use chunkdiff::diffing::Common;
use chunkdiff::diffing::DeltaError;
use std::collections::HashMap;

fn build_hashes(cmn: &mut Common, data: &[u8]) -> Vec<u128> {
    cmn.chunk_hash_list(data.to_vec()).unwrap()
}

fn diff_files(chunk_size: usize, baseline: &[u8], target: &[u8]) -> HashMap<usize, Chunk> {
    let mut cmn = Common::new(chunk_size);
    let hashes = build_hashes(&mut cmn, baseline);
    cmn.diff(&hashes, target.to_vec()).unwrap()
}

#[test]
fn final_chunk_boundary() {
    // A baseline of length 2*C + 1 yields three fingerprints; the third is
    // computed over the single final byte, neither padded nor refused.
    let mut cmn = Common::new(3);
    let data = b"ABCDEFG";
    let hashes = build_hashes(&mut cmn, data);
    assert_eq!(hashes.len(), 3);
    assert_eq!(hashes[0], xxh3::hash128_with_seed(b"ABC", 0));
    assert_eq!(hashes[1], xxh3::hash128_with_seed(b"DEF", 0));
    assert_eq!(hashes[2], xxh3::hash128_with_seed(b"G", 0));
}

#[test]
fn fingerprints_of_exact_multiple() {
    let mut cmn = Common::new(2);
    let hashes = build_hashes(&mut cmn, b"abcdef");
    assert_eq!(hashes.len(), 3);
    assert_eq!(hashes[2], xxh3::hash128_with_seed(b"ef", 0));
    assert_eq!(cmn.file1_size(), 6);
    assert_eq!(cmn.file1_data().as_slice(), b"abcdef");
}

#[test]
fn fingerprinter_rejects_single_chunk_file() {
    // A file of exactly C bytes has no room for a second chunk.
    let mut cmn = Common::new(3);
    assert_eq!(cmn.chunk_hash_list(b"abc".to_vec()), Err(DeltaError::InsufficientData));
    assert_eq!(cmn.file1_size(), 0);
}

#[test]
fn fingerprinter_rejects_empty_file() {
    let mut cmn = Common::new(3);
    assert_eq!(cmn.chunk_hash_list(Vec::new()), Err(DeltaError::InsufficientData));
}

#[test]
fn aligner_rejects_single_chunk_file() {
    let mut cmn = Common::new(3);
    let hashes = build_hashes(&mut cmn, b"AAABBBCCC");
    let res = cmn.diff(&hashes, b"abc".to_vec());
    assert!(matches!(res, Err(DeltaError::InsufficientData)));
}

#[test]
fn identity_diff_marks_everything_present() {
    // Same file, same chunk size, length an exact multiple of C: every
    // entry is present with no problem bytes.
    let data = b"abcdefghi";
    let deltas = diff_files(3, data, data);
    assert_eq!(deltas.len(), 3);
    for i in 0..3usize {
        let chunk = deltas.get(&i).unwrap();
        assert!(chunk.is_present());
        assert!(chunk.problem_bytes().is_empty());
        assert_eq!(chunk.start(), i * 3);
        assert_eq!(chunk.end(), i * 3 + 3);
    }
}

#[test]
fn identity_diff_with_duplicate_chunks_leaves_one_absent() {
    // When two baseline chunks are identical, their shared fingerprint can
    // reach only one index (the higher one), so an identity diff cannot
    // mark both present: index 1 takes both matches and index 0 stays
    // absent after gap filling.
    let data = b"AAAAAA";
    let deltas = diff_files(3, data, data);
    assert_eq!(deltas.len(), 2);
    assert!(!deltas.get(&0).unwrap().is_present());
    assert!(deltas.get(&1).unwrap().is_present());
    assert!(deltas.get(&1).unwrap().problem_bytes().is_empty());
}

#[test]
fn resynchronization_recovery() {
    // One garbage byte before an otherwise identical stream: the scanner
    // slides one byte, recovers chunk 0 with "X" attached, and stays
    // aligned for the rest.
    let deltas = diff_files(3, b"AAABBBCCC", b"XAAABBBCCC");
    assert_eq!(deltas.len(), 3);
    let c0 = deltas.get(&0).unwrap();
    assert!(c0.is_present());
    assert_eq!(c0.problem_bytes().as_slice(), b"X");
    let c1 = deltas.get(&1).unwrap();
    assert!(c1.is_present());
    assert!(c1.problem_bytes().is_empty());
    let c2 = deltas.get(&2).unwrap();
    assert!(c2.is_present());
    assert!(c2.problem_bytes().is_empty());
}

#[test]
fn problem_bytes_accumulate_until_next_match() {
    // Garbage in the middle of the stream is attached to the next
    // recovered chunk.
    let deltas = diff_files(3, b"AAABBBCCC", b"AAAZZBBBCCC");
    let c0 = deltas.get(&0).unwrap();
    assert!(c0.is_present());
    assert!(c0.problem_bytes().is_empty());
    let c1 = deltas.get(&1).unwrap();
    assert!(c1.is_present());
    assert_eq!(c1.problem_bytes().as_slice(), b"ZZ");
    let c2 = deltas.get(&2).unwrap();
    assert!(c2.is_present());
    assert!(c2.problem_bytes().is_empty());
}

#[test]
fn shared_fingerprint_last_index_wins() {
    // Two identical baseline chunks share a fingerprint; the position
    // index is built by unconditional insertion, so the later index (2)
    // wins the lookup. Only one of {0, 2} is marked present, the other is
    // gap-filled absent.
    let deltas = diff_files(3, b"AAABBBAAA", b"AAAXYZ");
    assert_eq!(deltas.len(), 3);
    let c0 = deltas.get(&0).unwrap();
    let c1 = deltas.get(&1).unwrap();
    let c2 = deltas.get(&2).unwrap();
    assert!(!c0.is_present());
    assert!(!c1.is_present());
    assert!(c2.is_present());
    assert!(c0.problem_bytes().is_empty());
    assert!(c2.problem_bytes().is_empty());
}

#[test]
fn total_coverage_no_gaps() {
    // The delta map is total over 0..N whatever the target holds.
    let deltas = diff_files(3, b"AAABBBCCC", b"uvwxyz");
    assert_eq!(deltas.len(), 3);
    for i in 0..3usize {
        let chunk = deltas.get(&i).unwrap();
        assert!(!chunk.is_present());
        assert!(chunk.problem_bytes().is_empty());
        assert_eq!(chunk.start(), i * 3);
        assert_eq!(chunk.end(), i * 3 + 3);
    }
}

#[test]
fn trailing_unmatched_bytes_are_dropped() {
    // Bytes after the last successful match never surface in the map:
    // no synthetic tail entry, nothing attached anywhere.
    let deltas = diff_files(3, b"AAABBB", b"AAABBBZZ");
    assert_eq!(deltas.len(), 2);
    assert!(deltas.get(&2).is_none());
    assert!(deltas.get(&0).unwrap().is_present());
    assert!(deltas.get(&1).unwrap().is_present());
    assert!(deltas.get(&0).unwrap().problem_bytes().is_empty());
    assert!(deltas.get(&1).unwrap().problem_bytes().is_empty());
}

#[test]
fn position_map_keeps_last_index_of_duplicates() {
    let h1: u128 = 11;
    let h2: u128 = 22;
    let hashes = vec![h1, h2, h1];
    let positions = Common::hash_list_to_position_map(&hashes);
    assert_eq!(positions.len(), 2);
    assert_eq!(positions.get(&h1), Some(&2));
    assert_eq!(positions.get(&h2), Some(&1));
}

#[test]
fn gap_filler_is_total_and_idempotent() {
    let mut cmn = Common::new(3);
    let hashes = build_hashes(&mut cmn, b"AAABBBCCC");
    let mut deltas: HashMap<usize, Chunk> = HashMap::new();
    cmn.try_fill_missing_chunks(&hashes, &mut deltas);
    assert_eq!(deltas.len(), 3);
    for i in 0..3usize {
        let chunk = deltas.get(&i).unwrap();
        assert!(!chunk.is_present());
        assert!(chunk.problem_bytes().is_empty());
        assert_eq!(chunk.start(), i * 3);
        assert_eq!(chunk.end(), i * 3 + 3);
    }
    // a second pass changes nothing
    cmn.try_fill_missing_chunks(&hashes, &mut deltas);
    assert_eq!(deltas.len(), 3);
    for i in 0..3usize {
        assert!(!deltas.get(&i).unwrap().is_present());
    }
}

#[test]
fn diff_records_target_bytes() {
    let mut cmn = Common::new(3);
    let hashes = build_hashes(&mut cmn, b"AAABBBCCC");
    let deltas = cmn.diff(&hashes, b"XAAABBBCCC".to_vec()).unwrap();
    assert_eq!(deltas.len(), 3);
    assert_eq!(cmn.file2_size(), 10);
    assert_eq!(cmn.file2_data().as_slice(), b"XAAABBBCCC");
    assert_eq!(cmn.chunk_size(), 3);
}

#[test]
fn new_starts_empty() {
    let cmn = Common::new(4);
    assert_eq!(cmn.chunk_size(), 4);
    assert_eq!(cmn.file1_size(), 0);
    assert_eq!(cmn.file2_size(), 0);
    assert!(cmn.file1_data().is_empty());
    assert!(cmn.file2_data().is_empty());
}

#[test]
fn chunk_size_one_diff() {
    // The smallest chunk size: every byte is its own chunk.
    let deltas = diff_files(1, b"ab", b"ab");
    assert_eq!(deltas.len(), 2);
    assert!(deltas.get(&0).unwrap().is_present());
    assert!(deltas.get(&1).unwrap().is_present());
}
