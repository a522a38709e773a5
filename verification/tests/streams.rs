//! Byte-source, fingerprint and comparator behaviour on in-memory streams.

use dupfind::compare::{compare, compare_step, StepVerdict};
use dupfind::hash::{first, Hasher};
use dupfind::reader::{read_as_much, Reader};

const TEST_HASH: &[u8] = b"hello world\n";
const PREFIX_OF_TEST_HASH: &[u8] = b"hello";

fn compare_bytes(a: &[u8], b: &[u8]) -> bool {
    let mut s1 = Reader::new(a.to_vec());
    let mut s2 = Reader::new(b.to_vec());
    compare(&mut s1, &mut s2).unwrap()
}

fn hash_bytes(data: &[u8], first_bytes: usize) -> u64 {
    let mut input = Reader::new(data.to_vec());
    first(&mut input, first_bytes).unwrap()
}

#[test]
fn same_prefix_different_file() {
    assert_eq!(compare_bytes(TEST_HASH, PREFIX_OF_TEST_HASH), false);
}

#[test]
fn same_file() {
    assert_eq!(compare_bytes(TEST_HASH, TEST_HASH), true);
}

#[test]
fn same_content_file() {
    let copy_of_test_hash = TEST_HASH.to_vec();
    assert_eq!(compare_bytes(TEST_HASH, &copy_of_test_hash), true);
}

#[test]
fn empty_file_should_hash_to_0() {
    assert_eq!(0, hash_bytes(b"", 1024));
}

#[test]
fn files_should_have_same_hash_given_same_prefix() {
    assert_eq!(
        hash_bytes(TEST_HASH, 3),
        hash_bytes(PREFIX_OF_TEST_HASH, 3)
    );
}

#[test]
fn fingerprint_formula_value() {
    // acc = 0 -> (0 * 21 + 1 * 27 + 7) = 34 -> (34 * 21 + 2 * 27 + 7) = 775
    assert_eq!(775, hash_bytes(&[1, 2], 1024));
}

#[test]
fn fingerprint_stops_at_prefix_length() {
    assert_eq!(hash_bytes(b"abcXYZ", 3), hash_bytes(b"abcdef", 3));
    assert_ne!(hash_bytes(b"abcXYZ", 4), hash_bytes(b"abcdef", 4));
}

#[test]
fn fingerprint_of_short_file_uses_full_length() {
    assert_eq!(hash_bytes(b"ab", 1024), hash_bytes(b"ab", 2));
}

#[test]
fn hash_read_error_surfaces() {
    let mut input = Reader::failing(b"hello".to_vec(), 0);
    assert!(first(&mut input, 4).is_err());
}

#[test]
fn compare_empty_streams_equal() {
    assert_eq!(compare_bytes(b"", b""), true);
}

#[test]
fn compare_empty_against_nonempty() {
    assert_eq!(compare_bytes(b"", b"x"), false);
    assert_eq!(compare_bytes(b"x", b""), false);
}

#[test]
fn compare_is_symmetric_on_samples() {
    let samples: [(&[u8], &[u8]); 3] =
        [(b"abc", b"abd"), (b"abc", b"abc"), (b"abc", b"ab")];
    for (a, b) in samples {
        assert_eq!(compare_bytes(a, b), compare_bytes(b, a));
    }
}

#[test]
fn compare_survives_short_reads() {
    // One source doles out one byte per read, the other three: the
    // retry-until-full-or-end discipline must still see equal streams.
    let data: Vec<u8> = (0u8..=255).cycle().take(5000).collect();
    let mut s1 = Reader::with_chunk_limit(data.clone(), 1);
    let mut s2 = Reader::with_chunk_limit(data.clone(), 3);
    assert_eq!(compare(&mut s1, &mut s2).unwrap(), true);

    let mut shorter = data.clone();
    shorter.pop();
    let mut s3 = Reader::with_chunk_limit(data, 1);
    let mut s4 = Reader::with_chunk_limit(shorter, 3);
    assert_eq!(compare(&mut s3, &mut s4).unwrap(), false);
}

#[test]
fn compare_read_error_surfaces() {
    let mut good = Reader::new(b"hello".to_vec());
    let mut bad = Reader::failing(b"hello".to_vec(), 2);
    assert!(compare(&mut good, &mut bad).is_err());
}

#[test]
fn compare_differs_beyond_first_chunk() {
    // Identical first chunk of 1024 bytes, difference after it.
    let mut a = vec![7u8; 2000];
    let b = a.clone();
    a[1500] = 8;
    assert_eq!(compare_bytes(&a, &b), false);
}

#[test]
fn compare_step_decides_chunk_pairs() {
    assert_eq!(compare_step(b"abc", b"ab"), StepVerdict::Mismatch);
    assert_eq!(compare_step(b"", b""), StepVerdict::BothEnded);
    assert_eq!(compare_step(b"abc", b"abd"), StepVerdict::Mismatch);
    assert_eq!(compare_step(b"abc", b"abc"), StepVerdict::Advance);
}

#[test]
fn read_as_much_retries_until_full() {
    let mut input = Reader::with_chunk_limit(b"abcdef".to_vec(), 2);
    let chunk = read_as_much(&mut input, 5).unwrap();
    assert_eq!(chunk, b"abcde".to_vec());
    let rest = read_as_much(&mut input, 5).unwrap();
    assert_eq!(rest, b"f".to_vec());
    let end = read_as_much(&mut input, 5).unwrap();
    assert_eq!(end, Vec::<u8>::new());
}

#[test]
fn incremental_hasher_matches_one_shot() {
    let mut hasher = Hasher::new(8);
    hasher.update(b"hel");
    hasher.update(b"lo wor");
    hasher.update(b"ld\n");
    assert_eq!(hasher.finish(), hash_bytes(TEST_HASH, 8));
    assert!(hasher.done());
}
