//! The whole detection pass over in-memory trees, and the index and matcher
//! pieces it is built from.

use dupfind::fs::{FsEntry, FsNode};
use dupfind::index::files_by_hash;
use dupfind::matcher::{paths_to_compare, reports_from_outcomes, run, Config, Report};
use dupfind::search::search;

fn file(name: &str, content: &[u8]) -> FsEntry {
    FsEntry {
        name: name.as_bytes().to_vec(),
        node: FsNode::File { content: content.to_vec() },
    }
}

fn tree(entries: Vec<FsEntry>) -> FsNode {
    FsNode::Dir { entries }
}

fn config(hash_prefix: usize, ignore_empty_files: bool, show_original_files: bool) -> Config {
    Config { hash_prefix, ignore_empty_files, show_original_files }
}

#[test]
fn identical_content_reported_as_duplicate() {
    let reference = tree(vec![file("a.txt", b"hello world")]);
    let candidate = tree(vec![file("b.txt", b"hello world")]);
    let reports = run(
        b"ref".to_vec(),
        reference,
        b"cand".to_vec(),
        candidate,
        &config(5, false, false),
    );
    assert_eq!(
        reports,
        vec![Report::Duplicate(b"ref/a.txt".to_vec(), b"cand/b.txt".to_vec())]
    );
}

#[test]
fn fingerprint_collision_without_equal_content_is_no_duplicate() {
    // The five-byte prefix "hello" collides, the suffixes differ.
    let reference = tree(vec![file("a.txt", b"hello world")]);
    let candidate = tree(vec![file("c.txt", b"hello there")]);
    let reports = run(
        b"ref".to_vec(),
        reference,
        b"cand".to_vec(),
        candidate,
        &config(5, false, false),
    );
    assert_eq!(reports, Vec::<Report>::new());

    let reference = tree(vec![file("a.txt", b"hello world")]);
    let candidate = tree(vec![file("c.txt", b"hello there")]);
    let reports = run(
        b"ref".to_vec(),
        reference,
        b"cand".to_vec(),
        candidate,
        &config(5, false, true),
    );
    assert_eq!(reports, vec![Report::Original(b"cand/c.txt".to_vec())]);
}

#[test]
fn unmatched_candidate_reported_original_and_never_duplicate() {
    let reference = tree(vec![file("a.txt", b"completely different")]);
    let candidate = tree(vec![file("lone.txt", b"nothing like it")]);
    let shown = run(
        b"ref".to_vec(),
        reference,
        b"cand".to_vec(),
        candidate,
        &config(64, false, true),
    );
    assert_eq!(shown, vec![Report::Original(b"cand/lone.txt".to_vec())]);

    let reference = tree(vec![file("a.txt", b"completely different")]);
    let candidate = tree(vec![file("lone.txt", b"nothing like it")]);
    let silent = run(
        b"ref".to_vec(),
        reference,
        b"cand".to_vec(),
        candidate,
        &config(64, false, false),
    );
    assert_eq!(silent, Vec::<Report>::new());
}

#[test]
fn empty_files_ignored_throughout_the_run() {
    let reference = tree(vec![file("a.txt", b"data")]);
    let candidate = tree(vec![file("empty.txt", b""), file("b.txt", b"data")]);
    let reports = run(
        b"ref".to_vec(),
        reference,
        b"cand".to_vec(),
        candidate,
        &config(8, true, true),
    );
    // The empty candidate never reaches the matcher, so it is not even
    // reported as original.
    assert_eq!(reports, Vec::<Report>::new());
}

#[test]
fn running_twice_gives_identical_reports() {
    let build = || {
        (
            tree(vec![file("a.txt", b"hello world"), file("x.txt", b"spare")]),
            tree(vec![file("b.txt", b"hello world"), file("y.txt", b"hello there")]),
        )
    };
    let cfg = config(5, false, false);
    let (r1, c1) = build();
    let first_pass = run(b"ref".to_vec(), r1, b"cand".to_vec(), c1, &cfg);
    let (r2, c2) = build();
    let second_pass = run(b"ref".to_vec(), r2, b"cand".to_vec(), c2, &cfg);
    assert_eq!(first_pass, second_pass);
}

#[test]
fn same_path_is_not_its_own_duplicate() {
    // Overlapping reference and candidate roots: the one file matches its
    // own path and must be excluded, leaving it an original.
    let reference = tree(vec![file("a.txt", b"hello world")]);
    let candidate = tree(vec![file("a.txt", b"hello world")]);
    let reports = run(
        b"same".to_vec(),
        reference,
        b"same".to_vec(),
        candidate,
        &config(5, false, true),
    );
    assert_eq!(reports, vec![Report::Original(b"same/a.txt".to_vec())]);
}

#[test]
fn every_matching_reference_is_reported() {
    let reference = tree(vec![
        file("one.txt", b"dup"),
        file("two.txt", b"dup"),
        file("other.txt", b"not it"),
    ]);
    let candidate = tree(vec![file("c.txt", b"dup")]);
    let reports = run(
        b"ref".to_vec(),
        reference,
        b"cand".to_vec(),
        candidate,
        &config(16, false, false),
    );
    assert_eq!(
        reports,
        vec![
            Report::Duplicate(b"ref/one.txt".to_vec(), b"cand/c.txt".to_vec()),
            Report::Duplicate(b"ref/two.txt".to_vec(), b"cand/c.txt".to_vec()),
        ]
    );
}

#[test]
fn reports_follow_candidate_traversal_order() {
    let reference = tree(vec![file("r.txt", b"alpha")]);
    let candidate = tree(vec![
        file("first.txt", b"alpha"),
        file("second.txt", b"beta"),
        file("third.txt", b"alpha"),
    ]);
    let reports = run(
        b"ref".to_vec(),
        reference,
        b"cand".to_vec(),
        candidate,
        &config(8, false, false),
    );
    assert_eq!(
        reports,
        vec![
            Report::Duplicate(b"ref/r.txt".to_vec(), b"cand/first.txt".to_vec()),
            Report::Duplicate(b"ref/r.txt".to_vec(), b"cand/third.txt".to_vec()),
        ]
    );
}

#[test]
fn index_groups_paths_by_fingerprint_in_insertion_order() {
    let files = search(
        b"ref".to_vec(),
        tree(vec![
            file("one.txt", b"dup"),
            file("unique.txt", b"something else"),
            file("two.txt", b"dup"),
        ]),
        false,
    );
    let index = files_by_hash(&files, 16);
    assert_eq!(index.hash_count(), 2);

    let mut probe = dupfind::reader::Reader::new(b"dup".to_vec());
    let h = dupfind::hash::first(&mut probe, 16).unwrap();
    assert_eq!(
        index.lookup(h),
        vec![b"ref/one.txt".to_vec(), b"ref/two.txt".to_vec()]
    );
}

#[test]
fn index_lookup_of_unknown_fingerprint_is_empty() {
    let files = search(b"ref".to_vec(), tree(vec![file("a.txt", b"abc")]), false);
    let index = files_by_hash(&files, 16);
    let mut probe = dupfind::reader::Reader::new(b"different".to_vec());
    let h = dupfind::hash::first(&mut probe, 16).unwrap();
    assert_eq!(index.lookup(h), Vec::<Vec<u8>>::new());
}

#[test]
fn paths_to_compare_excludes_the_candidate_itself() {
    let bucket = vec![b"a".to_vec(), b"self".to_vec(), b"b".to_vec()];
    let others = paths_to_compare(&bucket, &b"self".to_vec());
    assert_eq!(others, vec![b"a".to_vec(), b"b".to_vec()]);
}

#[test]
fn reports_from_outcomes_follow_the_display_mode() {
    let paths = vec![b"p1".to_vec(), b"p2".to_vec()];
    let cand = b"c".to_vec();

    let dups = reports_from_outcomes(&paths, &vec![true, false], &cand, false);
    assert_eq!(dups, vec![Report::Duplicate(b"p1".to_vec(), b"c".to_vec())]);

    let silent = reports_from_outcomes(&paths, &vec![true, false], &cand, true);
    assert_eq!(silent, Vec::<Report>::new());

    let original = reports_from_outcomes(&paths, &vec![false, false], &cand, true);
    assert_eq!(original, vec![Report::Original(b"c".to_vec())]);
}

#[test]
fn empty_reference_tree_makes_every_candidate_original() {
    let reference = tree(Vec::new());
    let candidate = tree(vec![file("b.txt", b"anything")]);
    let reports = run(
        b"ref".to_vec(),
        reference,
        b"cand".to_vec(),
        candidate,
        &config(8, false, true),
    );
    assert_eq!(reports, vec![Report::Original(b"cand/b.txt".to_vec())]);
}
