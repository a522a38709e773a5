//! Breadth-first traversal over in-memory directory trees.

use dupfind::fs::{FoundFile, FsEntry, FsNode};
use dupfind::search::search;
use dupfind::traverse::{EntryKind, ListingEntry, Traversal};

const TEST_HASH: &[u8] = b"hello world\n";
const PREFIX_OF_TEST_HASH: &[u8] = b"hello";

fn file(name: &str, content: &[u8]) -> FsEntry {
    FsEntry {
        name: name.as_bytes().to_vec(),
        node: FsNode::File { content: content.to_vec() },
    }
}

fn dir(name: &str, entries: Vec<FsEntry>) -> FsEntry {
    FsEntry { name: name.as_bytes().to_vec(), node: FsNode::Dir { entries } }
}

fn test_data_tree() -> FsNode {
    FsNode::Dir {
        entries: vec![
            file("prefix_of_test_hash.txt", PREFIX_OF_TEST_HASH),
            file("empty_file.txt", b""),
            file("test_hash.txt", TEST_HASH),
            dir(
                "sub_directory",
                vec![file("copy_of_test_hash.txt", TEST_HASH)],
            ),
        ],
    }
}

fn paths(found: &[FoundFile]) -> Vec<Vec<u8>> {
    found.iter().map(|f| f.path.clone()).collect()
}

#[test]
fn search_test_data() {
    let output = search(b"test_data".to_vec(), test_data_tree(), false);
    assert_eq!(
        paths(&output),
        vec![
            b"test_data/prefix_of_test_hash.txt".to_vec(),
            b"test_data/empty_file.txt".to_vec(),
            b"test_data/test_hash.txt".to_vec(),
            b"test_data/sub_directory/copy_of_test_hash.txt".to_vec(),
        ]
    );
}

#[test]
fn search_yields_contents_with_paths() {
    let output = search(b"test_data".to_vec(), test_data_tree(), false);
    assert_eq!(output[2].path, b"test_data/test_hash.txt".to_vec());
    assert_eq!(output[2].content, TEST_HASH.to_vec());
}

#[test]
fn search_skips_empty_files_when_asked() {
    let output = search(b"test_data".to_vec(), test_data_tree(), true);
    let got = paths(&output);
    assert_eq!(got.len(), 3);
    assert!(!got.contains(&b"test_data/empty_file.txt".to_vec()));
}

#[test]
fn search_of_file_root_yields_nothing() {
    let root = FsNode::File { content: TEST_HASH.to_vec() };
    assert_eq!(search(b"somewhere".to_vec(), root, false).len(), 0);
}

#[test]
fn search_of_empty_directory_yields_nothing() {
    let root = FsNode::Dir { entries: Vec::new() };
    assert_eq!(search(b"empty".to_vec(), root, false).len(), 0);
}

#[test]
fn search_skips_entries_of_other_kinds() {
    let root = FsNode::Dir {
        entries: vec![
            FsEntry { name: b"link".to_vec(), node: FsNode::Other },
            file("real.txt", b"data"),
        ],
    };
    let output = search(b"top".to_vec(), root, false);
    assert_eq!(paths(&output), vec![b"top/real.txt".to_vec()]);
}

#[test]
fn search_is_breadth_first() {
    // Both top-level files come before any file of the subdirectories,
    // and the two subtrees are visited in queue order.
    let root = FsNode::Dir {
        entries: vec![
            dir("a", vec![file("deep1", b"1"), dir("aa", vec![file("deepest", b"4")])]),
            file("top1", b"t"),
            dir("b", vec![file("deep2", b"2")]),
            file("top2", b"u"),
        ],
    };
    let output = search(b"r".to_vec(), root, false);
    assert_eq!(
        paths(&output),
        vec![
            b"r/top1".to_vec(),
            b"r/top2".to_vec(),
            b"r/a/deep1".to_vec(),
            b"r/b/deep2".to_vec(),
            b"r/a/aa/deepest".to_vec(),
        ]
    );
}

#[test]
fn search_visits_each_file_exactly_once() {
    // Seven regular files across four directories and three levels.
    let root = FsNode::Dir {
        entries: vec![
            file("f1", b"1"),
            dir(
                "d1",
                vec![
                    file("f2", b"2"),
                    dir("d2", vec![file("f3", b"3"), file("f4", b"4")]),
                ],
            ),
            dir("d3", vec![file("f5", b"5"), file("f6", b"6")]),
            file("f7", b"7"),
        ],
    };
    let output = search(b"root".to_vec(), root, false);
    let got = paths(&output);
    assert_eq!(got.len(), 7);
    for i in 0..got.len() {
        for j in (i + 1)..got.len() {
            assert_ne!(got[i], got[j]);
        }
    }
}

#[test]
fn traversal_machine_walks_breadth_first() {
    let mut t = Traversal::new(b"root".to_vec(), false);

    let d = t.next_dir().unwrap();
    assert_eq!(d, b"root".to_vec());
    let files = t.on_listing(
        &d,
        vec![
            ListingEntry { name: b"a.txt".to_vec(), kind: EntryKind::RegularFile { size: 3 } },
            ListingEntry { name: b"sub".to_vec(), kind: EntryKind::Directory },
            ListingEntry { name: b"odd".to_vec(), kind: EntryKind::Other },
        ],
    );
    assert_eq!(files, vec![b"root/a.txt".to_vec()]);

    let d = t.next_dir().unwrap();
    assert_eq!(d, b"root/sub".to_vec());
    let files = t.on_listing(
        &d,
        vec![ListingEntry {
            name: b"b.txt".to_vec(),
            kind: EntryKind::RegularFile { size: 0 },
        }],
    );
    assert_eq!(files, vec![b"root/sub/b.txt".to_vec()]);

    assert!(t.next_dir().is_none());
}

#[test]
fn traversal_machine_honours_empty_file_policy() {
    let mut t = Traversal::new(b"root".to_vec(), true);
    let d = t.next_dir().unwrap();
    let files = t.on_listing(
        &d,
        vec![
            ListingEntry { name: b"empty".to_vec(), kind: EntryKind::RegularFile { size: 0 } },
            ListingEntry { name: b"full".to_vec(), kind: EntryKind::RegularFile { size: 9 } },
        ],
    );
    assert_eq!(files, vec![b"root/full".to_vec()]);
}
