//! The traversal: a breadth-first walk of a directory tree through an
//! explicit queue of pending directories, never through recursive calls.
//! Directories are visited in queue order; each listing's files are emitted
//! in listing order, its subdirectories pushed to the back of the queue, so
//! siblings come before anyone's grandchildren.

use vstd::prelude::*;
use crate::bytes::{join_path, spec_join};
use crate::fs::{
    dirs_files, entries_size, entry_dir, entry_file, found_view, found_views,
    lemma_subtree_files_distinct, lemma_subtree_files_len, listing_dirs, listing_files,
    node_file_count, node_size, paths_distinct, subtree_files, tree_files, wf_node, FoundFile,
    FsEntry, FsNode,
};

verus! {

/// A pending directory: its path and its entries.
pub type PendingDir = (Vec<u8>, Vec<FsEntry>);

/// The mathematical value of a queue of pending directories.
pub open spec fn queue_view(q: Seq<PendingDir>) -> Seq<(Seq<u8>, Seq<FsEntry>)> {
    q.map_values(|d: PendingDir| (d.0@, d.1@))
}

/// The size of a queue: one unit per pending listing plus the sizes of all
/// nodes below them. Strictly shrinks at every step of the walk.
pub open spec fn queue_size(q: Seq<(Seq<u8>, Seq<FsEntry>)>) -> nat
    decreases q.len(),
{
    if q.len() == 0 {
        0
    } else {
        1 + entries_size(q[0].1) + queue_size(q.drop_first())
    }
}

/// Queue sizes add up over concatenation.
pub proof fn lemma_queue_size_concat(a: Seq<(Seq<u8>, Seq<FsEntry>)>, b: Seq<(Seq<u8>, Seq<FsEntry>)>)
    ensures
        queue_size(a + b) == queue_size(a) + queue_size(b),
    decreases a.len(),
{
    if a.len() == 0 {
        assert(a + b =~= b);
    } else {
        assert((a + b).drop_first() =~= a.drop_first() + b);
        lemma_queue_size_concat(a.drop_first(), b);
    }
}

/// The pending subdirectories of a listing weigh strictly less than the
/// listing's entries: each drops the one unit its entry carried.
pub proof fn lemma_listing_dirs_size(dir: Seq<u8>, entries: Seq<FsEntry>)
    ensures
        queue_size(listing_dirs(dir, entries)) <= entries_size(entries),
    decreases entries,
{
    if entries.len() != 0 {
        lemma_listing_dirs_size(dir, entries.drop_last());
        lemma_queue_size_concat(
            listing_dirs(dir, entries.drop_last()),
            entry_dir(dir, entries.last()),
        );
        match entries.last().node {
            FsNode::Dir { entries: sub } => {
                let single = entry_dir(dir, entries.last());
                assert(single.len() == 1);
                assert(single.drop_first() =~= Seq::<(Seq<u8>, Seq<FsEntry>)>::empty());
                assert(queue_size(Seq::<(Seq<u8>, Seq<FsEntry>)>::empty()) == 0);
                assert(queue_size(single) == 1 + entries_size(single[0].1) + queue_size(
                    single.drop_first(),
                ));
                assert(single[0].1 == sub@);
                assert(node_size(entries.last().node) == 1 + entries_size(sub@));
            },
            _ => {
                assert(entry_dir(dir, entries.last()) =~= Seq::<(Seq<u8>, Seq<FsEntry>)>::empty());
                assert(queue_size(entry_dir(dir, entries.last())) == 0);
            },
        }
    }
}

/// The files a breadth-first walk of the pending directories emits, in
/// order: the front listing's own files, then the files of everything after
/// it, the front listing's subdirectories now at the back of the queue.
pub open spec fn bfs(q: Seq<(Seq<u8>, Seq<FsEntry>)>, ignore_empty: bool) -> Seq<(Seq<u8>, Seq<u8>)>
    decreases queue_size(q),
{
    if q.len() == 0 {
        Seq::empty()
    } else {
        proof {
            lemma_queue_size_concat(q.drop_first(), listing_dirs(q[0].0, q[0].1));
            lemma_listing_dirs_size(q[0].0, q[0].1);
        }
        listing_files(q[0].0, q[0].1, ignore_empty) + bfs(
            q.drop_first() + listing_dirs(q[0].0, q[0].1),
            ignore_empty,
        )
    }
}

/// The queue a traversal of `root` starts from: the root directory's
/// listing. A root that is not a directory cannot be listed, so the walk
/// yields nothing.
pub open spec fn initial_queue(path: Seq<u8>, root: FsNode) -> Seq<(Seq<u8>, Seq<FsEntry>)> {
    match root {
        FsNode::Dir { entries } => seq![(path, entries@)],
        _ => Seq::empty(),
    }
}

/// Splits one directory listing into the files it emits and the
/// subdirectories it adds to the queue, both in listing order. A file is
/// skipped when it is empty and empty files are ignored; an entry that is
/// neither file nor directory is skipped.
fn process_listing(dir: &Vec<u8>, entries: Vec<FsEntry>, ignore_empty_files: bool) -> (r: (
    Vec<FoundFile>,
    Vec<PendingDir>,
))
    ensures
        found_views(r.0@) == listing_files(dir@, entries@, ignore_empty_files),
        queue_view(r.1@) == listing_dirs(dir@, entries@),
{
    let ghost all = entries@;
    let mut entries = entries;
    let mut files: Vec<FoundFile> = Vec::new();
    let mut dirs: Vec<PendingDir> = Vec::new();
    proof {
        assert(found_views(files@) =~= listing_files(dir@, all.take(0), ignore_empty_files));
        assert(queue_view(dirs@) =~= listing_dirs(dir@, all.take(0)));
    }
    while entries.len() > 0
        invariant
            all == all.take(all.len() - entries@.len()) + entries@,
            found_views(files@) == listing_files(
                dir@,
                all.take(all.len() - entries@.len()),
                ignore_empty_files,
            ),
            queue_view(dirs@) == listing_dirs(dir@, all.take(all.len() - entries@.len())),
        decreases entries.len(),
    {
        let ghost done = all.len() - entries@.len();
        proof {
            assert(all[done] == entries@[0]);
            assert(all.take(done + 1).drop_last() =~= all.take(done));
            assert(all.take(done + 1).last() == all[done]);
        }
        let e = entries.remove(0);
        match e.node {
            FsNode::File { content } => {
                if !(ignore_empty_files && content.len() == 0) {
                    let path = join_path(dir, &e.name);
                    let found = FoundFile { path, content };
                    proof {
                        assert(found_views(files@.push(found)) =~= found_views(files@).push(
                            found_view(found),
                        ));
                        assert(found_views(files@).push(found_view(found)) =~= found_views(files@)
                            + entry_file(dir@, all[done], ignore_empty_files));
                    }
                    files.push(found);
                } else {
                    proof {
                        assert(found_views(files@) =~= found_views(files@) + entry_file(
                            dir@,
                            all[done],
                            ignore_empty_files,
                        ));
                    }
                }
            },
            FsNode::Dir { entries: sub } => {
                let path = join_path(dir, &e.name);
                let pending = (path, sub);
                proof {
                    assert(queue_view(dirs@.push(pending)) =~= queue_view(dirs@) + entry_dir(
                        dir@,
                        all[done],
                    ));
                }
                dirs.push(pending);
                proof {
                    assert(found_views(files@) =~= found_views(files@) + entry_file(
                        dir@,
                        all[done],
                        ignore_empty_files,
                    ));
                }
            },
            FsNode::Other => {
                proof {
                    assert(found_views(files@) =~= found_views(files@) + entry_file(
                        dir@,
                        all[done],
                        ignore_empty_files,
                    ));
                    assert(queue_view(dirs@) =~= queue_view(dirs@) + entry_dir(dir@, all[done]));
                }
            },
        }
        proof {
            assert(all.take(done + 1) + entries@ =~= all);
        }
    }
    proof {
        assert(all.take(all.len() as int) =~= all);
    }
    (files, dirs)
}

/// Walks the tree rooted at `root_path` breadth-first and returns every
/// regular file found anywhere under it, each with its full path and its
/// contents, in breadth-first order. With `ignore_empty_files` set,
/// zero-length files never appear in the output.
pub fn search(root_path: Vec<u8>, root: FsNode, ignore_empty_files: bool) -> (found: Vec<FoundFile>)
    ensures
        found_views(found@) == bfs(initial_queue(root_path@, root), ignore_empty_files),
{
    let ghost init = initial_queue(root_path@, root);
    let mut queue: Vec<PendingDir> = Vec::new();
    match root {
        FsNode::Dir { entries } => {
            queue.push((root_path, entries));
        },
        _ => {},
    }
    let mut found: Vec<FoundFile> = Vec::new();
    proof {
        assert(queue_view(queue@) =~= init);
        assert(found_views(found@) + bfs(init, ignore_empty_files) =~= bfs(
            init,
            ignore_empty_files,
        ));
    }
    while queue.len() > 0
        invariant
            found_views(found@) + bfs(queue_view(queue@), ignore_empty_files) == bfs(
                init,
                ignore_empty_files,
            ),
        decreases queue_size(queue_view(queue@)),
    {
        let ghost before = queue_view(queue@);
        let (dir, entries) = queue.remove(0);
        proof {
            assert(queue_view(queue@) =~= before.drop_first());
            assert(before[0] == (dir@, entries@));
        }
        let (mut files, mut dirs) = process_listing(&dir, entries, ignore_empty_files);
        let ghost popped = queue_view(queue@);
        proof {
            lemma_queue_size_concat(popped, listing_dirs(dir@, entries@));
            lemma_listing_dirs_size(dir@, entries@);
        }
        let ghost found_before = found_views(found@);
        let ghost files_view = found_views(files@);
        found.append(&mut files);
        queue.append(&mut dirs);
        proof {
            assert(found_views(found@) =~= found_before + files_view);
            assert(queue_view(queue@) =~= popped + listing_dirs(dir@, entries@));
            // Unfolding one step of the walk at the front listing.
            assert(bfs(before, ignore_empty_files) == listing_files(
                dir@,
                entries@,
                ignore_empty_files,
            ) + bfs(popped + listing_dirs(dir@, entries@), ignore_empty_files));
            assert(found_views(found@) + bfs(queue_view(queue@), ignore_empty_files) =~= (
            found_before + bfs(before, ignore_empty_files)));
        }
    }
    proof {
        assert(queue_view(queue@) =~= Seq::<(Seq<u8>, Seq<FsEntry>)>::empty());
        assert(found_views(found@) + bfs(queue_view(queue@), ignore_empty_files) =~= found_views(
            found@,
        ));
    }
    found
}

/// The files of all pending subtrees, one subtree after the other, each
/// walked depth-first: the structural description of what the queue still
/// owes.
pub open spec fn queue_files(q: Seq<(Seq<u8>, Seq<FsEntry>)>, ig: bool) -> Seq<(Seq<u8>, Seq<u8>)>
    decreases q.len(),
{
    if q.len() == 0 {
        Seq::empty()
    } else {
        subtree_files(q[0].0, q[0].1, ig) + queue_files(q.drop_first(), ig)
    }
}

/// What two queues owe together is what each owes, in order.
proof fn lemma_queue_files_concat(
    a: Seq<(Seq<u8>, Seq<FsEntry>)>,
    b: Seq<(Seq<u8>, Seq<FsEntry>)>,
    ig: bool,
)
    ensures
        queue_files(a + b, ig) == queue_files(a, ig) + queue_files(b, ig),
    decreases a.len(),
{
    if a.len() == 0 {
        assert(a + b =~= b);
        assert(queue_files(a, ig) + queue_files(b, ig) =~= queue_files(b, ig));
    } else {
        assert((a + b).drop_first() =~= a.drop_first() + b);
        lemma_queue_files_concat(a.drop_first(), b, ig);
        assert(queue_files(a + b, ig) =~= queue_files(a, ig) + queue_files(b, ig));
    }
}

/// Queuing a listing's subdirectories owes exactly the files below them.
proof fn lemma_queue_files_of_dirs(dir: Seq<u8>, entries: Seq<FsEntry>, ig: bool)
    ensures
        queue_files(listing_dirs(dir, entries), ig) == dirs_files(dir, entries, ig),
    decreases entries,
{
    if entries.len() != 0 {
        let dl = entries.drop_last();
        lemma_queue_files_of_dirs(dir, dl, ig);
        lemma_queue_files_concat(listing_dirs(dir, dl), entry_dir(dir, entries.last()), ig);
        match entries.last().node {
            FsNode::Dir { entries: sub } => {
                let single = entry_dir(dir, entries.last());
                assert(single.drop_first() =~= Seq::<(Seq<u8>, Seq<FsEntry>)>::empty());
                assert(queue_files(Seq::<(Seq<u8>, Seq<FsEntry>)>::empty(), ig) =~= Seq::<
                    (Seq<u8>, Seq<u8>),
                >::empty());
                assert(single[0] == (spec_join(dir, entries.last().name@), sub@));
                assert(queue_files(single, ig) =~= subtree_files(
                    spec_join(dir, entries.last().name@),
                    sub@,
                    ig,
                ));
            },
            _ => {
                assert(entry_dir(dir, entries.last()) =~= Seq::<(Seq<u8>, Seq<FsEntry>)>::empty());
            },
        }
        assert(queue_files(listing_dirs(dir, entries), ig) =~= dirs_files(dir, entries, ig));
    }
}

/// The breadth-first walk emits, as a multiset, exactly the files its queue
/// owes: reordering siblings before grandchildren loses and invents
/// nothing.
proof fn lemma_bfs_files(q: Seq<(Seq<u8>, Seq<FsEntry>)>, ig: bool)
    ensures
        bfs(q, ig).to_multiset() == queue_files(q, ig).to_multiset(),
    decreases queue_size(q),
{
    broadcast use vstd::multiset::group_multiset_axioms;

    if q.len() != 0 {
        let rest = q.drop_first();
        let ld = listing_dirs(q[0].0, q[0].1);
        let lf = listing_files(q[0].0, q[0].1, ig);
        let df = dirs_files(q[0].0, q[0].1, ig);
        lemma_queue_size_concat(rest, ld);
        lemma_listing_dirs_size(q[0].0, q[0].1);
        lemma_bfs_files(rest + ld, ig);
        lemma_queue_files_concat(rest, ld, ig);
        lemma_queue_files_of_dirs(q[0].0, q[0].1, ig);
        vstd::seq_lib::lemma_multiset_commutative(lf, bfs(rest + ld, ig));
        vstd::seq_lib::lemma_multiset_commutative(queue_files(rest, ig), queue_files(ld, ig));
        vstd::seq_lib::lemma_multiset_commutative(subtree_files(q[0].0, q[0].1, ig), queue_files(
            rest,
            ig,
        ));
        vstd::seq_lib::lemma_multiset_commutative(lf, df);
        assert(bfs(q, ig).to_multiset() =~= queue_files(q, ig).to_multiset());
    }
}

/// A multiset with two occurrences of an element puts it at two positions.
proof fn lemma_count_two_indices(s: Seq<(Seq<u8>, Seq<u8>)>, x: (Seq<u8>, Seq<u8>))
    requires
        s.to_multiset().count(x) >= 2,
    ensures
        exists|a: int, b: int|
            0 <= a < b < s.len() && (#[trigger] s[a]) == x && (#[trigger] s[b]) == x,
{
    broadcast use vstd::seq_lib::group_to_multiset_ensures;
    broadcast use vstd::multiset::group_multiset_axioms;

    assert(s.to_multiset().count(x) > 0);
    assert(s.contains(x));
    let a = choose|i: int| 0 <= i < s.len() && s[i] == x;
    let r = s.remove(a);
    assert(r.to_multiset() == s.to_multiset().remove(s[a]));
    assert(r.to_multiset().count(x) > 0);
    assert(r.contains(x));
    let j = choose|i: int| 0 <= i < r.len() && r[i] == x;
    if j < a {
        assert(s[j] == x && s[a] == x);
    } else {
        assert(s[j + 1] == r[j]);
        assert(s[a] == x && s[j + 1] == x);
    }
}

/// Equal multisets with all-distinct paths on one side have all-distinct
/// paths on the other.
proof fn lemma_multiset_equal_distinct(s: Seq<(Seq<u8>, Seq<u8>)>, t: Seq<(Seq<u8>, Seq<u8>)>)
    requires
        s.to_multiset() == t.to_multiset(),
        paths_distinct(t),
    ensures
        paths_distinct(s),
{
    broadcast use vstd::seq_lib::group_to_multiset_ensures;
    broadcast use vstd::multiset::group_multiset_axioms;

    assert forall|a: int, b: int| 0 <= a < b < s.len() implies (#[trigger] s[a]).0 != (
    #[trigger] s[b]).0 by {
        if s[a].0 == s[b].0 {
            if s[a] == s[b] {
                let r = s.remove(a);
                assert(r.to_multiset() == s.to_multiset().remove(s[a]));
                assert(r[b - 1] == s[b]);
                assert(r.contains(s[a]));
                assert(r.to_multiset().count(s[a]) > 0);
                assert(s.to_multiset().count(s[a]) >= 2);
                lemma_count_two_indices(t, s[a]);
                let (ia, ib) = choose|ia: int, ib: int|
                    0 <= ia < ib < t.len() && (#[trigger] t[ia]) == s[a] && (#[trigger] t[ib])
                        == s[a];
                assert(t[ia].0 != t[ib].0);
                assert(false);
            } else {
                assert(s.contains(s[a]));
                assert(t.to_multiset().count(s[a]) > 0);
                assert(t.contains(s[a]));
                assert(s.contains(s[b]));
                assert(t.to_multiset().count(s[b]) > 0);
                assert(t.contains(s[b]));
                let ia = choose|i: int| 0 <= i < t.len() && t[i] == s[a];
                let ib = choose|i: int| 0 <= i < t.len() && t[i] == s[b];
                assert(ia != ib);
                if ia < ib {
                    assert(t[ia].0 != t[ib].0);
                } else {
                    assert(t[ib].0 != t[ia].0);
                }
                assert(false);
            }
        }
    }
}

/// Traversal over a well-formed tree yields exactly its kept regular files:
/// the same files as a structural walk of the tree, one output per file —
/// with empty files not ignored, as many paths as the tree has regular
/// files — and no path twice, whatever the nesting depth.
pub proof fn lemma_traversal_yields_each_file_once(path: Seq<u8>, root: FsNode, ig: bool)
    requires
        wf_node(root),
        root is Dir,
    ensures
        bfs(initial_queue(path, root), ig).to_multiset() == tree_files(path, root, ig)
            .to_multiset(),
        bfs(initial_queue(path, root), ig).len() == node_file_count(root, ig),
        paths_distinct(bfs(initial_queue(path, root), ig)),
{
    broadcast use vstd::seq_lib::group_to_multiset_ensures;

    let init = initial_queue(path, root);
    match root {
        FsNode::Dir { entries } => {
            lemma_bfs_files(init, ig);
            assert(init.drop_first() =~= Seq::<(Seq<u8>, Seq<FsEntry>)>::empty());
            assert(queue_files(Seq::<(Seq<u8>, Seq<FsEntry>)>::empty(), ig) =~= Seq::<
                (Seq<u8>, Seq<u8>),
            >::empty());
            assert(init[0] == (path, entries@));
            assert(queue_files(init, ig) =~= tree_files(path, root, ig));
            lemma_subtree_files_len(path, entries@, ig);
            assert(bfs(init, ig).len() == bfs(init, ig).to_multiset().len());
            assert(tree_files(path, root, ig).len() == tree_files(path, root, ig)
                .to_multiset()
                .len());
            lemma_subtree_files_distinct(path, entries@, ig);
            lemma_multiset_equal_distinct(bfs(init, ig), tree_files(path, root, ig));
        },
        _ => {},
    }
}

} // verus!
