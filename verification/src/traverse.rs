//! The traversal, event by event, for walking a directory tree that lives
//! outside memory: the machine keeps the breadth-first queue and takes the
//! decisions; its driver performs the listing and hands each listing back.
//! The driver's loop is: take the next pending directory, list it — on
//! failure report and move on — and give the machine the entries; the
//! machine answers with the file paths to emit, in listing order, and queues
//! the subdirectories at the back.

use vstd::prelude::*;
use crate::bytes::{join_path, path_views, spec_join};
use crate::fs::{listing_dirs, listing_files, FsEntry, FsNode};

verus! {

/// What a directory entry turned out to be, with a regular file's size from
/// its metadata.
pub enum EntryKind {
    Directory,
    RegularFile { size: u64 },
    Other,
}

/// One entry of a directory listing, as the driver reports it: the entry's
/// name and its kind.
pub struct ListingEntry {
    pub name: Vec<u8>,
    pub kind: EntryKind,
}

/// Whether a regular file of this size is emitted.
pub open spec fn keep_size(size: u64, ignore_empty: bool) -> bool {
    !(ignore_empty && size == 0)
}

/// The file path one entry contributes.
pub open spec fn entry_emits(dir: Seq<u8>, e: ListingEntry, ignore_empty: bool) -> Seq<Seq<u8>> {
    match e.kind {
        EntryKind::RegularFile { size } => {
            if keep_size(size, ignore_empty) {
                seq![spec_join(dir, e.name@)]
            } else {
                Seq::empty()
            }
        },
        _ => Seq::empty(),
    }
}

/// The file paths a listing emits, in listing order.
pub open spec fn listing_file_paths(dir: Seq<u8>, entries: Seq<ListingEntry>, ignore_empty: bool) -> Seq<Seq<u8>>
    decreases entries.len(),
{
    if entries.len() == 0 {
        Seq::empty()
    } else {
        listing_file_paths(dir, entries.drop_last(), ignore_empty) + entry_emits(
            dir,
            entries.last(),
            ignore_empty,
        )
    }
}

/// The directory path one entry contributes to the queue.
pub open spec fn entry_queues(dir: Seq<u8>, e: ListingEntry) -> Seq<Seq<u8>> {
    match e.kind {
        EntryKind::Directory => seq![spec_join(dir, e.name@)],
        _ => Seq::empty(),
    }
}

/// The subdirectory paths of a listing, in listing order.
pub open spec fn listing_dir_paths(dir: Seq<u8>, entries: Seq<ListingEntry>) -> Seq<Seq<u8>>
    decreases entries.len(),
{
    if entries.len() == 0 {
        Seq::empty()
    } else {
        listing_dir_paths(dir, entries.drop_last()) + entry_queues(dir, entries.last())
    }
}

/// The breadth-first traversal state: the pending directories, front first,
/// and the empty-file policy.
pub struct Traversal {
    pub queue: Vec<Vec<u8>>,
    pub ignore_empty_files: bool,
}

impl Traversal {
    /// The directories still to list, in visiting order.
    pub open spec fn pending(self) -> Seq<Seq<u8>> {
        path_views(self.queue@)
    }

    /// A traversal about to list the root.
    pub fn new(root: Vec<u8>, ignore_empty_files: bool) -> (t: Traversal)
        ensures
            t.pending() == seq![root@],
            t.ignore_empty_files == ignore_empty_files,
    {
        let mut queue: Vec<Vec<u8>> = Vec::new();
        queue.push(root);
        let t = Traversal { queue, ignore_empty_files };
        proof {
            assert(t.pending() =~= seq![t.queue@[0]@]);
        }
        t
    }

    /// Takes the next pending directory off the front of the queue; `None`
    /// once the walk is complete.
    pub fn next_dir(&mut self) -> (r: Option<Vec<u8>>)
        ensures
            final(self).ignore_empty_files == old(self).ignore_empty_files,
            match r {
                Some(dir) => {
                    &&& old(self).pending().len() > 0
                    &&& dir@ == old(self).pending()[0]
                    &&& final(self).pending() == old(self).pending().drop_first()
                },
                None => {
                    &&& old(self).pending().len() == 0
                    &&& final(self).pending() == old(self).pending()
                },
            },
    {
        if self.queue.len() == 0 {
            None
        } else {
            let dir = self.queue.remove(0);
            proof {
                assert(self.pending() =~= old(self).pending().drop_first());
            }
            Some(dir)
        }
    }

    /// Takes one directory's listing: returns the file paths to emit, in
    /// listing order — a zero-length file is withheld under the empty-file
    /// policy, an entry of unknown kind is skipped — and queues the
    /// subdirectories at the back, in listing order.
    pub fn on_listing(&mut self, dir: &Vec<u8>, entries: Vec<ListingEntry>) -> (files: Vec<
        Vec<u8>,
    >)
        ensures
            final(self).ignore_empty_files == old(self).ignore_empty_files,
            path_views(files@) == listing_file_paths(
                dir@,
                entries@,
                old(self).ignore_empty_files,
            ),
            final(self).pending() == old(self).pending() + listing_dir_paths(dir@, entries@),
    {
        let ghost all = entries@;
        let ghost ig = self.ignore_empty_files;
        let mut entries = entries;
        let mut files: Vec<Vec<u8>> = Vec::new();
        proof {
            assert(path_views(files@) =~= listing_file_paths(dir@, all.take(0), ig));
            assert(self.pending() =~= old(self).pending() + listing_dir_paths(dir@, all.take(0)));
        }
        while entries.len() > 0
            invariant
                self.ignore_empty_files == ig,
                all == all.take(all.len() - entries@.len()) + entries@,
                path_views(files@) == listing_file_paths(
                    dir@,
                    all.take(all.len() - entries@.len()),
                    ig,
                ),
                self.pending() == old(self).pending() + listing_dir_paths(
                    dir@,
                    all.take(all.len() - entries@.len()),
                ),
            decreases entries.len(),
        {
            let ghost done = all.len() - entries@.len();
            proof {
                assert(all[done] == entries@[0]);
                assert(all.take(done + 1).drop_last() =~= all.take(done));
                assert(all.take(done + 1).last() == all[done]);
            }
            let e = entries.remove(0);
            match e.kind {
                EntryKind::RegularFile { size } => {
                    if !(self.ignore_empty_files && size == 0) {
                        let path = join_path(dir, &e.name);
                        proof {
                            assert(path_views(files@.push(path)) =~= path_views(files@) + seq![
                                path@,
                            ]);
                        }
                        files.push(path);
                    } else {
                        proof {
                            assert(path_views(files@) =~= path_views(files@) + entry_emits(
                                dir@,
                                all[done],
                                ig,
                            ));
                        }
                    }
                },
                EntryKind::Directory => {
                    let path = join_path(dir, &e.name);
                    proof {
                        assert(path_views(self.queue@.push(path)) =~= path_views(self.queue@)
                            + seq![path@]);
                    }
                    self.queue.push(path);
                    proof {
                        assert(path_views(files@) =~= path_views(files@) + entry_emits(
                            dir@,
                            all[done],
                            ig,
                        ));
                    }
                },
                EntryKind::Other => {
                    proof {
                        assert(path_views(files@) =~= path_views(files@) + entry_emits(
                            dir@,
                            all[done],
                            ig,
                        ));
                        assert(path_views(self.queue@) =~= path_views(self.queue@) + entry_queues(
                            dir@,
                            all[done],
                        ));
                    }
                },
            }
            proof {
                assert(all.take(done + 1) + entries@ =~= all);
            }
        }
        proof {
            assert(all.take(all.len() as int) =~= all);
        }
        files
    }
}

/// One reported entry describes one tree entry: the same name, and the
/// kind and size that listing that node reports — a file's size is the
/// length of its contents.
pub open spec fn describes(e: ListingEntry, f: FsEntry) -> bool {
    &&& e.name@ == f.name@
    &&& match e.kind {
        EntryKind::RegularFile { size } => f.node matches FsNode::File { content }
            && size == content@.len(),
        EntryKind::Directory => f.node is Dir,
        EntryKind::Other => f.node is Other,
    }
}

/// A reported listing describes a tree listing entry by entry.
pub open spec fn describes_all(es: Seq<ListingEntry>, fs: Seq<FsEntry>) -> bool {
    &&& es.len() == fs.len()
    &&& forall|i: int| 0 <= i < es.len() ==> describes(#[trigger] es[i], fs[i])
}

/// The machine agrees with the tree model listing by listing: fed a
/// faithful report of a directory's entries, it emits exactly the paths of
/// the files the model emits there, and queues exactly the paths of the
/// subdirectories the model queues, both in listing order.
pub proof fn lemma_listing_agrees_with_tree(
    dir: Seq<u8>,
    es: Seq<ListingEntry>,
    fs: Seq<FsEntry>,
    ig: bool,
)
    requires
        describes_all(es, fs),
    ensures
        listing_file_paths(dir, es, ig) == listing_files(dir, fs, ig).map_values(
            |f: (Seq<u8>, Seq<u8>)| f.0,
        ),
        listing_dir_paths(dir, es) == listing_dirs(dir, fs).map_values(
            |d: (Seq<u8>, Seq<FsEntry>)| d.0,
        ),
    decreases es.len(),
{
    let file_path = |f: (Seq<u8>, Seq<u8>)| f.0;
    let dir_path = |d: (Seq<u8>, Seq<FsEntry>)| d.0;
    if es.len() == 0 {
        assert(listing_files(dir, fs, ig).map_values(file_path) =~= Seq::<Seq<u8>>::empty());
        assert(listing_dirs(dir, fs).map_values(dir_path) =~= Seq::<Seq<u8>>::empty());
    } else {
        assert(describes_all(es.drop_last(), fs.drop_last())) by {
            assert forall|i: int| 0 <= i < es.len() - 1 implies describes(
                #[trigger] es.drop_last()[i],
                fs.drop_last()[i],
            ) by {
                assert(es.drop_last()[i] == es[i] && fs.drop_last()[i] == fs[i]);
            }
        }
        lemma_listing_agrees_with_tree(dir, es.drop_last(), fs.drop_last(), ig);
        assert(describes(es.last(), fs.last()));
        assert(listing_file_paths(dir, es, ig) =~= listing_files(dir, fs, ig).map_values(
            file_path,
        ));
        assert(listing_dir_paths(dir, es) =~= listing_dirs(dir, fs).map_values(dir_path));
    }
}

} // verus!
