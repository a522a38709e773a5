//! An in-memory snapshot of a directory tree: the data the traversal walks
//! over. A node is a regular file with its contents, a directory with its
//! listed entries, or something else (a symlink, a socket), which traversal
//! skips. File sizes are the lengths of the contents.

use vstd::prelude::*;
use crate::bytes::spec_join;

verus! {

/// A node of a directory tree.
pub enum FsNode {
    /// A regular file and the bytes that opening it returns.
    File { content: Vec<u8> },
    /// A directory and its immediate entries, in listing order.
    Dir { entries: Vec<FsEntry> },
    /// Neither a regular file nor a directory.
    Other,
}

/// A named entry of a directory listing.
pub struct FsEntry {
    pub name: Vec<u8>,
    pub node: FsNode,
}

/// A file yielded by traversal: its full path and its contents.
pub struct FoundFile {
    pub path: Vec<u8>,
    pub content: Vec<u8>,
}

/// The mathematical value of a found file: path bytes and content bytes.
pub open spec fn found_view(f: FoundFile) -> (Seq<u8>, Seq<u8>) {
    (f.path@, f.content@)
}

/// The mathematical value of a traversal output.
pub open spec fn found_views(s: Seq<FoundFile>) -> Seq<(Seq<u8>, Seq<u8>)> {
    s.map_values(|f: FoundFile| found_view(f))
}

/// Whether a file with these contents is emitted: a zero-length file is
/// skipped when empty files are ignored.
pub open spec fn keep_file(content: Seq<u8>, ignore_empty: bool) -> bool {
    !(ignore_empty && content.len() == 0)
}

/// What one entry of the listing of directory `dir` contributes to the
/// emitted files: its own path and contents if it is a file that is kept.
pub open spec fn entry_file(dir: Seq<u8>, e: FsEntry, ignore_empty: bool) -> Seq<(Seq<u8>, Seq<u8>)> {
    match e.node {
        FsNode::File { content } => {
            if keep_file(content@, ignore_empty) {
                seq![(spec_join(dir, e.name@), content@)]
            } else {
                Seq::empty()
            }
        },
        _ => Seq::empty(),
    }
}

/// The files of one directory listing, in listing order.
pub open spec fn listing_files(dir: Seq<u8>, entries: Seq<FsEntry>, ignore_empty: bool) -> Seq<
    (Seq<u8>, Seq<u8>),
>
    decreases entries.len(),
{
    if entries.len() == 0 {
        Seq::empty()
    } else {
        listing_files(dir, entries.drop_last(), ignore_empty) + entry_file(
            dir,
            entries.last(),
            ignore_empty,
        )
    }
}

/// What one entry contributes to the pending subdirectories: its path and
/// its own entries if it is a directory.
pub open spec fn entry_dir(dir: Seq<u8>, e: FsEntry) -> Seq<(Seq<u8>, Seq<FsEntry>)> {
    match e.node {
        FsNode::Dir { entries } => seq![(spec_join(dir, e.name@), entries@)],
        _ => Seq::empty(),
    }
}

/// The subdirectories of one directory listing, in listing order.
pub open spec fn listing_dirs(dir: Seq<u8>, entries: Seq<FsEntry>) -> Seq<(Seq<u8>, Seq<FsEntry>)>
    decreases entries.len(),
{
    if entries.len() == 0 {
        Seq::empty()
    } else {
        listing_dirs(dir, entries.drop_last()) + entry_dir(dir, entries.last())
    }
}

/// The size of a node: how many directory listings live under it, itself
/// included. The measure that bounds a traversal.
pub open spec fn node_size(n: FsNode) -> nat
    decreases n,
{
    match n {
        FsNode::Dir { entries } => 1 + entries_size(entries@),
        _ => 0,
    }
}

/// The summed sizes of a sequence of entries, one unit per entry.
pub open spec fn entries_size(s: Seq<FsEntry>) -> nat
    decreases s,
{
    if s.len() == 0 {
        0
    } else {
        1 + node_size(s.last().node) + entries_size(s.drop_last())
    }
}

/// A legal entry name: nonempty and free of the separator, as the
/// filesystem guarantees for the names a directory listing hands out.
pub open spec fn valid_name(name: Seq<u8>) -> bool {
    name.len() > 0 && forall|i: int| 0 <= i < name.len() ==> name[i] != crate::bytes::SEPARATOR
}

/// No entry of `prefix` carries this name.
pub open spec fn fresh_name(prefix: Seq<FsEntry>, name: Seq<u8>) -> bool {
    forall|i: int| 0 <= i < prefix.len() ==> (#[trigger] prefix[i]).name@ != name
}

/// A well-formed tree: every entry name is legal, siblings carry distinct
/// names, and every subtree is well-formed in turn.
pub open spec fn wf_node(n: FsNode) -> bool
    decreases n,
{
    match n {
        FsNode::Dir { entries } => wf_entries(entries@),
        _ => true,
    }
}

/// Well-formedness of one directory's entries.
pub open spec fn wf_entries(s: Seq<FsEntry>) -> bool
    decreases s,
{
    if s.len() == 0 {
        true
    } else {
        &&& wf_entries(s.drop_last())
        &&& valid_name(s.last().name@)
        &&& wf_node(s.last().node)
        &&& fresh_name(s.drop_last(), s.last().name@)
    }
}

/// The files below the subdirectories of a listing, one subtree after the
/// other, each walked depth-first.
pub open spec fn dirs_files(dir: Seq<u8>, entries: Seq<FsEntry>, ignore_empty: bool) -> Seq<
    (Seq<u8>, Seq<u8>),
>
    decreases entries, 0int,
{
    if entries.len() == 0 {
        Seq::empty()
    } else {
        dirs_files(dir, entries.drop_last(), ignore_empty) + match entries.last().node {
            FsNode::Dir { entries: sub } => subtree_files(
                spec_join(dir, entries.last().name@),
                sub@,
                ignore_empty,
            ),
            _ => Seq::empty(),
        }
    }
}

/// All files anywhere below one directory listing: its own files, then the
/// files of its subtrees. The structural description of what a traversal
/// must deliver, in whatever order.
pub open spec fn subtree_files(dir: Seq<u8>, entries: Seq<FsEntry>, ignore_empty: bool) -> Seq<
    (Seq<u8>, Seq<u8>),
>
    decreases entries, 1int,
{
    listing_files(dir, entries, ignore_empty) + dirs_files(dir, entries, ignore_empty)
}

/// All files of the tree rooted at `root`.
pub open spec fn tree_files(path: Seq<u8>, root: FsNode, ignore_empty: bool) -> Seq<
    (Seq<u8>, Seq<u8>),
> {
    match root {
        FsNode::Dir { entries } => subtree_files(path, entries@, ignore_empty),
        _ => Seq::empty(),
    }
}

/// How many regular files a node holds, the node itself included, counting
/// only the files the empty-file filter keeps.
pub open spec fn node_file_count(n: FsNode, ignore_empty: bool) -> nat
    decreases n,
{
    match n {
        FsNode::File { content } => if keep_file(content@, ignore_empty) {
            1nat
        } else {
            0nat
        },
        FsNode::Dir { entries } => entries_file_count(entries@, ignore_empty),
        FsNode::Other => 0,
    }
}

/// How many regular files a sequence of entries holds, recursively.
pub open spec fn entries_file_count(s: Seq<FsEntry>, ignore_empty: bool) -> nat
    decreases s,
{
    if s.len() == 0 {
        0
    } else {
        entries_file_count(s.drop_last(), ignore_empty) + node_file_count(
            s.last().node,
            ignore_empty,
        )
    }
}

/// `p` lies strictly below the directory path `dir`: it is `dir`, the
/// separator, and at least one more byte.
pub open spec fn under(dir: Seq<u8>, p: Seq<u8>) -> bool {
    &&& p.len() > dir.len()
    &&& p.take(dir.len() as int) == dir
    &&& p[dir.len() as int] == crate::bytes::SEPARATOR
}

/// `p` belongs to the entry named `name` of directory `dir`: it is that
/// entry's own path, or lies below it.
pub open spec fn under_entry(dir: Seq<u8>, name: Seq<u8>, p: Seq<u8>) -> bool {
    p == spec_join(dir, name) || under(spec_join(dir, name), p)
}

/// No two files of the listing share a path.
pub open spec fn paths_distinct(files: Seq<(Seq<u8>, Seq<u8>)>) -> bool {
    forall|a: int, b: int|
        0 <= a < b < files.len() ==> (#[trigger] files[a]).0 != (#[trigger] files[b]).0
}

/// The entry path lies strictly below its directory.
pub proof fn lemma_under_join(dir: Seq<u8>, name: Seq<u8>)
    ensures
        under(dir, spec_join(dir, name)),
{
    let j = spec_join(dir, name);
    assert(j.take(dir.len() as int) =~= dir);
    assert(j[dir.len() as int] == crate::bytes::SEPARATOR);
}

/// Whatever belongs to an entry of `dir` lies strictly below `dir`.
pub proof fn lemma_under_entry_below_dir(dir: Seq<u8>, name: Seq<u8>, p: Seq<u8>)
    requires
        under_entry(dir, name, p),
    ensures
        under(dir, p),
{
    let j = spec_join(dir, name);
    lemma_under_join(dir, name);
    if p != j {
        assert(p.take(j.len() as int) == j);
        assert(p.take(dir.len() as int) =~= dir);
        assert(p[dir.len() as int] == j[dir.len() as int]);
    }
}

/// Two sibling entries with legal names can only claim the same path when
/// they carry the same name: ordered by name length.
proof fn lemma_siblings_ordered(dir: Seq<u8>, n1: Seq<u8>, n2: Seq<u8>, p: Seq<u8>)
    requires
        valid_name(n1),
        valid_name(n2),
        n1.len() <= n2.len(),
        under_entry(dir, n1, p),
        under_entry(dir, n2, p),
    ensures
        n1 == n2,
{
    let j1 = spec_join(dir, n1);
    let j2 = spec_join(dir, n2);
    assert(p.len() >= j2.len());
    assert(p.take(j2.len() as int) =~= j2);
    if n1.len() == n2.len() {
        assert(p.take(j1.len() as int) =~= j1);
        assert(j1 == j2);
        assert(n1 =~= n2) by {
            assert forall|t: int| 0 <= t < n1.len() implies n1[t] == n2[t] by {
                assert(j1[dir.len() + 1 + t] == n1[t]);
                assert(j2[dir.len() + 1 + t] == n2[t]);
            }
        }
    } else {
        // The shorter name's path ends, or descends, strictly inside the
        // longer sibling's own name: its separator byte would have to sit
        // inside that name.
        assert(j1.len() < j2.len() <= p.len());
        assert(p != j1);
        assert(p[j1.len() as int] == crate::bytes::SEPARATOR);
        assert(j2[j1.len() as int] == n2[n1.len() as int]);
        assert(p[j1.len() as int] == j2[j1.len() as int]);
        assert(false);
    }
}

/// A path belongs to at most one sibling entry: whoever owns it, the names
/// agree. Distinctly named siblings therefore never share a path.
pub proof fn lemma_sibling_owner_unique(dir: Seq<u8>, n1: Seq<u8>, n2: Seq<u8>, p: Seq<u8>)
    requires
        valid_name(n1),
        valid_name(n2),
        under_entry(dir, n1, p),
        under_entry(dir, n2, p),
    ensures
        n1 == n2,
{
    if n1.len() <= n2.len() {
        lemma_siblings_ordered(dir, n1, n2, p);
    } else {
        lemma_siblings_ordered(dir, n2, n1, p);
    }
}

/// What well-formedness gives entry by entry: legal names, well-formed
/// subtrees, pairwise distinct names.
pub proof fn lemma_wf_entries_facts(s: Seq<FsEntry>)
    requires
        wf_entries(s),
    ensures
        forall|i: int|
            0 <= i < s.len() ==> valid_name((#[trigger] s[i]).name@) && wf_node(s[i].node),
        forall|i: int, j: int|
            0 <= i < j < s.len() ==> (#[trigger] s[i]).name@ != (#[trigger] s[j]).name@,
    decreases s,
{
    if s.len() != 0 {
        lemma_wf_entries_facts(s.drop_last());
        assert forall|i: int|
            0 <= i < s.len() implies valid_name((#[trigger] s[i]).name@) && wf_node(
            s[i].node,
        ) by {
            if i < s.len() - 1 {
                assert(s.drop_last()[i] == s[i]);
            }
        }
        assert forall|i: int, j: int|
            0 <= i < j < s.len() implies (#[trigger] s[i]).name@ != (#[trigger] s[j]).name@ by {
            if j < s.len() - 1 {
                assert(s.drop_last()[i] == s[i] && s.drop_last()[j] == s[j]);
            } else {
                assert(s.drop_last()[i] == s[i]);
            }
        }
    }
}

/// Every file a listing emits lies strictly below the listing's directory.
proof fn lemma_listing_files_under(dir: Seq<u8>, entries: Seq<FsEntry>, ig: bool)
    ensures
        forall|t: int|
            0 <= t < listing_files(dir, entries, ig).len() ==> under(
                dir,
                (#[trigger] listing_files(dir, entries, ig)[t]).0,
            ),
    decreases entries,
{
    if entries.len() != 0 {
        let dl = entries.drop_last();
        lemma_listing_files_under(dir, dl, ig);
        lemma_under_join(dir, entries.last().name@);
        assert forall|t: int|
            0 <= t < listing_files(dir, entries, ig).len() implies under(
            dir,
            (#[trigger] listing_files(dir, entries, ig)[t]).0,
        ) by {
            let prev = listing_files(dir, dl, ig);
            let tail = entry_file(dir, entries.last(), ig);
            assert(listing_files(dir, entries, ig) == prev + tail);
            if t < prev.len() {
                assert((prev + tail)[t] == prev[t]);
            } else {
                assert((prev + tail)[t] == tail[t - prev.len()]);
                assert(tail[0].0 == spec_join(dir, entries.last().name@));
            }
        }
    }
}

/// Every file below a listing's subdirectories lies strictly below the
/// listing's directory.
proof fn lemma_dirs_files_under(dir: Seq<u8>, entries: Seq<FsEntry>, ig: bool)
    ensures
        forall|t: int|
            0 <= t < dirs_files(dir, entries, ig).len() ==> under(
                dir,
                (#[trigger] dirs_files(dir, entries, ig)[t]).0,
            ),
    decreases entries, 0int,
{
    if entries.len() != 0 {
        let dl = entries.drop_last();
        lemma_dirs_files_under(dir, dl, ig);
        let prev = dirs_files(dir, dl, ig);
        let tail = match entries.last().node {
            FsNode::Dir { entries: sub } => subtree_files(
                spec_join(dir, entries.last().name@),
                sub@,
                ig,
            ),
            _ => Seq::empty(),
        };
        assert(dirs_files(dir, entries, ig) == prev + tail);
        match entries.last().node {
            FsNode::Dir { entries: sub } => {
                lemma_subtree_files_under(spec_join(dir, entries.last().name@), sub@, ig);
            },
            _ => {},
        }
        assert forall|t: int|
            0 <= t < dirs_files(dir, entries, ig).len() implies under(
            dir,
            (#[trigger] dirs_files(dir, entries, ig)[t]).0,
        ) by {
            if t < prev.len() {
                assert((prev + tail)[t] == prev[t]);
            } else {
                assert((prev + tail)[t] == tail[t - prev.len()]);
                match entries.last().node {
                    FsNode::Dir { entries: sub } => {
                        let child = spec_join(dir, entries.last().name@);
                        let q = subtree_files(child, sub@, ig)[t - prev.len()];
                        assert(under(child, q.0));
                        lemma_under_entry_below_dir(dir, entries.last().name@, q.0);
                    },
                    _ => {},
                }
            }
        }
    }
}

/// Every file anywhere below a listing lies strictly below the listing's
/// directory.
pub proof fn lemma_subtree_files_under(dir: Seq<u8>, entries: Seq<FsEntry>, ig: bool)
    ensures
        forall|t: int|
            0 <= t < subtree_files(dir, entries, ig).len() ==> under(
                dir,
                (#[trigger] subtree_files(dir, entries, ig)[t]).0,
            ),
    decreases entries, 1int,
{
    lemma_listing_files_under(dir, entries, ig);
    lemma_dirs_files_under(dir, entries, ig);
    let lf = listing_files(dir, entries, ig);
    let df = dirs_files(dir, entries, ig);
    assert forall|t: int|
        0 <= t < subtree_files(dir, entries, ig).len() implies under(
        dir,
        (#[trigger] subtree_files(dir, entries, ig)[t]).0,
    ) by {
        assert(subtree_files(dir, entries, ig) == lf + df);
        if t < lf.len() {
            assert((lf + df)[t] == lf[t]);
        } else {
            assert((lf + df)[t] == df[t - lf.len()]);
        }
    }
}

/// Some entry of the listing owns this path.
pub open spec fn attributed(dir: Seq<u8>, entries: Seq<FsEntry>, p: Seq<u8>) -> bool {
    exists|i: int| 0 <= i < entries.len() && under_entry(dir, (#[trigger] entries[i]).name@, p)
}

/// Every file a listing emits belongs to one of its entries.
proof fn lemma_listing_files_attributed(dir: Seq<u8>, entries: Seq<FsEntry>, ig: bool)
    ensures
        forall|t: int|
            0 <= t < listing_files(dir, entries, ig).len() ==> attributed(
                dir,
                entries,
                (#[trigger] listing_files(dir, entries, ig)[t]).0,
            ),
    decreases entries,
{
    if entries.len() != 0 {
        let dl = entries.drop_last();
        lemma_listing_files_attributed(dir, dl, ig);
        assert forall|t: int|
            0 <= t < listing_files(dir, entries, ig).len() implies attributed(
            dir,
            entries,
            (#[trigger] listing_files(dir, entries, ig)[t]).0,
        ) by {
            let p = listing_files(dir, entries, ig)[t].0;
            if t < listing_files(dir, dl, ig).len() {
                assert(listing_files(dir, entries, ig)[t] == listing_files(dir, dl, ig)[t]);
                let i = choose|i: int|
                    0 <= i < dl.len() && under_entry(dir, (#[trigger] dl[i]).name@, p);
                assert(under_entry(dir, entries[i].name@, p));
            } else {
                assert(p == spec_join(dir, entries.last().name@));
                assert(under_entry(dir, entries[entries.len() - 1].name@, p));
            }
        }
    }
}

/// Every file below a listing's subdirectories belongs to one of its
/// entries.
proof fn lemma_dirs_files_attributed(dir: Seq<u8>, entries: Seq<FsEntry>, ig: bool)
    ensures
        forall|t: int|
            0 <= t < dirs_files(dir, entries, ig).len() ==> attributed(
                dir,
                entries,
                (#[trigger] dirs_files(dir, entries, ig)[t]).0,
            ),
    decreases entries,
{
    if entries.len() != 0 {
        let dl = entries.drop_last();
        lemma_dirs_files_attributed(dir, dl, ig);
        match entries.last().node {
            FsNode::Dir { entries: sub } => {
                lemma_subtree_files_under(spec_join(dir, entries.last().name@), sub@, ig);
            },
            _ => {},
        }
        assert forall|t: int|
            0 <= t < dirs_files(dir, entries, ig).len() implies attributed(
            dir,
            entries,
            (#[trigger] dirs_files(dir, entries, ig)[t]).0,
        ) by {
            let p = dirs_files(dir, entries, ig)[t].0;
            if t < dirs_files(dir, dl, ig).len() {
                assert(dirs_files(dir, entries, ig)[t] == dirs_files(dir, dl, ig)[t]);
                let i = choose|i: int|
                    0 <= i < dl.len() && under_entry(dir, (#[trigger] dl[i]).name@, p);
                assert(under_entry(dir, entries[i].name@, p));
            } else {
                match entries.last().node {
                    FsNode::Dir { entries: sub } => {
                        let child = spec_join(dir, entries.last().name@);
                        let q = subtree_files(child, sub@, ig)[t - dirs_files(dir, dl, ig).len()];
                        assert(dirs_files(dir, entries, ig)[t] == q);
                        assert(under(child, q.0));
                        assert(under_entry(dir, entries[entries.len() - 1].name@, p));
                    },
                    _ => {},
                }
            }
        }
    }
}

/// Every file anywhere below a listing belongs to one of its entries.
pub proof fn lemma_subtree_files_attributed(dir: Seq<u8>, entries: Seq<FsEntry>, ig: bool)
    ensures
        forall|t: int|
            0 <= t < subtree_files(dir, entries, ig).len() ==> attributed(
                dir,
                entries,
                (#[trigger] subtree_files(dir, entries, ig)[t]).0,
            ),
    decreases entries,
{
    lemma_listing_files_attributed(dir, entries, ig);
    lemma_dirs_files_attributed(dir, entries, ig);
    assert forall|t: int|
        0 <= t < subtree_files(dir, entries, ig).len() implies attributed(
        dir,
        entries,
        (#[trigger] subtree_files(dir, entries, ig)[t]).0,
    ) by {
        let lf = listing_files(dir, entries, ig);
        let df = dirs_files(dir, entries, ig);
        if t < lf.len() {
            assert(subtree_files(dir, entries, ig)[t] == lf[t]);
        } else {
            assert(subtree_files(dir, entries, ig)[t] == df[t - lf.len()]);
        }
    }
}

/// A walk of a listing's subtree returns one file per kept regular file
/// below it.
pub proof fn lemma_subtree_files_len(dir: Seq<u8>, entries: Seq<FsEntry>, ig: bool)
    ensures
        subtree_files(dir, entries, ig).len() == entries_file_count(entries, ig),
    decreases entries,
{
    if entries.len() == 0 {
        assert(listing_files(dir, entries, ig).len() == 0);
        assert(dirs_files(dir, entries, ig).len() == 0);
    } else {
        let dl = entries.drop_last();
        lemma_subtree_files_len(dir, dl, ig);
        assert(subtree_files(dir, entries, ig).len() == listing_files(dir, entries, ig).len()
            + dirs_files(dir, entries, ig).len());
        assert(subtree_files(dir, dl, ig).len() == listing_files(dir, dl, ig).len() + dirs_files(
            dir,
            dl,
            ig,
        ).len());
        assert(entries_file_count(entries, ig) == entries_file_count(dl, ig) + node_file_count(
            entries.last().node,
            ig,
        ));
        assert(listing_files(dir, entries, ig).len() == listing_files(dir, dl, ig).len()
            + entry_file(dir, entries.last(), ig).len());
        match entries.last().node {
            FsNode::Dir { entries: sub } => {
                let child = spec_join(dir, entries.last().name@);
                lemma_subtree_files_len(child, sub@, ig);
                assert(dirs_files(dir, entries, ig).len() == dirs_files(dir, dl, ig).len()
                    + subtree_files(child, sub@, ig).len());
                assert(node_file_count(entries.last().node, ig) == entries_file_count(sub@, ig));
            },
            FsNode::File { content } => {
                assert(dirs_files(dir, entries, ig).len() == dirs_files(dir, dl, ig).len());
                assert(entry_file(dir, entries.last(), ig).len() == node_file_count(
                    entries.last().node,
                    ig,
                ));
            },
            FsNode::Other => {
                assert(dirs_files(dir, entries, ig).len() == dirs_files(dir, dl, ig).len());
                assert(entry_file(dir, entries.last(), ig).len() == 0);
            },
        }
    }
}

/// Under well-formedness — legal names, distinct siblings — no two files
/// anywhere below one listing share a path: names separate siblings, and
/// the separator keeps a subtree's paths inside its own directory.
pub proof fn lemma_subtree_files_distinct(dir: Seq<u8>, entries: Seq<FsEntry>, ig: bool)
    requires
        wf_entries(entries),
    ensures
        paths_distinct(subtree_files(dir, entries, ig)),
    decreases entries,
{
    if entries.len() == 0 {
        assert(subtree_files(dir, entries, ig).len() == 0);
    } else {
        let dl = entries.drop_last();
        let l = entries.last();
        lemma_wf_entries_facts(entries);
        lemma_subtree_files_distinct(dir, dl, ig);
        lemma_subtree_files_attributed(dir, dl, ig);
        let lf1 = listing_files(dir, dl, ig);
        let ef = entry_file(dir, l, ig);
        let df1 = dirs_files(dir, dl, ig);
        let esub = match l.node {
            FsNode::Dir { entries: sub } => subtree_files(spec_join(dir, l.name@), sub@, ig),
            _ => Seq::empty(),
        };
        let s = subtree_files(dir, entries, ig);
        let prev = subtree_files(dir, dl, ig);
        assert(listing_files(dir, entries, ig) == lf1 + ef);
        assert(dirs_files(dir, entries, ig) == df1 + esub);
        assert(s == (lf1 + ef) + (df1 + esub));
        assert(prev == lf1 + df1);
        let l1 = lf1.len() as int;
        let e = ef.len() as int;
        let d1 = df1.len() as int;
        match l.node {
            FsNode::Dir { entries: sub } => {
                assert(wf_node(l.node));
                lemma_subtree_files_distinct(spec_join(dir, l.name@), sub@, ig);
                lemma_subtree_files_under(spec_join(dir, l.name@), sub@, ig);
                assert(e == 0);
            },
            _ => {
                assert(esub.len() == 0);
            },
        }
        assert(e <= 1);
        // Where each position of the grown listing comes from.
        assert forall|t: int| 0 <= t < l1 implies s[t] == prev[t] by {
            assert(s[t] == (lf1 + ef)[t]);
            assert((lf1 + ef)[t] == lf1[t]);
            assert(prev[t] == lf1[t]);
        }
        assert forall|t: int| l1 <= t < l1 + e implies s[t] == ef[t - l1] by {
            assert(s[t] == (lf1 + ef)[t]);
        }
        assert forall|t: int| l1 + e <= t < l1 + e + d1 implies s[t] == prev[t - e] by {
            assert(s[t] == (df1 + esub)[t - (l1 + e)]);
            assert((df1 + esub)[t - (l1 + e)] == df1[t - l1 - e]);
            assert(prev[t - e] == df1[t - e - l1]);
        }
        assert forall|t: int| l1 + e + d1 <= t < s.len() implies s[t] == esub[t - l1 - e - d1] by {
            assert(s[t] == (df1 + esub)[t - (l1 + e)]);
        }
        // The last entry's own contribution stays inside that entry.
        assert forall|t: int| l1 + e + d1 <= t < s.len() implies under_entry(
            dir,
            l.name@,
            s[t].0,
        ) by {
            match l.node {
                FsNode::Dir { entries: sub } => {
                    assert(under(spec_join(dir, l.name@), esub[t - l1 - e - d1].0));
                },
                _ => {},
            }
        }
        assert forall|t: int| l1 <= t < l1 + e implies under_entry(dir, l.name@, s[t].0) by {
            assert(ef[0].0 == spec_join(dir, l.name@));
        }
        assert forall|a: int, b: int| 0 <= a < b < s.len() implies (#[trigger] s[a]).0 != (
        #[trigger] s[b]).0 by {
            let left_a = a < l1 || (l1 + e <= a < l1 + e + d1);
            let left_b = b < l1 || (l1 + e <= b < l1 + e + d1);
            let ua = if a < l1 { a } else { a - e };
            let ub = if b < l1 { b } else { b - e };
            if left_a && left_b {
                assert(s[a] == prev[ua] && s[b] == prev[ub]);
                assert(0 <= ua < ub < prev.len());
                assert(prev[ua].0 != prev[ub].0);
            } else if !left_a && !left_b {
                if l1 <= a < l1 + e && l1 <= b < l1 + e {
                    assert(false);
                } else if a >= l1 + e + d1 && b >= l1 + e + d1 {
                    match l.node {
                        FsNode::Dir { entries: sub } => {
                            let ia = a - l1 - e - d1;
                            let ib = b - l1 - e - d1;
                            assert(s[a] == esub[ia] && s[b] == esub[ib]);
                            assert(esub[ia].0 != esub[ib].0);
                        },
                        _ => {
                            assert(false);
                        },
                    }
                } else {
                    // one in the file slot, one in the subtree: the entry
                    // cannot be both a file and a directory
                    assert(e > 0 && esub.len() > 0);
                    assert(false);
                }
            } else {
                // one path from an earlier entry, one from the last entry
                let tl = if left_a { a } else { b };
                let tr = if left_a { b } else { a };
                let ul = if tl < l1 { tl } else { tl - e };
                let p = s[tl].0;
                let q = s[tr].0;
                assert(s[tl] == prev[ul]);
                assert(attributed(dir, dl, prev[ul].0));
                let i = choose|i: int|
                    0 <= i < dl.len() && under_entry(dir, (#[trigger] dl[i]).name@, p);
                assert(dl[i] == entries[i]);
                assert(valid_name(entries[i].name@));
                assert(under_entry(dir, l.name@, q));
                assert(entries[i].name@ != l.name@);
                if p == q {
                    lemma_sibling_owner_unique(dir, dl[i].name@, l.name@, p);
                    assert(false);
                }
            }
        }
    }
}

} // verus!
