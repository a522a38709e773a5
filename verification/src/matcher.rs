//! The duplicate matcher: drives traversal, fingerprinting, the index and
//! the comparator over a reference tree and a candidate tree. For each
//! candidate file it probes the index with the candidate's fingerprint and
//! confirms every same-fingerprint reference file by exact comparison; a
//! fingerprint collision alone is never reported as a duplicate.

use vstd::prelude::*;
use crate::bytes::{bytes_eq, clone_bytes, path_views};
use crate::compare::{compare, streams_equal};
use crate::fs::{found_views, FoundFile, FsNode};
use crate::hash::{fingerprint_spec, lemma_fp_of_bound, prefix_len};
use crate::index::{bucket_of, files_by_hash, fingerprint_bytes, index_spec, FingerprintIndex};
use crate::reader::Reader;
use crate::search::{bfs, initial_queue, search};

verus! {

/// The run's configuration: the fingerprint prefix length, whether
/// zero-length files are skipped, and whether originals are reported
/// instead of duplicates.
#[derive(Clone, Copy, Debug)]
pub struct Config {
    pub hash_prefix: usize,
    pub ignore_empty_files: bool,
    pub show_original_files: bool,
}

/// One report event: a candidate with no confirmed duplicate, or a confirmed
/// reference/candidate pair.
#[derive(Debug, PartialEq, Eq)]
pub enum Report {
    Original(Vec<u8>),
    Duplicate(Vec<u8>, Vec<u8>),
}

/// The mathematical value of a report event.
pub enum ReportView {
    Original(Seq<u8>),
    Duplicate(Seq<u8>, Seq<u8>),
}

pub open spec fn report_view(r: Report) -> ReportView {
    match r {
        Report::Original(path) => ReportView::Original(path@),
        Report::Duplicate(reference, candidate) => ReportView::Duplicate(reference@, candidate@),
    }
}

pub open spec fn report_views(s: Seq<Report>) -> Seq<ReportView> {
    s.map_values(|r: Report| report_view(r))
}

/// The bytes that opening `path` among the reference files returns: the
/// contents of the first reference file carrying that path.
pub open spec fn first_content(refs: Seq<(Seq<u8>, Seq<u8>)>, path: Seq<u8>) -> Option<Seq<u8>>
    decreases refs.len(),
{
    if refs.len() == 0 {
        None
    } else if refs[0].0 == path {
        Some(refs[0].1)
    } else {
        first_content(refs.drop_first(), path)
    }
}

/// The fingerprint as the 64-bit word the index is keyed by.
pub open spec fn fp64(content: Seq<u8>, k: int) -> u64 {
    fingerprint_spec(content, k) as u64
}

/// Whether a bucket path is confirmed as a duplicate of the candidate: it is
/// not the candidate's own path, and the contents found by opening it
/// compare equal to the candidate's contents.
pub open spec fn confirms_duplicate(
    refs: Seq<(Seq<u8>, Seq<u8>)>,
    path: Seq<u8>,
    cand_path: Seq<u8>,
    cand_content: Seq<u8>,
) -> bool {
    &&& path != cand_path
    &&& match first_content(refs, path) {
        Some(reference_content) => streams_equal(reference_content, cand_content),
        None => false,
    }
}

/// The duplicate reports from scanning the first `n` bucket entries, in
/// bucket order.
pub open spec fn duplicates_upto(
    refs: Seq<(Seq<u8>, Seq<u8>)>,
    bucket: Seq<Seq<u8>>,
    cand_path: Seq<u8>,
    cand_content: Seq<u8>,
    n: int,
) -> Seq<ReportView>
    decreases n,
{
    if n <= 0 {
        Seq::empty()
    } else {
        duplicates_upto(refs, bucket, cand_path, cand_content, n - 1) + if confirms_duplicate(
            refs,
            bucket[n - 1],
            cand_path,
            cand_content,
        ) {
            seq![ReportView::Duplicate(bucket[n - 1], cand_path)]
        } else {
            Seq::empty()
        }
    }
}

/// The duplicate reports from scanning a whole bucket.
pub open spec fn duplicate_reports(
    refs: Seq<(Seq<u8>, Seq<u8>)>,
    bucket: Seq<Seq<u8>>,
    cand_path: Seq<u8>,
    cand_content: Seq<u8>,
) -> Seq<ReportView> {
    duplicates_upto(refs, bucket, cand_path, cand_content, bucket.len() as int)
}

/// The reports one candidate produces: when duplicates are shown, one
/// `Duplicate` per confirmed reference, in bucket order; when originals are
/// shown, one `Original` exactly when no reference was confirmed — a
/// fingerprint collision with no verified match is still an original.
pub open spec fn candidate_reports(
    refs: Seq<(Seq<u8>, Seq<u8>)>,
    k: int,
    show_original: bool,
    cand_path: Seq<u8>,
    cand_content: Seq<u8>,
) -> Seq<ReportView> {
    let bucket = bucket_of(index_spec(refs, k), fp64(cand_content, k));
    let dups = duplicate_reports(refs, bucket, cand_path, cand_content);
    if show_original {
        if dups.len() == 0 {
            seq![ReportView::Original(cand_path)]
        } else {
            Seq::empty()
        }
    } else {
        dups
    }
}

/// The whole run's reports: each candidate's reports in candidate-traversal
/// order.
pub open spec fn run_spec(
    refs: Seq<(Seq<u8>, Seq<u8>)>,
    cands: Seq<(Seq<u8>, Seq<u8>)>,
    k: int,
    show_original: bool,
) -> Seq<ReportView>
    decreases cands.len(),
{
    if cands.len() == 0 {
        Seq::empty()
    } else {
        run_spec(refs, cands.drop_last(), k, show_original) + candidate_reports(
            refs,
            k,
            show_original,
            cands.last().0,
            cands.last().1,
        )
    }
}

/// The first reference file with the given path, if any: the model of
/// opening a reference path.
fn find_content<'a>(refs: &'a Vec<FoundFile>, path: &Vec<u8>) -> (r: Option<&'a Vec<u8>>)
    ensures
        match r {
            Some(content) => first_content(found_views(refs@), path@) == Some(content@),
            None => first_content(found_views(refs@), path@) is None,
        },
{
    let n = refs.len();
    let mut i: usize = 0;
    proof {
        assert(found_views(refs@).skip(0) =~= found_views(refs@));
    }
    while i < n
        invariant
            n == refs@.len(),
            0 <= i <= n,
            first_content(found_views(refs@), path@) == first_content(
                found_views(refs@).skip(i as int),
                path@,
            ),
        decreases n - i,
    {
        proof {
            assert(found_views(refs@).skip(i as int)[0] == found_views(refs@)[i as int]);
            assert(found_views(refs@).skip(i as int).drop_first() =~= found_views(refs@).skip(
                i + 1,
            ));
        }
        if bytes_eq(&refs[i].path, path) {
            return Some(&refs[i].content);
        }
        i = i + 1;
    }
    proof {
        assert(found_views(refs@).skip(n as int) =~= Seq::<(Seq<u8>, Seq<u8>)>::empty());
    }
    None
}

/// Some reference file carries this path.
pub open spec fn names_reference(refs: Seq<(Seq<u8>, Seq<u8>)>, path: Seq<u8>) -> bool {
    exists|i: int| 0 <= i < refs.len() && (#[trigger] refs[i]).0 == path
}

/// A path that names some reference file can be opened: its first content
/// exists.
proof fn lemma_first_content_found(refs: Seq<(Seq<u8>, Seq<u8>)>, path: Seq<u8>)
    requires
        names_reference(refs, path),
    ensures
        first_content(refs, path) is Some,
    decreases refs.len(),
{
    if refs[0].0 != path {
        let i = choose|i: int| 0 <= i < refs.len() && (#[trigger] refs[i]).0 == path;
        assert(refs.drop_first()[i - 1] == refs[i]);
        assert(names_reference(refs.drop_first(), path));
        lemma_first_content_found(refs.drop_first(), path);
    }
}

/// Every path in a bucket of the index built over `refs` names a reference
/// file.
proof fn lemma_bucket_paths_from_refs(refs: Seq<(Seq<u8>, Seq<u8>)>, k: int, h: u64)
    ensures
        forall|j: int|
            0 <= j < bucket_of(index_spec(refs, k), h).len() ==> names_reference(
                refs,
                #[trigger] bucket_of(index_spec(refs, k), h)[j],
            ),
    decreases refs.len(),
{
    let pairs = index_spec(refs, k);
    let bucket = bucket_of(pairs, h);
    if refs.len() == 0 {
        assert(pairs =~= Seq::<(u64, Seq<u8>)>::empty());
    } else {
        let prev = refs.drop_last();
        lemma_bucket_paths_from_refs(prev, k, h);
        assert(pairs.drop_last() =~= index_spec(prev, k));
        let prev_bucket = bucket_of(index_spec(prev, k), h);
        assert forall|j: int| 0 <= j < bucket.len() implies names_reference(refs, bucket[j]) by {
            if j < prev_bucket.len() {
                assert(bucket[j] == prev_bucket[j]);
                assert(names_reference(prev, prev_bucket[j]));
                let i = choose|i: int| 0 <= i < prev.len() && (#[trigger] prev[i]).0 == bucket[j];
                assert(refs[i].0 == bucket[j]);
            } else {
                assert(pairs.last().0 == h && bucket[j] == pairs.last().1);
                assert(refs[refs.len() - 1].0 == bucket[j]);
            }
        }
    }
}

/// Handles one candidate file: probes the index with its fingerprint, runs
/// the exact comparison against every same-fingerprint reference path other
/// than the candidate's own, and appends this candidate's reports.
fn match_candidate(
    refs: &Vec<FoundFile>,
    index: &FingerprintIndex,
    cand: &FoundFile,
    config: &Config,
    reports: &mut Vec<Report>,
)
    requires
        index.entries() == index_spec(found_views(refs@), config.hash_prefix as int),
    ensures
        report_views(final(reports)@) == report_views(old(reports)@) + candidate_reports(
            found_views(refs@),
            config.hash_prefix as int,
            config.show_original_files,
            cand.path@,
            cand.content@,
        ),
{
    let ghost rviews = found_views(refs@);
    let ghost k = config.hash_prefix as int;
    let h = fingerprint_bytes(&cand.content, config.hash_prefix);
    proof {
        lemma_fp_of_bound(cand.content@.take(prefix_len(cand.content@, k)));
        assert(h == fp64(cand.content@, k));
    }
    let bucket = index.lookup(h);
    let ghost bview = path_views(bucket@);
    proof {
        lemma_bucket_paths_from_refs(rviews, k, h);
    }
    let mut has_duplicate = false;
    let ghost mut dups: Seq<ReportView> = Seq::empty();
    let n = bucket.len();
    let mut j: usize = 0;
    while j < n
        invariant
            n == bucket@.len(),
            0 <= j <= n,
            rviews == found_views(refs@),
            k == config.hash_prefix as int,
            bview == path_views(bucket@),
            bview == bucket_of(index_spec(rviews, k), fp64(cand.content@, k)),
            forall|t: int| 0 <= t < bview.len() ==> names_reference(rviews, #[trigger] bview[t]),
            dups == duplicates_upto(rviews, bview, cand.path@, cand.content@, j as int),
            has_duplicate == (dups.len() > 0),
            report_views(reports@) == report_views(old(reports)@) + (if config
                .show_original_files {
                Seq::<ReportView>::empty()
            } else {
                dups
            }),
        decreases n - j,
    {
        let path = &bucket[j];
        proof {
            assert(path@ == bview[j as int]);
        }
        if !bytes_eq(path, &cand.path) {
            match find_content(refs, path) {
                Some(reference_content) => {
                    let mut stream_1 = Reader::new(clone_bytes(reference_content));
                    let mut stream_2 = Reader::new(clone_bytes(&cand.content));
                    let equal = match compare(&mut stream_1, &mut stream_2) {
                        Ok(eq) => eq,
                        Err(_) => unreached(),
                    };
                    if equal {
                        has_duplicate = true;
                        proof {
                            dups = dups + seq![ReportView::Duplicate(bview[j as int], cand.path@)];
                        }
                        if !config.show_original_files {
                            let report = Report::Duplicate(
                                clone_bytes(path),
                                clone_bytes(&cand.path),
                            );
                            proof {
                                assert(report_views(reports@.push(report)) =~= report_views(
                                    reports@,
                                ) + seq![report_view(report)]);
                            }
                            reports.push(report);
                        }
                    }
                },
                None => {
                    proof {
                        lemma_first_content_found(rviews, bview[j as int]);
                    }
                    unreached()
                },
            }
        }
        proof {
            assert(dups == duplicates_upto(rviews, bview, cand.path@, cand.content@, j + 1));
            if !config.show_original_files {
                assert(report_views(reports@) =~= report_views(old(reports)@) + dups);
            }
        }
        j = j + 1;
    }
    if config.show_original_files {
        if !has_duplicate {
            let report = Report::Original(clone_bytes(&cand.path));
            proof {
                assert(report_views(reports@.push(report)) =~= report_views(reports@) + seq![
                    report_view(report),
                ]);
            }
            reports.push(report);
        }
    }
    proof {
        let expected = candidate_reports(
            rviews,
            k,
            config.show_original_files,
            cand.path@,
            cand.content@,
        );
        assert(report_views(reports@) =~= report_views(old(reports)@) + expected);
    }
}

/// The whole detection pass: builds the fingerprint index over the reference
/// tree, then walks the candidate tree and reports, per candidate and in
/// candidate-traversal order, either its confirmed duplicates or — when
/// originals are shown — the candidate itself if nothing was confirmed.
pub fn run(
    reference_path: Vec<u8>,
    reference_root: FsNode,
    candidate_path: Vec<u8>,
    candidate_root: FsNode,
    config: &Config,
) -> (reports: Vec<Report>)
    ensures
        report_views(reports@) == run_spec(
            bfs(initial_queue(reference_path@, reference_root), config.ignore_empty_files),
            bfs(initial_queue(candidate_path@, candidate_root), config.ignore_empty_files),
            config.hash_prefix as int,
            config.show_original_files,
        ),
{
    let ghost k = config.hash_prefix as int;
    let refs = search(reference_path, reference_root, config.ignore_empty_files);
    let index = files_by_hash(&refs, config.hash_prefix);
    let cands = search(candidate_path, candidate_root, config.ignore_empty_files);
    let ghost rviews = found_views(refs@);
    let ghost cviews = found_views(cands@);
    let mut reports: Vec<Report> = Vec::new();
    let n = cands.len();
    let mut i: usize = 0;
    proof {
        assert(report_views(reports@) =~= run_spec(
            rviews,
            cviews.take(0),
            k,
            config.show_original_files,
        ));
    }
    while i < n
        invariant
            n == cands@.len(),
            0 <= i <= n,
            rviews == found_views(refs@),
            cviews == found_views(cands@),
            k == config.hash_prefix as int,
            index.entries() == index_spec(rviews, k),
            report_views(reports@) == run_spec(
                rviews,
                cviews.take(i as int),
                k,
                config.show_original_files,
            ),
        decreases n - i,
    {
        proof {
            assert(cviews.take(i + 1).drop_last() =~= cviews.take(i as int));
            assert(cviews.take(i + 1).last() == cviews[i as int]);
        }
        match_candidate(&refs, &index, &cands[i], config, &mut reports);
        i = i + 1;
    }
    proof {
        assert(cviews.take(n as int) =~= cviews);
    }
    reports
}

/// A candidate file whose fingerprint no reference file shares is reported
/// as original exactly when originals are shown, and produces no duplicate
/// report in any mode.
pub proof fn lemma_no_fingerprint_match_means_original(
    refs: Seq<(Seq<u8>, Seq<u8>)>,
    k: int,
    show_original: bool,
    cand_path: Seq<u8>,
    cand_content: Seq<u8>,
)
    requires
        forall|i: int| 0 <= i < refs.len() ==> fp64(#[trigger] refs[i].1, k) != fp64(
            cand_content,
            k,
        ),
    ensures
        candidate_reports(refs, k, show_original, cand_path, cand_content) == if show_original {
            seq![ReportView::Original(cand_path)]
        } else {
            Seq::<ReportView>::empty()
        },
        forall|j: int|
            0 <= j < candidate_reports(refs, k, show_original, cand_path, cand_content).len()
                ==> !(candidate_reports(refs, k, show_original, cand_path, cand_content)[j]
                is Duplicate),
{
    lemma_bucket_of_no_match(index_spec(refs, k), fp64(cand_content, k), refs, k);
}

/// A bucket whose fingerprint no index entry carries is empty.
proof fn lemma_bucket_of_no_match(pairs: Seq<(u64, Seq<u8>)>, h: u64, refs: Seq<(Seq<u8>, Seq<u8>)>, k: int)
    requires
        pairs == index_spec(refs, k),
        forall|i: int| 0 <= i < refs.len() ==> fp64(#[trigger] refs[i].1, k) != h,
    ensures
        bucket_of(pairs, h) == Seq::<Seq<u8>>::empty(),
    decreases refs.len(),
{
    if refs.len() == 0 {
        assert(pairs =~= Seq::<(u64, Seq<u8>)>::empty());
    } else {
        assert(pairs.drop_last() =~= index_spec(refs.drop_last(), k));
        lemma_bucket_of_no_match(pairs.drop_last(), h, refs.drop_last(), k);
        assert(pairs.last().0 == fp64(refs.last().1, k));
        assert(bucket_of(pairs, h) =~= Seq::<Seq<u8>>::empty());
    }
}

/// Running the whole pipeline twice over unchanged trees produces identical
/// report sequences: the reports are a function of the traversed files and
/// the configuration alone.
pub proof fn lemma_run_deterministic(
    refs: Seq<(Seq<u8>, Seq<u8>)>,
    cands: Seq<(Seq<u8>, Seq<u8>)>,
    k: int,
    show_original: bool,
    first_reports: Seq<ReportView>,
    second_reports: Seq<ReportView>,
)
    requires
        first_reports == run_spec(refs, cands, k, show_original),
        second_reports == run_spec(refs, cands, k, show_original),
    ensures
        first_reports == second_reports,
{
}

/// The bucket paths the comparator must check for one candidate: every
/// path but the candidate's own, in bucket order — a file is never compared
/// against itself.
pub open spec fn other_paths(bucket: Seq<Seq<u8>>, cand_path: Seq<u8>) -> Seq<Seq<u8>>
    decreases bucket.len(),
{
    if bucket.len() == 0 {
        Seq::empty()
    } else {
        other_paths(bucket.drop_last(), cand_path) + if bucket.last() != cand_path {
            seq![bucket.last()]
        } else {
            Seq::empty()
        }
    }
}

/// Drops the candidate's own path from its fingerprint bucket.
pub fn paths_to_compare(bucket: &Vec<Vec<u8>>, cand_path: &Vec<u8>) -> (r: Vec<Vec<u8>>)
    ensures
        path_views(r@) == other_paths(path_views(bucket@), cand_path@),
{
    let mut r: Vec<Vec<u8>> = Vec::new();
    let n = bucket.len();
    let mut i: usize = 0;
    proof {
        assert(path_views(r@) =~= other_paths(path_views(bucket@).take(0), cand_path@));
    }
    while i < n
        invariant
            n == bucket@.len(),
            0 <= i <= n,
            path_views(r@) == other_paths(path_views(bucket@).take(i as int), cand_path@),
        decreases n - i,
    {
        proof {
            assert(path_views(bucket@).take(i + 1).drop_last() =~= path_views(bucket@).take(
                i as int,
            ));
            assert(path_views(bucket@).take(i + 1).last() == path_views(bucket@)[i as int]);
        }
        if !bytes_eq(&bucket[i], cand_path) {
            let path = clone_bytes(&bucket[i]);
            proof {
                assert(path_views(r@.push(path)) =~= path_views(r@) + seq![path@]);
            }
            r.push(path);
        } else {
            proof {
                assert(path_views(r@) =~= path_views(r@) + Seq::<Seq<u8>>::empty());
            }
        }
        i = i + 1;
    }
    proof {
        assert(path_views(bucket@).take(n as int) =~= path_views(bucket@));
    }
    r
}

/// The duplicate reports among the first `n` comparison outcomes.
pub open spec fn outcome_duplicates(
    paths: Seq<Seq<u8>>,
    outcomes: Seq<bool>,
    cand_path: Seq<u8>,
    n: int,
) -> Seq<ReportView>
    decreases n,
{
    if n <= 0 {
        Seq::empty()
    } else {
        outcome_duplicates(paths, outcomes, cand_path, n - 1) + if outcomes[n - 1] {
            seq![ReportView::Duplicate(paths[n - 1], cand_path)]
        } else {
            Seq::empty()
        }
    }
}

/// The reports one candidate produces, given the outcome of each exact
/// comparison.
pub open spec fn outcome_reports(
    paths: Seq<Seq<u8>>,
    outcomes: Seq<bool>,
    cand_path: Seq<u8>,
    show_original: bool,
) -> Seq<ReportView> {
    let dups = outcome_duplicates(paths, outcomes, cand_path, paths.len() as int);
    if show_original {
        if dups.len() == 0 {
            seq![ReportView::Original(cand_path)]
        } else {
            Seq::empty()
        }
    } else {
        dups
    }
}

/// Turns the comparison outcomes for one candidate into its reports: when
/// duplicates are shown, one `Duplicate` per confirmed path, in order; when
/// originals are shown, one `Original` exactly when nothing was confirmed.
pub fn reports_from_outcomes(
    paths: &Vec<Vec<u8>>,
    outcomes: &Vec<bool>,
    cand_path: &Vec<u8>,
    show_original_files: bool,
) -> (r: Vec<Report>)
    requires
        paths@.len() == outcomes@.len(),
    ensures
        report_views(r@) == outcome_reports(
            path_views(paths@),
            outcomes@,
            cand_path@,
            show_original_files,
        ),
{
    let mut r: Vec<Report> = Vec::new();
    let ghost mut dups: Seq<ReportView> = Seq::empty();
    let mut has_duplicate = false;
    let n = paths.len();
    let mut i: usize = 0;
    while i < n
        invariant
            n == paths@.len() == outcomes@.len(),
            0 <= i <= n,
            dups == outcome_duplicates(path_views(paths@), outcomes@, cand_path@, i as int),
            has_duplicate == (dups.len() > 0),
            report_views(r@) == if show_original_files {
                Seq::<ReportView>::empty()
            } else {
                dups
            },
        decreases n - i,
    {
        if outcomes[i] {
            has_duplicate = true;
            proof {
                dups = dups + seq![ReportView::Duplicate(path_views(paths@)[i as int], cand_path@)];
            }
            if !show_original_files {
                let report = Report::Duplicate(clone_bytes(&paths[i]), clone_bytes(cand_path));
                proof {
                    assert(report_views(r@.push(report)) =~= report_views(r@) + seq![
                        report_view(report),
                    ]);
                }
                r.push(report);
            }
        } else {
            proof {
                dups = dups + Seq::<ReportView>::empty();
                assert(dups =~= outcome_duplicates(
                    path_views(paths@),
                    outcomes@,
                    cand_path@,
                    i + 1,
                ));
            }
        }
        proof {
            if !show_original_files {
                assert(report_views(r@) =~= dups);
            }
        }
        i = i + 1;
    }
    if show_original_files {
        if !has_duplicate {
            let report = Report::Original(clone_bytes(cand_path));
            proof {
                assert(report_views(r@.push(report)) =~= report_views(r@) + seq![
                    report_view(report),
                ]);
            }
            r.push(report);
        }
    }
    proof {
        assert(report_views(r@) =~= outcome_reports(
            path_views(paths@),
            outcomes@,
            cand_path@,
            show_original_files,
        ));
    }
    r
}

/// Scanning the first `n` bucket entries reads nothing beyond them: the
/// reports agree with those over the bucket shorn of its last entry.
proof fn lemma_duplicates_upto_frame(
    refs: Seq<(Seq<u8>, Seq<u8>)>,
    bucket: Seq<Seq<u8>>,
    cand_path: Seq<u8>,
    cand_content: Seq<u8>,
    n: int,
)
    requires
        bucket.len() > 0,
        n <= bucket.len() - 1,
    ensures
        duplicates_upto(refs, bucket, cand_path, cand_content, n) == duplicates_upto(
            refs,
            bucket.drop_last(),
            cand_path,
            cand_content,
            n,
        ),
    decreases n,
{
    if n > 0 {
        lemma_duplicates_upto_frame(refs, bucket, cand_path, cand_content, n - 1);
        assert(bucket.drop_last()[n - 1] == bucket[n - 1]);
    }
}

/// Likewise for outcome scanning: the first `n` outcomes read nothing
/// beyond the first `n` paths.
proof fn lemma_outcome_duplicates_frame(
    paths: Seq<Seq<u8>>,
    outcomes: Seq<bool>,
    cand_path: Seq<u8>,
    n: int,
)
    requires
        paths.len() > 0,
        outcomes.len() > 0,
        n <= paths.len() - 1,
        n <= outcomes.len() - 1,
    ensures
        outcome_duplicates(paths, outcomes, cand_path, n) == outcome_duplicates(
            paths.drop_last(),
            outcomes.drop_last(),
            cand_path,
            n,
        ),
    decreases n,
{
    if n > 0 {
        lemma_outcome_duplicates_frame(paths, outcomes, cand_path, n - 1);
        assert(paths.drop_last()[n - 1] == paths[n - 1]);
        assert(outcomes.drop_last()[n - 1] == outcomes[n - 1]);
    }
}

/// The duplicate reports of a bucket scan, recovered from the comparison
/// outcomes alone: when each outcome answers "does opening that path give
/// the candidate's bytes", the outcome scan reconstructs the bucket scan.
proof fn lemma_outcome_duplicates_agree(
    refs: Seq<(Seq<u8>, Seq<u8>)>,
    bucket: Seq<Seq<u8>>,
    cand_path: Seq<u8>,
    cand_content: Seq<u8>,
    outcomes: Seq<bool>,
)
    requires
        outcomes.len() == other_paths(bucket, cand_path).len(),
        forall|i: int|
            0 <= i < outcomes.len() ==> outcomes[i] == (first_content(
                refs,
                #[trigger] other_paths(bucket, cand_path)[i],
            ) == Some(cand_content)),
    ensures
        outcome_duplicates(
            other_paths(bucket, cand_path),
            outcomes,
            cand_path,
            outcomes.len() as int,
        ) == duplicates_upto(refs, bucket, cand_path, cand_content, bucket.len() as int),
    decreases bucket.len(),
{
    let others = other_paths(bucket, cand_path);
    if bucket.len() == 0 {
        assert(others.len() == 0);
    } else {
        let shorn = bucket.drop_last();
        let others_shorn = other_paths(shorn, cand_path);
        if bucket.last() == cand_path {
            assert(others =~= others_shorn);
            lemma_outcome_duplicates_agree(refs, shorn, cand_path, cand_content, outcomes);
            lemma_duplicates_upto_frame(
                refs,
                bucket,
                cand_path,
                cand_content,
                bucket.len() - 1,
            );
            assert(!confirms_duplicate(refs, bucket.last(), cand_path, cand_content));
            assert(duplicates_upto(refs, bucket, cand_path, cand_content, bucket.len() as int)
                =~= duplicates_upto(refs, shorn, cand_path, cand_content, shorn.len() as int));
        } else {
            assert(others =~= others_shorn.push(bucket.last()));
            assert(others.drop_last() =~= others_shorn);
            let outcomes_shorn = outcomes.drop_last();
            assert forall|i: int|
                0 <= i < outcomes_shorn.len() implies outcomes_shorn[i] == (first_content(
                refs,
                #[trigger] other_paths(shorn, cand_path)[i],
            ) == Some(cand_content)) by {
                assert(other_paths(shorn, cand_path)[i] == others[i]);
                assert(outcomes_shorn[i] == outcomes[i]);
            }
            lemma_outcome_duplicates_agree(refs, shorn, cand_path, cand_content, outcomes_shorn);
            lemma_duplicates_upto_frame(
                refs,
                bucket,
                cand_path,
                cand_content,
                bucket.len() - 1,
            );
            lemma_outcome_duplicates_frame(others, outcomes, cand_path, outcomes.len() - 1);
            assert(outcome_duplicates(others, outcomes, cand_path, outcomes.len() - 1)
                == outcome_duplicates(
                others_shorn,
                outcomes_shorn,
                cand_path,
                outcomes_shorn.len() as int,
            ));
            assert(others[outcomes.len() - 1] == other_paths(bucket, cand_path)[outcomes.len()
                - 1]);
            assert(others[outcomes.len() - 1] == bucket.last());
            assert(outcomes.last() == (first_content(refs, bucket.last()) == Some(cand_content)));
            assert(outcomes.last() == confirms_duplicate(
                refs,
                bucket.last(),
                cand_path,
                cand_content,
            ));
            assert(outcome_duplicates(others, outcomes, cand_path, outcomes.len() as int)
                =~= duplicates_upto(refs, bucket, cand_path, cand_content, bucket.len() as int));
        }
    }
}

/// The event-driven matcher agrees with the matcher: probing the index,
/// dropping the candidate's own path, comparing each remaining path's
/// contents against the candidate and turning the outcomes into reports
/// yields exactly the candidate's reports.
pub proof fn lemma_outcome_reports_agree(
    refs: Seq<(Seq<u8>, Seq<u8>)>,
    k: int,
    show_original: bool,
    cand_path: Seq<u8>,
    cand_content: Seq<u8>,
    outcomes: Seq<bool>,
)
    requires
        outcomes.len() == other_paths(
            bucket_of(index_spec(refs, k), fp64(cand_content, k)),
            cand_path,
        ).len(),
        forall|i: int|
            0 <= i < outcomes.len() ==> outcomes[i] == (first_content(
                refs,
                #[trigger] other_paths(
                    bucket_of(index_spec(refs, k), fp64(cand_content, k)),
                    cand_path,
                )[i],
            ) == Some(cand_content)),
    ensures
        outcome_reports(
            other_paths(bucket_of(index_spec(refs, k), fp64(cand_content, k)), cand_path),
            outcomes,
            cand_path,
            show_original,
        ) == candidate_reports(refs, k, show_original, cand_path, cand_content),
{
    let bucket = bucket_of(index_spec(refs, k), fp64(cand_content, k));
    lemma_outcome_duplicates_agree(refs, bucket, cand_path, cand_content, outcomes);
}

} // verus!
