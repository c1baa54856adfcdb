use crab_remote_git::blame::{
    attributable, blame_entry, blame_ranges, blame_response_bytes, check_blame_blob, older_entry,
    Blame, BlameStep, BlameWalk,
};
use crab_remote_git::cancel::{
    cancellation_outcome, check_cancelled, check_cpu_cancellation, Settled,
};
use crab_remote_git::charge::{
    charge_blame, charge_blame_lines, charge_blob, charge_commit, charge_comparison,
    charge_diff_input, charge_diff_output, charge_hunk,
};
use crab_remote_git::diff::{
    blame_unsupported_reason, classify_diff, diff_input_bytes, limit_as_diff, plan_diff,
    render_diff, Diff, DiffClassification, DiffPlan,
};
use crab_remote_git::error::{BlameUnsupportedReason, CorruptionStage, Error};
use crab_remote_git::id_map::IdMap;
use crab_remote_git::lcs::{comparison_cells, lcs_matches, matching_ends};
use crab_remote_git::lines::{append_diff_lines, line_count, line_ranges};
use crab_remote_git::memory::{reserve, reserve_exact, saturating_product};
use crab_remote_git::model::{
    commit_response_bytes, Blob, BlobMetadata, BudgetDimension, Charge, Commit,
    ContentClassification, Signature, TreeEntry,
};
use crab_remote_git::oid::{EntryKind, EntryMode, ObjectId};
use crab_remote_git::path::GitPath;
use std::ops::Range;
use tokio_util::sync::CancellationToken;

fn oid(number: u32) -> ObjectId {
    ObjectId {
        first: number,
        second: number,
        third: number,
        fourth: number,
        fifth: number,
    }
}

fn path(text: &[u8]) -> GitPath {
    GitPath::from_bytes(text.to_vec())
}

fn blob_of(number: u32, bytes: &[u8], classification: ContentClassification) -> Blob {
    Blob {
        metadata: BlobMetadata {
            oid: oid(number),
            git_size: bytes.len() as u64,
            logical_size: Some(bytes.len() as u64),
            mode: EntryMode::Regular,
            kind: EntryKind::Blob,
            classification,
        },
        bytes: bytes.to_vec(),
    }
}

fn blob(number: u32, bytes: &[u8]) -> Blob {
    blob_of(number, bytes, ContentClassification::OrdinaryGit)
}

fn commit(number: u32, parents: &[u32]) -> Commit {
    let signature = || Signature {
        name: b"Crab Test".to_vec(),
        email: b"test@crab.invalid".to_vec(),
        seconds: 1_700_000_000,
        offset: 0,
    };
    Commit {
        oid: oid(number),
        tree: oid(1_000),
        parents: parents.iter().map(|parent| oid(*parent)).collect(),
        author: signature(),
        committer: signature(),
        encoding: None,
        message: b"message".to_vec(),
        signature_headers: Vec::new(),
    }
}

#[test]
fn diff_cpu_helpers_preserve_lines_and_honor_cancellation() {
    let cancellation = CancellationToken::new();
    let bytes = b"first\nsecond";
    assert_eq!(line_count(bytes, &cancellation).expect("line count"), 2);
    let mut output = Vec::new();
    append_diff_lines(&mut output, b'+', bytes, &cancellation).expect("diff lines");
    assert_eq!(output, b"+first\n+second");

    cancellation.cancel();
    assert!(matches!(
        line_count(bytes, &cancellation),
        Err(Error::Cancelled)
    ));
    assert!(matches!(
        line_ranges(bytes, usize::MAX, &cancellation),
        Err(Error::Cancelled)
    ));
}

#[test]
fn cancellation_is_polled() {
    let token = CancellationToken::new();
    assert_eq!(check_cancelled(&token), Ok(()));
    token.cancel();
    assert_eq!(check_cancelled(&token), Err(Error::Cancelled));
    assert_eq!(cancellation_outcome(false), Ok(()));
    assert_eq!(cancellation_outcome(true), Err(Error::Cancelled));
}

#[test]
fn lines_end_behind_their_newline() {
    let token = CancellationToken::new();
    assert_eq!(line_count(b"", &token), Ok(0));
    assert_eq!(line_ranges(b"", 0, &token), Ok(Vec::new()));
    assert_eq!(line_ranges(b"a\n\nbc", 3, &token), Ok(vec![0..2, 2..3, 3..5]));
    assert_eq!(line_ranges(b"a\n", 1, &token), Ok(vec![0..2]));
    assert_eq!(
        line_ranges(b"a\n", 2, &token),
        Err(Error::InternalInvariant {
            invariant: "line count changed while building ranges"
        })
    );
    let long = vec![b'\n'; 10_000];
    assert_eq!(line_count(&long, &token), Ok(10_000));
}

#[test]
fn reservations_fail_with_their_size() {
    let mut bytes: Vec<u16> = vec![1, 2];
    assert_eq!(reserve_exact(&mut bytes, 3), Ok(()));
    assert_eq!(reserve(&mut bytes, 3), Ok(()));
    assert_eq!(bytes, vec![1, 2]);
    assert_eq!(
        reserve_exact(&mut bytes, usize::MAX / 2),
        Err(Error::Allocation {
            requested: usize::MAX - 1
        })
    );
    assert_eq!(
        reserve(&mut bytes, usize::MAX),
        Err(Error::Allocation {
            requested: usize::MAX
        })
    );
    assert_eq!(bytes, vec![1, 2]);
    assert_eq!(saturating_product(3, 4), 12);
    let mut marks: Vec<()> = vec![()];
    assert_eq!(reserve(&mut marks, usize::MAX - 1), Ok(()));
    assert_eq!(
        reserve(&mut marks, usize::MAX),
        Err(Error::Allocation { requested: 0 })
    );
    assert_eq!(
        reserve_exact(&mut marks, usize::MAX),
        Err(Error::Allocation { requested: 0 })
    );
    assert_eq!(reserve(&mut bytes, 0), Ok(()));
    assert_eq!(reserve_exact(&mut bytes, 0), Ok(()));
    assert_eq!(saturating_product(usize::MAX, 2), usize::MAX);
}

#[test]
fn blame_matrix_stops_when_cancelled() {
    let cancellation = CancellationToken::new();
    cancellation.cancel();
    let parent_lines: Vec<Range<usize>> = std::iter::once(0..7).collect();
    let current_lines: Vec<Range<usize>> = std::iter::once(0..8).collect();
    let error = lcs_matches(
        b"parent\n",
        &parent_lines,
        b"current\n",
        &current_lines,
        0,
        0,
        &cancellation,
    )
    .expect_err("cancelled blame matrix");
    assert!(matches!(error, Error::Cancelled));
}

#[test]
fn blame_matrix_trims_equal_prefix_and_suffix() {
    let cancellation = CancellationToken::new();
    let parent = b"same\nold\ntail\n";
    let current = b"same\nnew\ntail\n";
    let parent_lines = vec![0..5, 5..9, 9..14];
    let current_lines = vec![0..5, 5..9, 9..14];
    let ends = matching_ends(
        parent,
        &parent_lines,
        current,
        &current_lines,
        &cancellation,
    )
    .expect("matching ends");
    assert_eq!(ends, (1, 1));
    assert_eq!(
        lcs_matches(
            parent,
            &parent_lines,
            current,
            &current_lines,
            ends.0,
            ends.1,
            &cancellation,
        )
        .expect("line matches"),
        vec![(0, 0), (2, 2)]
    );
}

fn matches_of(parent: &[u8], current: &[u8]) -> Vec<(usize, usize)> {
    let token = CancellationToken::new();
    let ranges = |bytes: &[u8]| {
        let count = line_count(bytes, &token).expect("count");
        line_ranges(bytes, count, &token).expect("ranges")
    };
    let parent_lines = ranges(parent);
    let current_lines = ranges(current);
    let (prefix, suffix) =
        matching_ends(parent, &parent_lines, current, &current_lines, &token).expect("ends");
    lcs_matches(
        parent,
        &parent_lines,
        current,
        &current_lines,
        prefix,
        suffix,
        &token,
    )
    .expect("matches")
}

#[test]
fn matched_lines_are_a_longest_common_subsequence() {
    assert_eq!(matches_of(b"a\nb\nc\n", b""), Vec::new());
    assert_eq!(
        matches_of(b"a\nb\nc\nd\n", b"x\nb\nd\ny\n"),
        vec![(1, 1), (3, 2)]
    );
    assert_eq!(
        matches_of(b"a\nb\na\nb\n", b"b\na\nb\na\n"),
        vec![(0, 1), (1, 2), (2, 3)]
    );
    assert_eq!(
        matches_of(b"a\na\n", b"a\na\na\n"),
        vec![(0, 0), (1, 1)]
    );
}

#[test]
fn comparison_cells_count_one_more_than_the_lines() {
    assert_eq!(comparison_cells(0, 0), Ok(1));
    assert_eq!(comparison_cells(2, 3), Ok(12));
    assert_eq!(
        comparison_cells(usize::MAX, 0),
        Err(Error::LimitExceeded {
            limit: "blame comparison cells",
            actual: u64::MAX,
            maximum: u64::MAX
        })
    );
    assert_eq!(
        comparison_cells(usize::MAX - 1, 2),
        Err(Error::LimitExceeded {
            limit: "blame comparison cells",
            actual: u64::MAX,
            maximum: u64::MAX
        })
    );
}

/// Drive a difference with room for `input` and `output` bytes.
fn diff(
    old: Option<&Blob>,
    new: Option<&Blob>,
    input: u64,
    output: u64,
) -> Result<Diff, Error> {
    let token = CancellationToken::new();
    let wanted = path(b"text.txt");
    let limited = |limit, actual, maximum| Error::LimitExceeded {
        limit,
        actual,
        maximum,
    };
    let read = diff_input_bytes(old, new);
    if read > input {
        return limit_as_diff(&wanted, limited("diff input bytes", read, input));
    }
    let plan = plan_diff(old, new, &token)?;
    if let DiffPlan::Replace { output_size, .. } = plan {
        if output_size as u64 > output {
            return limit_as_diff(
                &wanted,
                limited("diff output bytes", output_size as u64, output),
            );
        }
    }
    render_diff(&wanted, old, new, plan, &token)
}

#[test]
fn diff_classifies_equal_text_and_pointer_representations() {
    let text = blob(1, b"a\nb\n");
    let equal = diff(Some(&text), Some(&text), 100, 100).expect("diff");
    assert_eq!(equal.classification, DiffClassification::Text);
    assert!(equal.hunks.is_empty());
    let crab = blob_of(2, b"pointer\n", ContentClassification::CrabPointer);
    let pointer = diff(Some(&crab), Some(&crab), 100, 100).expect("diff");
    assert_eq!(pointer.classification, DiffClassification::CrabPointer);
    assert!(pointer.hunks.is_empty());
    let lfs = blob_of(3, b"pointer\n", ContentClassification::LfsPointer);
    assert_eq!(
        diff(Some(&text), Some(&lfs), 100, 100)
            .expect("diff")
            .classification,
        DiffClassification::LfsPointer
    );
}

#[test]
fn textual_diff_reports_too_large_without_partial_hunks() {
    let old = blob(1, b"before\n");
    let new = blob(2, b"after\n");
    let large = diff(Some(&old), Some(&new), 1, 100).expect("diff");
    assert_eq!(large.classification, DiffClassification::TooLarge);
    assert!(large.hunks.is_empty());
    let large = diff(Some(&old), Some(&new), 100, 14).expect("diff");
    assert_eq!(large.classification, DiffClassification::TooLarge);
    assert!(diff(Some(&old), Some(&new), 13, 15).expect("diff").hunks.len() == 1);
    assert_eq!(
        limit_as_diff(&path(b"f"), Error::Cancelled),
        Err(Error::Cancelled)
    );
}

#[test]
fn a_difference_replaces_all_lines() {
    let old = blob(1, b"before\nshared");
    let new = blob(2, b"after\n");
    let shown = diff(Some(&old), Some(&new), 100, 100).expect("diff");
    assert_eq!(shown.path.as_bytes(), b"text.txt");
    assert_eq!(shown.classification, DiffClassification::Text);
    assert_eq!(shown.hunks.len(), 1);
    let hunk = &shown.hunks[0];
    assert_eq!((hunk.old_start, hunk.old_lines), (1, 2));
    assert_eq!((hunk.new_start, hunk.new_lines), (1, 1));
    assert_eq!(hunk.bytes, b"-before\n-shared+after\n");
    let token = CancellationToken::new();
    assert_eq!(
        plan_diff(Some(&old), Some(&new), &token),
        Ok(DiffPlan::Replace {
            old_lines: 2,
            new_lines: 1,
            output_size: hunk.bytes.len()
        })
    );
    let added = diff(None, Some(&new), 100, 100).expect("diff");
    assert_eq!(added.hunks[0].bytes, b"+after\n");
    assert_eq!(diff_input_bytes(Some(&old), None), 13);
}

#[test]
fn contents_are_classified_by_bytes() {
    let token = CancellationToken::new();
    let class = |bytes: &[u8]| {
        let content = blob(1, bytes);
        (
            classify_diff(None, Some(&content), &token).expect("class"),
            blame_unsupported_reason(&content),
        )
    };
    assert_eq!(class("h\u{e9}\n".as_bytes()), (DiffClassification::Text, None));
    assert_eq!(
        class(b"before\0binary\n"),
        (
            DiffClassification::Binary,
            Some(BlameUnsupportedReason::Binary)
        )
    );
    assert_eq!(
        class(b"\xff\xfe"),
        (
            DiffClassification::UnsupportedEncoding,
            Some(BlameUnsupportedReason::UnsupportedEncoding)
        )
    );
    let mut late = vec![b'a'; 5_000];
    late.push(0);
    assert_eq!(class(&late).0, DiffClassification::Binary);
    token.cancel();
    let text = blob(1, b"a");
    assert_eq!(
        classify_diff(Some(&text), None, &token),
        Err(Error::Cancelled)
    );
    let pointer = blob_of(1, b"a", ContentClassification::CrabPointer);
    assert_eq!(
        classify_diff(Some(&pointer), None, &token),
        Ok(DiffClassification::CrabPointer)
    );
    assert_eq!(classify_diff(None, None, &token), Ok(DiffClassification::Text));
}

/// Versions of a file by commit, the newest first: commit, blob and its bytes.
/// Answers with the blame and what was charged for comparisons.
fn blame(versions: &[(u32, u32, &[u8])]) -> Result<(Blame, u64), Error> {
    let token = CancellationToken::new();
    let parents = |at: usize| -> Vec<u32> {
        versions
            .get(at + 1)
            .map(|version| version.0)
            .into_iter()
            .collect()
    };
    let (head, first, bytes) = versions[0];
    let newest = check_blame_blob(blob(first, bytes))?;
    let lines = line_count(&newest.bytes, &token)?;
    let mut walk = BlameWalk::new(oid(head), commit(head, &parents(0)), newest, lines, &token)?;
    let mut cells_charged = 0;
    let mut at = 0;
    while let Some(id) = walk.next()? {
        at += 1;
        let (number, object, bytes) = versions[at];
        assert_eq!(id, oid(number));
        let version = attributable(blob(object, bytes));
        match walk.accept(commit(number, &parents(at)), version, &token)? {
            BlameStep::Compare { cells } => {
                cells_charged += cells;
                walk.attribute(&token)?;
            }
            BlameStep::Ended | BlameStep::Unchanged => {}
        }
    }
    Ok((
        walk.into_blame(oid(head), &path(b"file.txt"), &token)?,
        cells_charged,
    ))
}

fn runs(blame: &Blame) -> Vec<(u64, u64, u32)> {
    blame
        .ranges
        .iter()
        .map(|range| (range.start, range.lines, range.commit.oid.fifth))
        .collect()
}

#[test]
fn blame_attributes_unchanged_lines_to_the_first_parent_root() {
    let (found, _) = blame(&[(3, 9, b"a\nb\n"), (1, 9, b"a\nb\n")]).expect("blame");
    assert_eq!(found.commit, oid(3));
    assert_eq!(found.path, path(b"file.txt"));
    assert_eq!(found.ranges.len(), 1);
    assert_eq!(found.ranges[0].start, 1);
    assert_eq!(found.ranges[0].lines, 2);
    assert_eq!(found.ranges[0].commit.oid, oid(1));
    assert_eq!(found.ranges[0].source_path, path(b"file.txt"));
}

#[test]
fn blame_unchanged_blob_does_not_spend_comparison_budget() {
    let (found, cells) = blame(&[(3, 9, b"a\nb\n"), (1, 9, b"a\nb\n")]).expect("blame");
    assert_eq!(found.ranges.len(), 1);
    assert_eq!(found.ranges[0].commit.oid, oid(1));
    assert_eq!(cells, 0);
}

#[test]
fn blame_rejects_pointer_content_without_materializing_artifacts() {
    let pointer = blob_of(1, b"pointer\n", ContentClassification::CrabPointer);
    assert!(matches!(
        check_blame_blob(pointer),
        Err(Error::BlameUnsupported {
            reason: BlameUnsupportedReason::CrabPointer,
        })
    ));
}

#[test]
fn blame_follows_lines_through_rewritten_versions() {
    let (found, cells) = blame(&[
        (4, 14, b"zero\none\ntwo changed\nthree\n"),
        (3, 13, b"one\ntwo changed\nthree\n"),
        (2, 12, b"one\ntwo\nthree\n"),
        (1, 11, b"one\n"),
    ])
    .expect("blame");
    assert_eq!(
        runs(&found),
        vec![(1, 1, 4), (2, 1, 1), (3, 1, 3), (4, 1, 2)]
    );
    assert_eq!(cells, 2 + 4 + 3);
}

#[test]
fn blame_compares_with_the_version_read_last() {
    let (found, cells) = blame(&[
        (3, 71, b"a\nb\n"),
        (2, 72, b"b\na\n"),
        (1, 71, b"a\nb\n"),
    ])
    .expect("blame");
    assert_eq!(runs(&found), vec![(1, 1, 3), (2, 1, 2)]);
    assert_eq!(cells, 18);
}

#[test]
fn blame_of_an_empty_file_has_no_ranges() {
    let (found, _) = blame(&[(2, 8, b""), (1, 7, b"a\n")]).expect("blame");
    assert!(found.ranges.is_empty());
    assert_eq!(blame_response_bytes(&found), b"file.txt".len() as u64);
}

#[test]
fn blame_stops_where_the_file_began() {
    let token = CancellationToken::new();
    let mut walk =
        BlameWalk::new(oid(2), commit(2, &[1]), blob(9, b"a\n"), 1, &token).expect("walk");
    assert_eq!(walk.next(), Ok(Some(oid(1))));
    assert_eq!(
        walk.accept(commit(1, &[]), None, &token),
        Ok(BlameStep::Ended)
    );
    assert_eq!(walk.next(), Ok(None));
    let found = walk
        .into_blame(oid(2), &path(b"file.txt"), &token)
        .expect("blame");
    assert_eq!(runs(&found), vec![(1, 1, 2)]);
    let expected = 2 * b"file.txt".len()
        + commit_response_bytes(&commit(2, &[1])) as usize
        + std::mem::size_of::<crab_remote_git::blame::BlameRange>();
    assert_eq!(blame_response_bytes(&found), expected as u64);
}

#[test]
fn blame_refuses_a_cycle_of_parents() {
    let token = CancellationToken::new();
    let mut walk =
        BlameWalk::new(oid(2), commit(2, &[1]), blob(9, b"a\n"), 1, &token).expect("walk");
    assert_eq!(walk.next(), Ok(Some(oid(1))));
    assert_eq!(
        walk.accept(commit(1, &[2]), Some(blob(9, b"a\n")), &token),
        Ok(BlameStep::Unchanged)
    );
    assert_eq!(
        walk.next(),
        Err(Error::Corrupt {
            stage: CorruptionStage::Commit
        })
    );
}

#[test]
fn blame_accepts_only_plain_text_files() {
    let found = |kind| {
        Some(TreeEntry {
            path: path(b"file.txt"),
            oid: oid(1),
            mode: EntryMode::Regular,
            kind,
            size: None,
        })
    };
    assert!(blame_entry(found(EntryKind::Blob)).is_ok());
    assert_eq!(older_entry(Ok(found(EntryKind::Blob))), Ok(found(EntryKind::Blob)));
    for kind in [EntryKind::Tree, EntryKind::Symlink, EntryKind::Submodule] {
        assert_eq!(
            blame_entry(found(kind)),
            Err(Error::BlameUnsupported {
                reason: BlameUnsupportedReason::EntryKind
            })
        );
        assert_eq!(older_entry(Ok(found(kind))), Ok(None));
    }
    assert_eq!(blame_entry(None), Err(Error::PathNotFound));
    assert_eq!(older_entry(Ok(None)), Ok(None));
    assert_eq!(
        older_entry(Err(Error::PathComponentNotTree {
            actual: EntryKind::Blob
        })),
        Ok(None)
    );
    assert_eq!(older_entry(Err(Error::Cancelled)), Err(Error::Cancelled));
    assert!(attributable(blob(1, b"a\0")).is_none());
    assert!(attributable(blob(1, b"a")).is_some());
}

#[test]
fn blame_ranges_need_the_commit_of_every_origin() {
    let token = CancellationToken::new();
    let mut commits = IdMap::new();
    commits.insert(oid(1), commit(1, &[]));
    let ranges = blame_ranges(&path(b"f"), &[oid(1), oid(1)], &commits, &token).expect("ranges");
    assert_eq!((ranges[0].start, ranges[0].lines), (1, 2));
    assert_eq!(
        blame_ranges(&path(b"f"), &[oid(1), oid(2)], &commits, &token),
        Err(Error::InternalInvariant {
            invariant: "blame origin commit metadata is absent"
        })
    );
}

#[test]
fn work_is_charged_in_its_dimension() {
    assert_eq!(
        charge_commit(),
        Charge {
            dimension: BudgetDimension::HistoryCommits,
            amount: 1
        }
    );
    assert_eq!(
        charge_blame_lines(7),
        Charge {
            dimension: BudgetDimension::BlameLines,
            amount: 7
        }
    );
    let (old, new) = (blob(1, b"a\n"), blob(2, b"bcd"));
    assert_eq!(
        charge_diff_input(Some(&old), Some(&new)),
        Charge {
            dimension: BudgetDimension::DiffInputBytes,
            amount: 5
        }
    );
    let plan = plan_diff(Some(&old), Some(&new), &CancellationToken::new()).expect("plan");
    assert_eq!(
        charge_diff_output(&plan),
        Some(Charge {
            dimension: BudgetDimension::DiffOutputBytes,
            amount: 7
        })
    );
    let settled = DiffPlan::Settled {
        classification: DiffClassification::Binary,
    };
    assert_eq!(charge_diff_output(&settled), None);
    let shown = diff(Some(&old), Some(&new), 100, 100).expect("diff");
    assert_eq!(
        charge_hunk(&shown.hunks[0]),
        Charge {
            dimension: BudgetDimension::ResponseBytes,
            amount: 7
        }
    );
    assert_eq!(
        charge_comparison(12),
        Charge {
            dimension: BudgetDimension::BlameComparisons,
            amount: 12
        }
    );
    let (found, _) = blame(&[(1, 9, b"")]).expect("blame");
    assert_eq!(
        charge_blame(&found),
        Charge {
            dimension: BudgetDimension::ResponseBytes,
            amount: 8
        }
    );
    assert_eq!(
        charge_blob(&blob(1, b"abc")),
        Charge {
            dimension: BudgetDimension::ResponseBytes,
            amount: 3
        }
    );
}

#[test]
fn a_settled_answer_decides_every_look() {
    let go = Settled { cancelled: false };
    let stop = Settled { cancelled: true };
    assert_eq!(check_cancelled(&go), Ok(()));
    assert_eq!(check_cancelled(&stop), Err(Error::Cancelled));
    assert_eq!(check_cpu_cancellation(&stop), Err(Error::Cancelled));
    assert_eq!(line_count(b"a\nb", &go), Ok(2));
    assert_eq!(line_count(b"a\nb", &stop), Err(Error::Cancelled));
    assert_eq!(line_count(b"", &stop), Ok(0));
    let text = blob(1, b"a\n");
    let other = blob(2, b"b\n");
    assert_eq!(
        plan_diff(Some(&text), Some(&other), &stop),
        Err(Error::Cancelled)
    );
    assert!(plan_diff(Some(&text), Some(&other), &go).is_ok());
    assert!(plan_diff(None, None, &stop).is_ok());
    let pointer = blob_of(3, b"p", ContentClassification::LfsPointer);
    assert_eq!(
        plan_diff(Some(&pointer), Some(&other), &stop),
        Ok(DiffPlan::Settled {
            classification: DiffClassification::LfsPointer
        })
    );
    assert!(BlameWalk::new(oid(1), commit(1, &[]), blob(1, b"a\n"), 1, &go).is_ok());
    assert!(matches!(
        BlameWalk::new(oid(1), commit(1, &[]), blob(1, b"a\n"), 1, &stop),
        Err(Error::Cancelled)
    ));
}

#[test]
fn a_file_without_older_versions_is_one_range() {
    let go = Settled { cancelled: false };
    let mut walk =
        BlameWalk::new(oid(2), commit(2, &[1]), blob(7, b"a\nb\nc\n"), 3, &go).expect("walk");
    assert_eq!(walk.next(), Ok(Some(oid(1))));
    let below_a_file = older_entry(Err(Error::PathComponentNotTree {
        actual: EntryKind::Blob,
    }));
    assert_eq!(below_a_file, Ok(None));
    assert_eq!(walk.accept(commit(1, &[]), None, &go), Ok(BlameStep::Ended));
    assert_eq!(walk.next(), Ok(None));
    let blame = walk.into_blame(oid(2), &path(b"type/child"), &go).expect("blame");
    assert_eq!(blame.ranges.len(), 1);
    assert_eq!((blame.ranges[0].start, blame.ranges[0].lines), (1, 3));
    assert_eq!(blame.ranges[0].commit.oid, oid(2));
}
