use vstd::prelude::*;

use crate::cancel::{Cancellation, check_cpu_cancellation, CPU_CANCELLATION_INTERVAL};
use crate::error::{BlameUnsupportedReason, Error};
use crate::lines::{append_diff_lines, line_count};
use crate::memory::reserve_exact;
use crate::model::{Blob, ContentClassification};
use crate::path::{same_bytes, GitPath};

verus! {

/// What kind of difference two versions of a file have.
#[derive(Debug, Clone, Copy, PartialEq, Eq, Structural)]
pub enum DiffClassification {
    Text,
    Binary,
    CrabPointer,
    LfsPointer,
    UnsupportedEncoding,
    TooLarge,
}

/// One block of replaced lines.
#[derive(Debug, PartialEq, Eq)]
pub struct DiffHunk {
    pub old_start: u64,
    pub old_lines: u64,
    pub new_start: u64,
    pub new_lines: u64,
    pub bytes: Vec<u8>,
}

/// The difference of one path between two snapshots.
#[derive(Debug, PartialEq, Eq)]
pub struct Diff {
    pub path: GitPath,
    pub classification: DiffClassification,
    pub hunks: Vec<DiffHunk>,
}

/// The prefix of a removed line.
pub const REMOVED: u8 = 45;

/// The prefix of an added line.
pub const ADDED: u8 = 43;

/// `core::str::from_utf8` accepts a byte string exactly when it is well-formed
/// UTF-8.
#[verifier::external_body]
fn is_utf8(bytes: &[u8]) -> (result: bool)
    ensures
        result == vstd::utf8::valid_utf8(bytes@),
{
    core::str::from_utf8(bytes).is_ok()
}

/// Whether a stretch of bytes holds a zero byte.
pub fn holds_zero(bytes: &[u8], from: usize, to: usize) -> (result: bool)
    requires
        from <= to <= bytes@.len(),
    ensures
        result == (exists|i: int| from <= i < to && #[trigger] bytes@[i] == 0),
{
    let mut at: usize = from;
    while at < to
        invariant
            from <= at <= to <= bytes@.len(),
            forall|i: int| from <= i < at ==> #[trigger] bytes@[i] != 0,
        decreases to - at,
    {
        if bytes[at] == 0 {
            return true;
        }
        at += 1;
    }
    false
}

/// Whether a byte string holds a zero byte.
pub open spec fn is_binary(bytes: Seq<u8>) -> bool {
    exists|i: int| 0 <= i < bytes.len() && #[trigger] bytes[i] == 0
}

/// Why a blob has no textual difference, if it has none.
pub open spec fn obstacle(blob: Blob) -> Option<DiffClassification> {
    match blob.metadata.classification {
        ContentClassification::CrabPointer => Some(DiffClassification::CrabPointer),
        ContentClassification::LfsPointer => Some(DiffClassification::LfsPointer),
        ContentClassification::OrdinaryGit => if is_binary(blob.bytes@) {
            Some(DiffClassification::Binary)
        } else if !vstd::utf8::valid_utf8(blob.bytes@) {
            Some(DiffClassification::UnsupportedEncoding)
        } else {
            None
        },
    }
}

pub open spec fn optional_obstacle(blob: Option<&Blob>) -> Option<DiffClassification> {
    match blob {
        Some(blob) => obstacle(*blob),
        None => None,
    }
}

/// The classification of a difference: the older version's obstacle, else the
/// newer one's, else text.
pub open spec fn diff_class(old: Option<&Blob>, new: Option<&Blob>) -> DiffClassification {
    match optional_obstacle(old) {
        Some(class) => class,
        None => match optional_obstacle(new) {
            Some(class) => class,
            None => DiffClassification::Text,
        },
    }
}

/// Whether a blob's bytes tell its obstacle; a pointer's classification tells it.
pub open spec fn reads_bytes(blob: &Blob) -> bool {
    blob.metadata.classification == ContentClassification::OrdinaryGit
}

/// Whether the bytes of one of two optional versions are looked at, and the token
/// with them.
pub open spec fn diff_reads_bytes(old: Option<&Blob>, new: Option<&Blob>) -> bool {
    match old {
        Some(blob) => reads_bytes(blob),
        None => match new {
            Some(blob) => reads_bytes(blob),
            None => false,
        },
    }
}

fn find_obstacle<W: Cancellation>(blob: &Blob, cancellation: &W) -> (result: Result<
    Option<DiffClassification>,
    Error,
>)
    ensures
        match result {
            Ok(found) => found == obstacle(*blob),
            Err(error) => crate::cancel::stopped_by(cancellation, error) && reads_bytes(blob),
        },
        result is Ok && reads_bytes(blob) ==> crate::cancel::passed_by(cancellation),
{
    match blob.metadata.classification {
        ContentClassification::CrabPointer => return Ok(Some(DiffClassification::CrabPointer)),
        ContentClassification::LfsPointer => return Ok(Some(DiffClassification::LfsPointer)),
        ContentClassification::OrdinaryGit => {},
    }
    let bytes: &[u8] = blob.bytes.as_slice();
    let mut from: usize = 0;
    while from < bytes.len()
        invariant
            from <= bytes@.len(),
            forall|i: int| 0 <= i < from ==> #[trigger] bytes@[i] != 0,
            bytes@ == blob.bytes@,
            blob.metadata.classification == ContentClassification::OrdinaryGit,
            from > 0 ==> crate::cancel::passed_by(cancellation),
        decreases bytes@.len() - from,
    {
        check_cpu_cancellation(cancellation)?;
        let to: usize = if bytes.len() - from > CPU_CANCELLATION_INTERVAL {
            from + CPU_CANCELLATION_INTERVAL
        } else {
            bytes.len()
        };
        if holds_zero(bytes, from, to) {
            return Ok(Some(DiffClassification::Binary));
        }
        from = to;
    }
    check_cpu_cancellation(cancellation)?;
    if !is_utf8(bytes) {
        return Ok(Some(DiffClassification::UnsupportedEncoding));
    }
    Ok(None)
}

/// Classify the difference of two optional versions.
pub fn classify_diff<W: Cancellation>(
    old_blob: Option<&Blob>,
    new_blob: Option<&Blob>,
    cancellation: &W,
) -> (result: Result<DiffClassification, Error>)
    ensures
        match result {
            Ok(class) => class == diff_class(old_blob, new_blob),
            Err(error) => crate::cancel::stopped_by(cancellation, error) && diff_reads_bytes(
                old_blob,
                new_blob,
            ),
        },
        result is Ok && diff_reads_bytes(old_blob, new_blob) ==> crate::cancel::passed_by(
            cancellation,
        ),
{
    if let Some(blob) = old_blob {
        if let Some(class) = find_obstacle(blob, cancellation)? {
            return Ok(class);
        }
    }
    if let Some(blob) = new_blob {
        if let Some(class) = find_obstacle(blob, cancellation)? {
            return Ok(class);
        }
    }
    Ok(DiffClassification::Text)
}

/// Why the lines of a blob cannot be attributed, if they cannot.
pub open spec fn blame_obstacle(blob: Blob) -> Option<BlameUnsupportedReason> {
    match blob.metadata.classification {
        ContentClassification::CrabPointer => Some(BlameUnsupportedReason::CrabPointer),
        ContentClassification::LfsPointer => Some(BlameUnsupportedReason::LfsPointer),
        ContentClassification::OrdinaryGit => if is_binary(blob.bytes@) {
            Some(BlameUnsupportedReason::Binary)
        } else if !vstd::utf8::valid_utf8(blob.bytes@) {
            Some(BlameUnsupportedReason::UnsupportedEncoding)
        } else {
            None
        },
    }
}

/// Why the lines of a blob cannot be attributed, if they cannot.
pub fn blame_unsupported_reason(blob: &Blob) -> (result: Option<BlameUnsupportedReason>)
    ensures
        result == blame_obstacle(*blob),
{
    match blob.metadata.classification {
        ContentClassification::CrabPointer => return Some(BlameUnsupportedReason::CrabPointer),
        ContentClassification::LfsPointer => return Some(BlameUnsupportedReason::LfsPointer),
        ContentClassification::OrdinaryGit => {},
    }
    let bytes: &[u8] = blob.bytes.as_slice();
    if holds_zero(bytes, 0, bytes.len()) {
        return Some(BlameUnsupportedReason::Binary);
    }
    if is_utf8(bytes) {
        None
    } else {
        Some(BlameUnsupportedReason::UnsupportedEncoding)
    }
}

/// The bytes of an optional version; an absent one has none.
pub open spec fn content(blob: Option<&Blob>) -> Seq<u8> {
    match blob {
        Some(blob) => blob.bytes@,
        None => Seq::empty(),
    }
}

fn content_of<'a>(blob: Option<&'a Blob>) -> (result: &'a [u8])
    ensures
        result@ == content(blob),
{
    match blob {
        Some(blob) => blob.bytes.as_slice(),
        None => {
            let empty: &'a [u8] = &[];
            assert(empty@ =~= Seq::<u8>::empty());
            empty
        },
    }
}

/// A version that is not there has no content, and one that is has its bytes.
pub proof fn what_a_version_contains(blob: Option<&Blob>)
    ensures
        blob is None ==> content(blob).len() == 0,
        blob is Some ==> content(blob) == (blob->0).bytes@,
{
}

/// How many bytes a difference reads.
pub fn diff_input_bytes(old_blob: Option<&Blob>, new_blob: Option<&Blob>) -> (result: u64)
    ensures
        result == crate::memory::clamp_u64((content(old_blob).len() + content(new_blob).len()) as int),
{
    (content_of(old_blob).len() as u64).saturating_add(content_of(new_blob).len() as u64)
}

/// A difference whose size exceeds a limit has no hunks; any other failure stays.
pub fn limit_as_diff(path: &GitPath, error: Error) -> (result: Result<Diff, Error>)
    ensures
        match error {
            Error::LimitExceeded { .. } => {
                &&& result is Ok
                &&& result->Ok_0.path@ == path@
                &&& result->Ok_0.classification == DiffClassification::TooLarge
                &&& result->Ok_0.hunks@.len() == 0
            },
            _ => result == Err::<Diff, Error>(error),
        },
{
    match error {
        Error::LimitExceeded { .. } => Ok(
            Diff {
                path: path.duplicate(),
                classification: DiffClassification::TooLarge,
                hunks: Vec::new(),
            },
        ),
        error => Err(error),
    }
}

/// What a difference needs before it can be returned.
#[derive(Debug, Clone, Copy, PartialEq, Eq, Structural)]
pub enum DiffPlan {
    /// There is nothing to show under this classification.
    Settled { classification: DiffClassification },
    /// All old lines are replaced by all new lines.
    Replace { old_lines: usize, new_lines: usize, output_size: usize },
}

/// The plan for two optional versions.
pub open spec fn diff_plan(old: Option<&Blob>, new: Option<&Blob>) -> DiffPlan {
    let class = diff_class(old, new);
    if class != DiffClassification::Text || content(old) == content(new) {
        DiffPlan::Settled { classification: class }
    } else {
        let old_lines = crate::lines::line_spans(content(old)).len();
        let new_lines = crate::lines::line_spans(content(new)).len();
        DiffPlan::Replace {
            old_lines: old_lines as usize,
            new_lines: new_lines as usize,
            output_size: crate::memory::clamp_usize(
                (content(old).len() + content(new).len() + old_lines + new_lines) as int,
            ),
        }
    }
}

/// Decide what a difference shows and how large it is.
pub fn plan_diff<W: Cancellation>(
    old_blob: Option<&Blob>,
    new_blob: Option<&Blob>,
    cancellation: &W,
) -> (result: Result<DiffPlan, Error>)
    ensures
        match result {
            Ok(plan) => plan == diff_plan(old_blob, new_blob),
            Err(error) => crate::cancel::stopped_by(cancellation, error) && diff_reads_bytes(
                old_blob,
                new_blob,
            ),
        },
        result is Ok && diff_reads_bytes(old_blob, new_blob) ==> crate::cancel::passed_by(
            cancellation,
        ),
{
    let classification = classify_diff(old_blob, new_blob, cancellation)?;
    let old_bytes = content_of(old_blob);
    let new_bytes = content_of(new_blob);
    if classification != DiffClassification::Text || same_bytes(old_bytes, new_bytes) {
        return Ok(DiffPlan::Settled { classification });
    }
    let old_lines: usize = line_count(old_bytes, cancellation)?;
    let new_lines: usize = line_count(new_bytes, cancellation)?;
    let output_size: usize = old_bytes.len().saturating_add(new_bytes.len()).saturating_add(
        old_lines,
    ).saturating_add(new_lines);
    Ok(DiffPlan::Replace { old_lines, new_lines, output_size })
}

/// The bytes of the hunk that replaces one version by another.
pub open spec fn replacement(old: Seq<u8>, new: Seq<u8>) -> Seq<u8> {
    crate::lines::prefixed_lines(REMOVED, old) + crate::lines::prefixed_lines(ADDED, new)
}

proof fn lemma_prefixed_len(prefix: u8, bytes: Seq<u8>, all: Seq<(int, int)>)
    requires
        all.len() > 0 ==> all[0].0 == 0,
        forall|i: int| 0 <= i < all.len() ==> 0 <= (#[trigger] all[i]).0 < all[i].1 <= bytes.len(),
        forall|i: int| 0 < i < all.len() ==> (#[trigger] all[i]).0 == all[i - 1].1,
    ensures
        crate::lines::prefixed_spans(prefix, bytes, all).len() == all.len() + (if all.len() > 0 {
            all.last().1
        } else {
            0
        }),
    decreases all.len(),
{
    if all.len() > 0 {
        let rest = all.drop_last();
        assert forall|i: int| 0 <= i < rest.len() implies 0 <= (#[trigger] rest[i]).0 < rest[i].1
            <= bytes.len() by {
            assert(rest[i] == all[i]);
        }
        assert forall|i: int| 0 < i < rest.len() implies (#[trigger] rest[i]).0 == rest[i - 1].1 by {
            assert(rest[i] == all[i]);
        }
        lemma_prefixed_len(prefix, bytes, rest);
        assert(all[all.len() - 1].0 == (if all.len() > 1 {
            all[all.len() - 2].1
        } else {
            0
        }));
    }
}

/// The hunk that is shown is exactly as large as the output that was charged:
/// both versions and one prefix for each of their lines.
pub proof fn replacement_has_the_charged_size(old: Seq<u8>, new: Seq<u8>)
    ensures
        replacement(old, new).len() == old.len() + new.len() + crate::lines::line_spans(old).len()
            + crate::lines::line_spans(new).len(),
{
    crate::lines::lines_tile_the_file(old);
    crate::lines::lines_tile_the_file(new);
    lemma_prefixed_len(REMOVED, old, crate::lines::line_spans(old));
    lemma_prefixed_len(ADDED, new, crate::lines::line_spans(new));
}

/// The bytes that an optional version is compared by.
spec fn compared_bytes(blob: Option<&Blob>) -> Seq<u8> {
    if blob is Some {
        blob->0.bytes@
    } else {
        Seq::<u8>::empty()
    }
}

/// Only equal texts have a difference without hunks: two texts that differ are replaced
/// as a whole, whether both versions are there or one was added or deleted, and the plan
/// counts the lines of both. What is no text on either side is never replaced.
pub proof fn a_difference_of_texts_is_always_shown(old: Option<&Blob>, new: Option<&Blob>)
    ensures
        ({
            let before = if old is Some {
                old->0.bytes@
            } else {
                Seq::<u8>::empty()
            };
            let after = if new is Some {
                new->0.bytes@
            } else {
                Seq::<u8>::empty()
            };
            let text = |blob: Option<&Blob>|
                blob is Some ==> {
                    &&& blob->0.metadata.classification == ContentClassification::OrdinaryGit
                    &&& vstd::utf8::valid_utf8(blob->0.bytes@)
                    &&& forall|i: int|
                        0 <= i < blob->0.bytes@.len() ==> #[trigger] blob->0.bytes@[i] != 0
                };
            &&& diff_plan(old, new) is Replace <==> text(old) && text(new) && before != after
            &&& diff_plan(old, new) matches DiffPlan::Replace { old_lines, new_lines, output_size }
                ==> {
                &&& old_lines == crate::lines::lines_of(before).len()
                &&& new_lines == crate::lines::lines_of(after).len()
                &&& replacement(before, after).len() <= usize::MAX ==> output_size == replacement(
                    before,
                    after,
                ).len()
            }
            &&& diff_plan(old, new) matches DiffPlan::Settled { classification } ==> (classification
                == DiffClassification::Text <==> text(old) && text(new))
        }),
{
    let before = compared_bytes(old);
    let after = compared_bytes(new);
    replacement_has_the_charged_size(before, after);
    crate::lines::lines_are_no_more_than_bytes(before);
    crate::lines::lines_are_no_more_than_bytes(after);
    if old is Some {
        assert(old->0.bytes.len() == before.len());
    }
    if new is Some {
        assert(new->0.bytes.len() == after.len());
    }
}

/// An obstacle is named after what the first version that is no text holds: a pointer
/// keeps its own class, bytes with a zero are binary, and others are of an unsupported
/// encoding. The older version is asked first.
pub proof fn an_obstacle_names_the_first_version_without_text(
    old: Option<&Blob>,
    new: Option<&Blob>,
)
    ensures
        ({
            let text = |blob: Option<&Blob>|
                blob is Some ==> {
                    &&& blob->0.metadata.classification == ContentClassification::OrdinaryGit
                    &&& vstd::utf8::valid_utf8(blob->0.bytes@)
                    &&& forall|i: int|
                        0 <= i < blob->0.bytes@.len() ==> #[trigger] blob->0.bytes@[i] != 0
                };
            let named = |blob: Blob, class: DiffClassification|
                match blob.metadata.classification {
                    ContentClassification::CrabPointer => class == DiffClassification::CrabPointer,
                    ContentClassification::LfsPointer => class == DiffClassification::LfsPointer,
                    ContentClassification::OrdinaryGit => {
                        let zero = exists|i: int|
                            0 <= i < blob.bytes@.len() && #[trigger] blob.bytes@[i] == 0;
                        &&& zero ==> class == DiffClassification::Binary
                        &&& !zero ==> class == DiffClassification::UnsupportedEncoding
                    },
                };
            &&& !text(old) ==> named(*old->0, diff_class(old, new))
            &&& text(old) && !text(new) ==> named(*new->0, diff_class(old, new))
            &&& text(old) && text(new) ==> diff_class(old, new) == DiffClassification::Text
        }),
{
}

/// The lines of a blob can be attributed exactly where the blob could be shown in a
/// difference, and what stands against the one stands against the other.
pub proof fn what_can_be_shown_can_be_attributed(blob: Blob)
    ensures
        blame_obstacle(blob) is None <==> diff_class(None, Some(&blob)) == DiffClassification::Text,
        diff_class(None, Some(&blob)) == diff_class(Some(&blob), None),
        match blame_obstacle(blob) {
            None => true,
            Some(BlameUnsupportedReason::CrabPointer) => diff_class(Some(&blob), None)
                == DiffClassification::CrabPointer,
            Some(BlameUnsupportedReason::LfsPointer) => diff_class(Some(&blob), None)
                == DiffClassification::LfsPointer,
            Some(BlameUnsupportedReason::Binary) => diff_class(Some(&blob), None)
                == DiffClassification::Binary,
            Some(BlameUnsupportedReason::UnsupportedEncoding) => diff_class(Some(&blob), None)
                == DiffClassification::UnsupportedEncoding,
            Some(BlameUnsupportedReason::EntryKind) => false,
        },
{
}

proof fn lemma_line_behind_its_mark(prefix: u8, bytes: Seq<u8>, all: Seq<(int, int)>, i: int)
    requires
        all.len() > 0 ==> all[0].0 == 0,
        forall|k: int| 0 <= k < all.len() ==> 0 <= (#[trigger] all[k]).0 < all[k].1 <= bytes.len(),
        forall|k: int| 0 < k < all.len() ==> (#[trigger] all[k]).0 == all[k - 1].1,
        0 <= i < all.len(),
    ensures
        ({
            let shown = crate::lines::prefixed_spans(prefix, bytes, all);
            &&& all[i].1 + i + 1 <= shown.len()
            &&& shown[all[i].0 + i] == prefix
            &&& shown.subrange(all[i].0 + i + 1, all[i].1 + i + 1) == bytes.subrange(
                all[i].0,
                all[i].1,
            )
        }),
    decreases all.len(),
{
    let rest = all.drop_last();
    let shown = crate::lines::prefixed_spans(prefix, bytes, all);
    let before = crate::lines::prefixed_spans(prefix, bytes, rest);
    assert forall|k: int| 0 <= k < rest.len() implies 0 <= (#[trigger] rest[k]).0 < rest[k].1
        <= bytes.len() by {
        assert(rest[k] == all[k]);
    }
    assert forall|k: int| 0 < k < rest.len() implies (#[trigger] rest[k]).0 == rest[k - 1].1 by {
        assert(rest[k] == all[k]);
    }
    lemma_prefixed_len(prefix, bytes, rest);
    lemma_prefixed_len(prefix, bytes, all);
    if i < rest.len() {
        lemma_line_behind_its_mark(prefix, bytes, rest, i);
        assert(rest[i] == all[i]);
        assert(shown.subrange(all[i].0 + i + 1, all[i].1 + i + 1) =~= before.subrange(
            all[i].0 + i + 1,
            all[i].1 + i + 1,
        ));
        assert(shown[all[i].0 + i] == before[all[i].0 + i]);
    } else {
        assert(all[i].0 == (if i > 0 {
            all[i - 1].1
        } else {
            0
        }));
        if i > 0 {
            assert(rest.last() == all[i - 1]);
        }
        assert(before.len() == all[i].0 + i);
        assert(shown[all[i].0 + i] == prefix);
        assert(shown.subrange(all[i].0 + i + 1, all[i].1 + i + 1) =~= bytes.subrange(
            all[i].0,
            all[i].1,
        ));
    }
}

proof fn lemma_removed_line(old: Seq<u8>, new: Seq<u8>, i: int)
    requires
        0 <= i < crate::lines::line_spans(old).len(),
    ensures
        ({
            let shown = replacement(old, new);
            let (from, to) = crate::lines::line_spans(old)[i];
            &&& shown[from + i] == 45
            &&& shown.subrange(from + i + 1, to + i + 1) == old.subrange(from, to)
        }),
{
    let shown = replacement(old, new);
    let removed = crate::lines::line_spans(old);
    let first = crate::lines::prefixed_spans(REMOVED, old, removed);
    crate::lines::lines_tile_the_file(old);
    lemma_line_behind_its_mark(REMOVED, old, removed, i);
    let (from, to) = removed[i];
    assert(shown.subrange(from + i + 1, to + i + 1) =~= first.subrange(from + i + 1, to + i + 1));
}

proof fn lemma_added_line(old: Seq<u8>, new: Seq<u8>, i: int)
    requires
        0 <= i < crate::lines::line_spans(new).len(),
    ensures
        ({
            let shown = replacement(old, new);
            let start = old.len() + crate::lines::line_spans(old).len();
            let (from, to) = crate::lines::line_spans(new)[i];
            &&& shown[start + from + i] == 43
            &&& shown.subrange(start + from + i + 1, start + to + i + 1) == new.subrange(from, to)
        }),
{
    let shown = replacement(old, new);
    let added = crate::lines::line_spans(new);
    let first = crate::lines::prefixed_spans(REMOVED, old, crate::lines::line_spans(old));
    let second = crate::lines::prefixed_spans(ADDED, new, added);
    let start = old.len() + crate::lines::line_spans(old).len();
    assert(first.len() == start) by {
        crate::lines::lines_tile_the_file(old);
        lemma_prefixed_len(REMOVED, old, crate::lines::line_spans(old));
    }
    crate::lines::lines_tile_the_file(new);
    lemma_line_behind_its_mark(ADDED, new, added, i);
    let (from, to) = added[i];
    assert(shown.subrange(start + from + i + 1, start + to + i + 1) =~= second.subrange(
        from + i + 1,
        to + i + 1,
    ));
}

/// A hunk shows every line of the older version behind a minus, in their order, and then
/// every line of the newer version behind a plus.
pub proof fn a_hunk_shows_every_line_behind_its_mark(old: Seq<u8>, new: Seq<u8>)
    ensures
        ({
            let shown = replacement(old, new);
            let removed = crate::lines::line_spans(old);
            let added = crate::lines::line_spans(new);
            let start = old.len() + removed.len();
            &&& shown.len() == start + new.len() + added.len()
            &&& forall|i: int|
                0 <= i < removed.len() ==> {
                    let (from, to) = #[trigger] removed[i];
                    &&& shown[from + i] == 45
                    &&& shown.subrange(from + i + 1, to + i + 1) == old.subrange(from, to)
                }
            &&& forall|i: int|
                0 <= i < added.len() ==> {
                    let (from, to) = #[trigger] added[i];
                    &&& shown[start + from + i] == 43
                    &&& shown.subrange(start + from + i + 1, start + to + i + 1) == new.subrange(
                        from,
                        to,
                    )
                }
        }),
{
    let shown = replacement(old, new);
    let removed = crate::lines::line_spans(old);
    let added = crate::lines::line_spans(new);
    let start = old.len() + removed.len();
    replacement_has_the_charged_size(old, new);
    assert forall|i: int| 0 <= i < removed.len() implies ({
        let (from, to) = #[trigger] removed[i];
        &&& shown[from + i] == 45
        &&& shown.subrange(from + i + 1, to + i + 1) == old.subrange(from, to)
    }) by {
        lemma_removed_line(old, new, i);
    }
    assert forall|i: int| 0 <= i < added.len() implies ({
        let (from, to) = #[trigger] added[i];
        &&& shown[start + from + i] == 43
        &&& shown.subrange(start + from + i + 1, start + to + i + 1) == new.subrange(from, to)
    }) by {
        lemma_added_line(old, new, i);
    }
}

/// Carry a plan out.
pub fn render_diff<W: Cancellation>(
    path: &GitPath,
    old_blob: Option<&Blob>,
    new_blob: Option<&Blob>,
    plan: DiffPlan,
    cancellation: &W,
) -> (result: Result<Diff, Error>)
    ensures
        match plan {
            DiffPlan::Settled { classification } => {
                &&& result is Ok
                &&& result->Ok_0.path@ == path@
                &&& result->Ok_0.classification == classification
                &&& result->Ok_0.hunks@.len() == 0
            },
            DiffPlan::Replace { old_lines, new_lines, output_size } => match result {
                Ok(diff) => {
                    &&& crate::memory::granted_exactly::<u8>(output_size)
                    &&& content(old_blob).len() + content(new_blob).len() > 0
                        ==> crate::cancel::passed_by(cancellation)
                    &&& diff.path@ == path@
                    &&& diff.classification == DiffClassification::Text
                    &&& diff.hunks@.len() == 1
                    &&& diff.hunks@[0].old_start == 1
                    &&& diff.hunks@[0].old_lines == old_lines
                    &&& diff.hunks@[0].new_start == 1
                    &&& diff.hunks@[0].new_lines == new_lines
                    &&& diff.hunks@[0].bytes@ == replacement(content(old_blob), content(new_blob))
                },
                Err(error) => {
                    ||| crate::memory::refused_exactly::<u8>(output_size, error)
                    ||| {
                        &&& crate::memory::granted_exactly::<u8>(output_size)
                        &&& content(old_blob).len() + content(new_blob).len() > 0
                        &&& crate::cancel::stopped_by(cancellation, error)
                    }
                },
            },
        },
{
    match plan {
        DiffPlan::Settled { classification } => Ok(
            Diff { path: path.duplicate(), classification, hunks: Vec::new() },
        ),
        DiffPlan::Replace { old_lines, new_lines, output_size } => {
            let mut bytes: Vec<u8> = Vec::new();
            reserve_exact(&mut bytes, output_size)?;
            append_diff_lines(&mut bytes, REMOVED, content_of(old_blob), cancellation)?;
            append_diff_lines(&mut bytes, ADDED, content_of(new_blob), cancellation)?;
            assert(bytes@ =~= replacement(content(old_blob), content(new_blob)));
            let mut hunks: Vec<DiffHunk> = Vec::new();
            hunks.push(
                DiffHunk {
                    old_start: 1,
                    old_lines: old_lines as u64,
                    new_start: 1,
                    new_lines: new_lines as u64,
                    bytes,
                },
            );
            Ok(
                Diff {
                    path: path.duplicate(),
                    classification: DiffClassification::Text,
                    hunks,
                },
            )
        },
    }
}

} // verus!
