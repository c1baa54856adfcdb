use vstd::prelude::*;
use std::ops::Range;

use crate::cancel::{Cancellation, check_cpu_cancellation, CPU_CANCELLATION_INTERVAL};
use crate::diff::blame_unsupported_reason;
use crate::error::{BlameUnsupportedReason, CorruptionStage, Error};
use crate::id_map::IdMap;
use crate::lcs::{comparison_cells, lcs_matches, matching_ends};
use crate::lines::{line_count, line_ranges};
use crate::memory::{reserve, reserve_exact};
use crate::model::{commit_response_bytes, Blob, Commit, TreeEntry};
use crate::oid::{EntryKind, ObjectId};
use crate::path::GitPath;

verus! {

/// Consecutive lines that one commit introduced.
#[derive(Debug, PartialEq, Eq)]
pub struct BlameRange {
    pub start: u64,
    pub lines: u64,
    pub commit: Commit,
    pub source_path: GitPath,
}

/// The origin of every line of one file.
#[derive(Debug, PartialEq, Eq)]
pub struct Blame {
    pub commit: ObjectId,
    pub path: GitPath,
    pub ranges: Vec<BlameRange>,
}

/// One version of a file on the way back through first parents.
#[verifier::ext_equal]
pub struct Version {
    pub commit: ObjectId,
    pub lines: Seq<Seq<u8>>,
    /// Whether the version holds the very blob of the next newer one.
    pub unchanged: bool,
}

/// The pairs of lines that an older and a newer version share.
pub open spec fn attribution_matches(older: Seq<Seq<u8>>, newer: Seq<Seq<u8>>) -> Seq<(int, int)> {
    let ends = crate::lcs::shared_ends(older, newer);
    crate::lcs::trimmed_matches(older, newer, ends.0, ends.1)
}

/// The final line that an older line still is, by the first `count` pairs.
pub open spec fn carried(
    track: Seq<Option<int>>,
    pairs: Seq<(int, int)>,
    line: int,
    count: int,
) -> Option<int>
    decreases count,
{
    if count <= 0 {
        None
    } else if pairs[count - 1].0 == line && track[pairs[count - 1].1] is Some {
        track[pairs[count - 1].1]
    } else {
        carried(track, pairs, line, count - 1)
    }
}

/// The final lines that the lines of an older version still are.
pub open spec fn carry(track: Seq<Option<int>>, pairs: Seq<(int, int)>, length: nat) -> Seq<
    Option<int>,
> {
    Seq::new(length, |line: int| carried(track, pairs, line, pairs.len() as int))
}

/// For each line of the `age`-th version back, the line of the newest version
/// that it still is.
pub open spec fn tracking(versions: Seq<Version>, age: nat) -> Seq<Option<int>>
    decreases age,
{
    if age == 0 {
        Seq::new(versions[0].lines.len(), |line: int| Some(line))
    } else if versions[age as int].unchanged {
        tracking(versions, (age - 1) as nat)
    } else {
        carry(
            tracking(versions, (age - 1) as nat),
            attribution_matches(versions[age as int].lines, versions[age - 1].lines),
            versions[age as int].lines.len(),
        )
    }
}

/// Whether some line of a version still is a given final line.
pub open spec fn tracks(track: Seq<Option<int>>, line: int) -> bool {
    exists|i: int| 0 <= i < track.len() && #[trigger] track[i] == Some(line)
}

/// The oldest commit, at most `age` versions back, that still had a line.
pub open spec fn origin(versions: Seq<Version>, age: nat, line: int) -> ObjectId
    decreases age,
{
    if age > 0 && tracks(tracking(versions, age), line) {
        versions[age as int].commit
    } else if age > 0 {
        origin(versions, (age - 1) as nat, line)
    } else {
        versions[0].commit
    }
}

/// Whether one of the first `count` pairs keeps a final line.
pub open spec fn credited(
    track: Seq<Option<int>>,
    pairs: Seq<(int, int)>,
    line: int,
    count: int,
) -> bool
    decreases count,
{
    if count <= 0 {
        false
    } else {
        track[pairs[count - 1].1] == Some(line) || credited(track, pairs, line, count - 1)
    }
}

proof fn lemma_credited(track: Seq<Option<int>>, pairs: Seq<(int, int)>, line: int, count: int)
    requires
        0 <= count <= pairs.len(),
    ensures
        credited(track, pairs, line, count) <==> exists|k: int|
            0 <= k < count && track[(#[trigger] pairs[k]).1] == Some(line),
    decreases count,
{
    if count > 0 {
        lemma_credited(track, pairs, line, count - 1);
        if credited(track, pairs, line, count) {
            if track[pairs[count - 1].1] != Some(line) {
                let k = choose|k: int|
                    0 <= k < count - 1 && track[(#[trigger] pairs[k]).1] == Some(line);
                assert(track[pairs[k].1] == Some(line));
            }
        }
    }
}

proof fn lemma_carried(track: Seq<Option<int>>, pairs: Seq<(int, int)>, line: int, count: int)
    requires
        0 <= count <= pairs.len(),
    ensures
        carried(track, pairs, line, count) matches Some(target) ==> exists|k: int|
            0 <= k < count && (#[trigger] pairs[k]).0 == line && track[pairs[k].1] == Some(target),
        forall|k: int|
            0 <= k < count && (#[trigger] pairs[k]).0 == line && track[pairs[k].1] is Some
                ==> carried(track, pairs, line, count) is Some,
    decreases count,
{
    if count > 0 {
        lemma_carried(track, pairs, line, count - 1);
    }
}

proof fn lemma_tracks_are_credited(
    track: Seq<Option<int>>,
    pairs: Seq<(int, int)>,
    length: nat,
    line: int,
)
    requires
        forall|k: int| 0 <= k < pairs.len() ==> 0 <= (#[trigger] pairs[k]).0 < length,
        forall|k: int, l: int|
            0 <= k < l < pairs.len() ==> (#[trigger] pairs[k]).0 < (#[trigger] pairs[l]).0,
    ensures
        tracks(carry(track, pairs, length), line) <==> credited(
            track,
            pairs,
            line,
            pairs.len() as int,
        ),
{
    let count = pairs.len() as int;
    let older = carry(track, pairs, length);
    lemma_credited(track, pairs, line, count);
    if tracks(older, line) {
        let i = choose|i: int| 0 <= i < older.len() && #[trigger] older[i] == Some(line);
        lemma_carried(track, pairs, i, count);
        let k = choose|k: int|
            0 <= k < count && (#[trigger] pairs[k]).0 == i && track[pairs[k].1] == Some(line);
        assert(track[pairs[k].1] == Some(line));
    }
    if credited(track, pairs, line, count) {
        let k = choose|k: int| 0 <= k < count && track[(#[trigger] pairs[k]).1] == Some(line);
        let i = pairs[k].0;
        lemma_carried(track, pairs, i, count);
        let target = carried(track, pairs, i, count)->0;
        let l = choose|l: int|
            0 <= l < count && (#[trigger] pairs[l]).0 == i && track[pairs[l].1] == Some(target);
        if l < k {
            assert(pairs[l].0 < pairs[k].0);
        } else if k < l {
            assert(pairs[k].0 < pairs[l].0);
        }
        assert(older[i] == Some(line));
    }
}

proof fn lemma_matches_shape(older: Seq<Seq<u8>>, newer: Seq<Seq<u8>>)
    ensures
        crate::lcs::is_matching(
            older,
            newer,
            attribution_matches(older, newer),
            older.len() as int,
            newer.len() as int,
        ),
{
    crate::lcs::shared_ends_give_a_longest_matching(older, newer);
}

/// The versions of one file agree with themselves: a version that is said to be
/// unchanged has the lines of the next newer one.
pub open spec fn chain(versions: Seq<Version>) -> bool {
    &&& versions.len() > 0
    &&& forall|age: int|
        0 < age < versions.len() && (#[trigger] versions[age]).unchanged ==> versions[age].lines
            == versions[age - 1].lines
}

/// A line that a version still tracks has the same bytes there as in the newest
/// version, and no two of its lines are the same final line.
pub proof fn tracked_lines_are_equal(versions: Seq<Version>, age: nat)
    requires
        chain(versions),
        age < versions.len(),
    ensures
        tracking(versions, age).len() == versions[age as int].lines.len(),
        forall|i: int|
            0 <= i < tracking(versions, age).len() && (#[trigger] tracking(versions, age)[i])
                is Some ==> 0 <= tracking(versions, age)[i]->0 < versions[0].lines.len()
                && versions[age as int].lines[i] == versions[0].lines[tracking(
                versions,
                age,
            )[i]->0],
        forall|i: int, j: int|
            0 <= i < j < tracking(versions, age).len() && (#[trigger] tracking(versions, age)[i])
                is Some ==> tracking(versions, age)[i] != #[trigger] tracking(versions, age)[j],
    decreases age,
{
    if age > 0 {
        let newer = tracking(versions, (age - 1) as nat);
        tracked_lines_are_equal(versions, (age - 1) as nat);
        if versions[age as int].unchanged {
        } else {
            let older_lines = versions[age as int].lines;
            let newer_lines = versions[age - 1].lines;
            let pairs = attribution_matches(older_lines, newer_lines);
            lemma_matches_shape(older_lines, newer_lines);
            let track = tracking(versions, age);
            assert forall|i: int| 0 <= i < track.len() && (#[trigger] track[i]) is Some implies 0
                <= track[i]->0 < versions[0].lines.len() && older_lines[i]
                == versions[0].lines[track[i]->0] by {
                lemma_carried(newer, pairs, i, pairs.len() as int);
                {
                    let line = track[i]->0;
                    let k = choose|k: int|
                        0 <= k < pairs.len() && (#[trigger] pairs[k]).0 == i
                            && newer[pairs[k].1] == Some(line);
                    assert(newer[pairs[k].1] == Some(line));
                    assert(older_lines[pairs[k].0] == newer_lines[pairs[k].1]);
                }
            }
            assert forall|i: int, j: int|
                0 <= i < j < track.len() && (#[trigger] track[i]) is Some implies track[i]
                != #[trigger] track[j] by {
                lemma_carried(newer, pairs, i, pairs.len() as int);
                lemma_carried(newer, pairs, j, pairs.len() as int);
                if track[i] == track[j] {
                    let line = track[i]->0;
                    let k = choose|k: int|
                        0 <= k < pairs.len() && (#[trigger] pairs[k]).0 == i
                            && newer[pairs[k].1] == Some(line);
                    let l = choose|l: int|
                        0 <= l < pairs.len() && (#[trigger] pairs[l]).0 == j
                            && newer[pairs[l].1] == Some(line);
                    assert(newer[pairs[k].1] == newer[pairs[l].1]);
                    if k < l {
                        assert(pairs[k].1 < pairs[l].1);
                    } else if l < k {
                        assert(pairs[l].0 < pairs[k].0);
                    }
                }
            }
        }
    }
}

/// The commit that a line is attributed to is one of the versions walked, and it
/// had the line: every line that is attributed to an older commit stands there
/// with the same bytes.
pub proof fn attributed_commit_has_the_line(versions: Seq<Version>, age: nat, line: int)
    requires
        chain(versions),
        age < versions.len(),
        0 <= line < versions[0].lines.len(),
    ensures
        exists|at: int, i: int|
            #![trigger versions[at].lines[i]]
            0 <= at <= age && versions[at].commit == origin(versions, age, line) && 0 <= i
                < versions[at].lines.len() && versions[at].lines[i] == versions[0].lines[line],
    decreases age,
{
    if age > 0 && tracks(tracking(versions, age), line) {
        tracked_lines_are_equal(versions, age);
        let track = tracking(versions, age);
        let i = choose|i: int| 0 <= i < track.len() && #[trigger] track[i] == Some(line);
        assert(versions[age as int].lines[i] == versions[0].lines[line]);
    } else if age > 0 {
        attributed_commit_has_the_line(versions, (age - 1) as nat, line);
        let (at, i) = choose|at: int, i: int|
            #![trigger versions[at].lines[i]]
            0 <= at <= age - 1 && versions[at].commit == origin(versions, (age - 1) as nat, line)
                && 0 <= i < versions[at].lines.len() && versions[at].lines[i]
                == versions[0].lines[line];
        assert(versions[at].lines[i] == versions[0].lines[line]);
    } else {
        assert(versions[0].lines[line] == versions[0].lines[line]);
    }
}

/// Between a version and the next older one that differs, the lines carried over are a
/// longest matching of the two: equal lines in their order, and no other choice of equal
/// lines in their order carries more.
pub proof fn as_many_lines_as_possible_are_carried(older: Seq<Seq<u8>>, newer: Seq<Seq<u8>>)
    ensures
        ({
            let found = attribution_matches(older, newer);
            &&& forall|k: int|
                0 <= k < found.len() ==> 0 <= (#[trigger] found[k]).0 < older.len() && 0
                    <= found[k].1 < newer.len() && older[found[k].0] == newer[found[k].1]
            &&& forall|k: int, l: int|
                0 <= k < l < found.len() ==> (#[trigger] found[k]).0 < (#[trigger] found[l]).0
                    && found[k].1 < found[l].1
            &&& forall|pairs: Seq<(int, int)>|
                {
                    &&& forall|k: int|
                        0 <= k < pairs.len() ==> 0 <= (#[trigger] pairs[k]).0 < older.len() && 0
                            <= pairs[k].1 < newer.len() && older[pairs[k].0] == newer[pairs[k].1]
                    &&& forall|k: int, l: int|
                        0 <= k < l < pairs.len() ==> (#[trigger] pairs[k]).0 < (
                        #[trigger] pairs[l]).0 && pairs[k].1 < pairs[l].1
                } ==> #[trigger] pairs.len() <= found.len()
        }),
{
    crate::lcs::shared_ends_give_a_longest_matching(older, newer);
    let found = attribution_matches(older, newer);
    assert forall|pairs: Seq<(int, int)>|
        {
            &&& forall|k: int|
                0 <= k < pairs.len() ==> 0 <= (#[trigger] pairs[k]).0 < older.len() && 0
                    <= pairs[k].1 < newer.len() && older[pairs[k].0] == newer[pairs[k].1]
            &&& forall|k: int, l: int|
                0 <= k < l < pairs.len() ==> (#[trigger] pairs[k]).0 < (#[trigger] pairs[l]).0
                    && pairs[k].1 < pairs[l].1
        } implies #[trigger] pairs.len() <= found.len() by {
        assert(crate::lcs::is_matching(
            older,
            newer,
            pairs,
            older.len() as int,
            newer.len() as int,
        ));
    }
}

proof fn lemma_steps_apart(pairs: Seq<(int, int)>, k: int, l: int, a: int, b: int)
    requires
        0 <= k <= l < pairs.len(),
        forall|m: int, n: int|
            0 <= m < n < pairs.len() ==> (#[trigger] pairs[m]).0 < (#[trigger] pairs[n]).0,
        pairs[k].0 == a,
        pairs[l].0 == b,
    ensures
        a <= b,
        k < l ==> a < b,
{
    if k < l {
        assert(pairs[k].0 < pairs[l].0);
    }
}

/// Where the lines that two versions share stand once in each and in the same order,
/// each of them is carried, whatever was edited, added or removed around it.
pub proof fn lines_that_stand_once_are_carried(
    older: Seq<Seq<u8>>,
    newer: Seq<Seq<u8>>,
    pairs: Seq<(int, int)>,
)
    requires
        forall|k: int|
            0 <= k < pairs.len() ==> 0 <= (#[trigger] pairs[k]).0 < older.len() && 0 <= pairs[k].1
                < newer.len() && older[pairs[k].0] == newer[pairs[k].1],
        forall|k: int, l: int|
            0 <= k < l < pairs.len() ==> (#[trigger] pairs[k]).0 < (#[trigger] pairs[l]).0
                && pairs[k].1 < pairs[l].1,
        forall|i: int, j: int|
            0 <= i < older.len() && 0 <= j < newer.len() && #[trigger] older[i]
                == #[trigger] newer[j] ==> pairs.contains((i, j)),
    ensures
        attribution_matches(older, newer) == pairs,
{
    let found = attribution_matches(older, newer);
    as_many_lines_as_possible_are_carried(older, newer);
    assert(pairs.len() <= found.len());
    let place = |k: int| choose|m: int| 0 <= m < pairs.len() && pairs[m] == found[k];
    assert forall|k: int| 0 <= k < found.len() implies 0 <= #[trigger] place(k) < pairs.len()
        && pairs[place(k)] == found[k] by {
        assert(older[found[k].0] == newer[found[k].1]);
        assert(pairs.contains((found[k].0, found[k].1)));
        assert(found[k] == (found[k].0, found[k].1));
    }
    assert forall|k: int, l: int| 0 <= k < l < found.len() implies #[trigger] place(k)
        < #[trigger] place(l) by {
        assert(found[k].0 < found[l].0);
        if place(l) <= place(k) {
            lemma_steps_apart(pairs, place(l), place(k), found[l].0, found[k].0);
        }
    }
    lemma_rising_places(place, found.len() as int, pairs.len() as int);
    assert forall|k: int| 0 <= k < found.len() implies found[k] == #[trigger] pairs[k] by {
        assert(place(k) == k);
    }
    assert(found =~= pairs);
}

proof fn lemma_rising_places(place: spec_fn(int) -> int, count: int, limit: int)
    requires
        0 <= limit <= count,
        forall|k: int| 0 <= k < count ==> 0 <= #[trigger] place(k) < limit,
        forall|k: int, l: int| 0 <= k < l < count ==> #[trigger] place(k) < #[trigger] place(l),
    ensures
        count == limit,
        forall|k: int| 0 <= k < count ==> #[trigger] place(k) == k,
{
    lemma_places_rise(place, count, limit, count);
    lemma_places_fall(place, count, limit, count);
    if count > limit {
        assert(place(count - 1) >= count - 1);
        assert(place(count - 1) < limit);
    }
}

proof fn lemma_places_rise(place: spec_fn(int) -> int, count: int, limit: int, upto: int)
    requires
        0 <= upto <= count,
        forall|k: int| 0 <= k < count ==> 0 <= #[trigger] place(k) < limit,
        forall|k: int, l: int| 0 <= k < l < count ==> #[trigger] place(k) < #[trigger] place(l),
    ensures
        forall|k: int| 0 <= k < upto ==> #[trigger] place(k) >= k,
    decreases upto,
{
    if upto > 0 {
        lemma_places_rise(place, count, limit, upto - 1);
        if upto > 1 {
            assert(place(upto - 2) < place(upto - 1));
        }
    }
}

proof fn lemma_places_fall(place: spec_fn(int) -> int, count: int, limit: int, left: int)
    requires
        0 <= left <= count,
        limit <= count,
        forall|k: int| 0 <= k < count ==> 0 <= #[trigger] place(k) < limit,
        forall|k: int, l: int| 0 <= k < l < count ==> #[trigger] place(k) < #[trigger] place(l),
    ensures
        forall|k: int| count - left <= k < count ==> #[trigger] place(k) <= k,
    decreases left,
{
    if left > 0 {
        lemma_places_fall(place, count, limit, left - 1);
        if left > 1 {
            assert(place(count - left) < place(count - left + 1));
        }
    }
}

/// A version carries a line of the newest one exactly if the next newer version does and
/// the two versions share it: an unchanged version carries what the next newer one does,
/// and any other carries along a longest matching of the two.
pub proof fn a_line_is_carried_from_version_to_version(versions: Seq<Version>, age: nat)
    requires
        chain(versions),
        0 < age < versions.len(),
    ensures
        ({
            let older = versions[age as int].lines;
            let newer = versions[age - 1].lines;
            let track = tracking(versions, age);
            let before = tracking(versions, (age - 1) as nat);
            &&& track.len() == older.len()
            &&& versions[age as int].unchanged ==> track == before
            &&& !versions[age as int].unchanged ==> exists|pairs: Seq<(int, int)>|
                #![trigger pairs.len()]
                {
                    &&& forall|k: int|
                        0 <= k < pairs.len() ==> 0 <= (#[trigger] pairs[k]).0 < older.len() && 0
                            <= pairs[k].1 < newer.len() && older[pairs[k].0] == newer[pairs[k].1]
                    &&& forall|k: int, l: int|
                        0 <= k < l < pairs.len() ==> (#[trigger] pairs[k]).0 < (
                        #[trigger] pairs[l]).0 && pairs[k].1 < pairs[l].1
                    &&& forall|others: Seq<(int, int)>|
                        {
                            &&& forall|k: int|
                                0 <= k < others.len() ==> 0 <= (#[trigger] others[k]).0
                                    < older.len() && 0 <= others[k].1 < newer.len()
                                    && older[others[k].0] == newer[others[k].1]
                            &&& forall|k: int, l: int|
                                0 <= k < l < others.len() ==> (#[trigger] others[k]).0 < (
                                #[trigger] others[l]).0 && others[k].1 < others[l].1
                        } ==> #[trigger] others.len() <= pairs.len()
                    &&& forall|k: int|
                        0 <= k < pairs.len() ==> track[(#[trigger] pairs[k]).0]
                            == before[pairs[k].1]
                    &&& forall|i: int|
                        0 <= i < track.len() && (#[trigger] track[i]) is Some ==> exists|k: int|
                            0 <= k < pairs.len() && (#[trigger] pairs[k]).0 == i
                }
        }),
{
    let older = versions[age as int].lines;
    let newer = versions[age - 1].lines;
    let track = tracking(versions, age);
    let before = tracking(versions, (age - 1) as nat);
    tracked_lines_are_equal(versions, age);
    tracked_lines_are_equal(versions, (age - 1) as nat);
    if !versions[age as int].unchanged {
        let pairs = attribution_matches(older, newer);
        as_many_lines_as_possible_are_carried(older, newer);
        assert forall|k: int| 0 <= k < pairs.len() implies track[(#[trigger] pairs[k]).0]
            == before[pairs[k].1] by {
            let i = pairs[k].0;
            lemma_carried(before, pairs, i, pairs.len() as int);
            if let Some(line) = track[i] {
                let l = choose|l: int|
                    0 <= l < pairs.len() && (#[trigger] pairs[l]).0 == i && before[pairs[l].1]
                        == Some(line);
                if l < k {
                    assert(pairs[l].0 < pairs[k].0);
                } else if k < l {
                    assert(pairs[k].0 < pairs[l].0);
                }
            }
        }
        assert forall|i: int| 0 <= i < track.len() && (#[trigger] track[i]) is Some implies exists|
            k: int,
        |
            0 <= k < pairs.len() && (#[trigger] pairs[k]).0 == i by {
            lemma_carried(before, pairs, i, pairs.len() as int);
        }
        assert(pairs.len() == pairs.len());
    }
}

/// Whether some line of the `age`-th version back still is a line of the newest.
pub open spec fn carries(versions: Seq<Version>, age: nat, line: int) -> bool {
    exists|i: int|
        0 <= i < tracking(versions, age).len() && #[trigger] tracking(versions, age)[i] == Some(
            line,
        )
}

proof fn lemma_carried_before(versions: Seq<Version>, age: nat, line: int)
    requires
        chain(versions),
        0 < age < versions.len(),
        tracks(tracking(versions, age), line),
    ensures
        tracks(tracking(versions, (age - 1) as nat), line),
{
    let track = tracking(versions, age);
    let before = tracking(versions, (age - 1) as nat);
    let i = choose|i: int| 0 <= i < track.len() && #[trigger] track[i] == Some(line);
    if versions[age as int].unchanged {
        assert(before[i] == Some(line));
    } else {
        let older = versions[age as int].lines;
        let newer = versions[age - 1].lines;
        let pairs = attribution_matches(older, newer);
        lemma_matches_shape(older, newer);
        tracked_lines_are_equal(versions, (age - 1) as nat);
        lemma_carried(before, pairs, i, pairs.len() as int);
        let k = choose|k: int|
            0 <= k < pairs.len() && (#[trigger] pairs[k]).0 == i && before[pairs[k].1] == Some(
                line,
            );
        assert(before[pairs[k].1] == Some(line));
    }
}

/// Every line belongs to the oldest of the versions in a row, from the newest on, that
/// carry it: it stands in that version and in all newer ones, and in none that is older.
pub proof fn a_line_belongs_where_it_was_introduced(
    versions: Seq<Version>,
    age: nat,
    line: int,
) -> (at: nat)
    requires
        chain(versions),
        age < versions.len(),
        0 <= line < versions[0].lines.len(),
    ensures
        at <= age,
        origin(versions, age, line) == versions[at as int].commit,
        forall|newer: nat| newer <= at ==> #[trigger] carries(versions, newer, line),
        forall|older: nat| at < older <= age ==> !#[trigger] carries(versions, older, line),
        forall|i: int|
            0 <= i < versions[0].lines.len() ==> #[trigger] tracking(versions, 0)[i] == Some(i),
    decreases age,
{
    if age == 0 {
        assert(tracking(versions, 0)[line] == Some(line));
        0
    } else if tracks(tracking(versions, age), line) {
        lemma_carried_throughout(versions, age, line);
        age
    } else {
        let at = a_line_belongs_where_it_was_introduced(versions, (age - 1) as nat, line);
        assert forall|older: nat| at < older <= age implies !#[trigger] carries(
            versions,
            older,
            line,
        ) by {
            if older == age && carries(versions, age, line) {
                let track = tracking(versions, age);
                let i = choose|i: int|
                    0 <= i < tracking(versions, age).len() && #[trigger] tracking(
                        versions,
                        age,
                    )[i] == Some(line);
                assert(track[i] == Some(line));
                assert(tracks(track, line));
            }
        }
        at
    }
}

proof fn lemma_carried_throughout(versions: Seq<Version>, age: nat, line: int)
    requires
        chain(versions),
        age < versions.len(),
        tracks(tracking(versions, age), line),
    ensures
        forall|newer: nat|
            newer <= age ==> #[trigger] carries(versions, newer, line),
    decreases age,
{
    if age > 0 {
        lemma_carried_before(versions, age, line);
        lemma_carried_throughout(versions, (age - 1) as nat, line);
    }
    assert forall|newer: nat| newer <= age implies #[trigger] carries(versions, newer, line) by {
        if newer == age {
            let track = tracking(versions, age);
            let i = choose|i: int| 0 <= i < track.len() && #[trigger] track[i] == Some(line);
            assert(tracking(versions, age)[i] == Some(line));
        }
    }
}

/// A line that the two newest versions share, where what they share stands once in each
/// and in the same order, is never credited to the newest commit; one that they do not
/// share is.
pub proof fn an_edit_takes_only_the_lines_it_changes(
    versions: Seq<Version>,
    pairs: Seq<(int, int)>,
    line: int,
)
    requires
        chain(versions),
        versions.len() == 2,
        !versions[1].unchanged,
        0 <= line < versions[0].lines.len(),
        forall|k: int|
            0 <= k < pairs.len() ==> 0 <= (#[trigger] pairs[k]).0 < versions[1].lines.len() && 0
                <= pairs[k].1 < versions[0].lines.len() && versions[1].lines[pairs[k].0]
                == versions[0].lines[pairs[k].1],
        forall|k: int, l: int|
            0 <= k < l < pairs.len() ==> (#[trigger] pairs[k]).0 < (#[trigger] pairs[l]).0
                && pairs[k].1 < pairs[l].1,
        forall|i: int, j: int|
            0 <= i < versions[1].lines.len() && 0 <= j < versions[0].lines.len()
                && #[trigger] versions[1].lines[i] == #[trigger] versions[0].lines[j]
                ==> pairs.contains((i, j)),
    ensures
        origin(versions, 1, line) == (if exists|i: int|
            0 <= i < versions[1].lines.len() && #[trigger] versions[1].lines[i]
                == versions[0].lines[line] {
            versions[1].commit
        } else {
            versions[0].commit
        }),
{
    let older = versions[1].lines;
    let newer = versions[0].lines;
    lines_that_stand_once_are_carried(older, newer, pairs);
    tracked_lines_are_equal(versions, 1);
    let track = tracking(versions, 1);
    let before = tracking(versions, 0);
    assert(before[line] == Some(line));
    if exists|i: int| 0 <= i < older.len() && #[trigger] older[i] == newer[line] {
        let i = choose|i: int| 0 <= i < older.len() && #[trigger] older[i] == newer[line];
        assert(pairs.contains((i, line)));
        let k = choose|k: int| 0 <= k < pairs.len() && pairs[k] == (i, line);
        lemma_credited(before, pairs, line, pairs.len() as int);
        assert(before[pairs[k].1] == Some(line));
        lemma_tracks_are_credited(before, pairs, older.len(), line);
    } else if tracks(track, line) {
        let i = choose|i: int| 0 <= i < track.len() && #[trigger] track[i] == Some(line);
        assert(older[i] == newer[line]);
    }
    reveal_with_fuel(origin, 2);
    reveal_with_fuel(tracking, 2);
}

/// Whether lines up to an index are split into maximal runs of one origin.
pub open spec fn runs_cover(
    ranges: Seq<BlameRange>,
    path: Seq<u8>,
    origins: Seq<ObjectId>,
    commits: Map<ObjectId, Commit>,
    end: int,
) -> bool {
    &&& ranges.len() == 0 ==> end == 0
    &&& ranges.len() > 0 ==> ranges[0].start == 1 && ranges.last().start + ranges.last().lines - 1
        == end
    &&& forall|i: int|
        0 <= i < ranges.len() ==> {
            let range = #[trigger] ranges[i];
            let oid = origins[range.start - 1];
            &&& range.start >= 1
            &&& range.lines >= 1
            &&& range.start + range.lines - 1 <= end
            &&& range.source_path@ == path
            &&& commits.dom().contains(oid)
            &&& range.commit@ == commits[oid]@
            &&& forall|line: int|
                range.start - 1 <= line < range.start + range.lines - 1 ==> #[trigger] origins[line]
                    == oid
        }
    &&& forall|i: int|
        0 < i < ranges.len() ==> {
            &&& (#[trigger] ranges[i]).start == ranges[i - 1].start + ranges[i - 1].lines
            &&& origins[ranges[i].start - 1] != origins[ranges[i - 1].start - 1]
        }
}

/// Lines of one origin form one range: all of them, under the origin's commit.
pub proof fn one_origin_is_one_range(
    ranges: Seq<BlameRange>,
    path: Seq<u8>,
    origins: Seq<ObjectId>,
    commits: Map<ObjectId, Commit>,
    oid: ObjectId,
)
    requires
        runs_cover(ranges, path, origins, commits, origins.len() as int),
        origins.len() > 0,
        forall|line: int| 0 <= line < origins.len() ==> #[trigger] origins[line] == oid,
    ensures
        ranges.len() == 1,
        ranges[0].start == 1,
        ranges[0].lines == origins.len(),
        ranges[0].source_path@ == path,
        ranges[0].commit@ == commits[oid]@,
{
    if ranges.len() > 1 {
        assert(origins[ranges[1].start - 1] != origins[ranges[0].start - 1]);
        assert(origins[ranges[1].start - 1] == oid);
        assert(origins[ranges[0].start - 1] == oid);
    }
    assert(origins[ranges[0].start - 1] == oid);
}

/// Ranges cover every line once, each under the commit of the line's origin; the ranges
/// follow one another from the first line to the last, and two neighbouring lines share
/// a range exactly if they share their origin.
pub proof fn every_line_is_in_the_range_of_its_origin(
    ranges: Seq<BlameRange>,
    path: Seq<u8>,
    origins: Seq<ObjectId>,
    commits: Map<ObjectId, Commit>,
    line: int,
)
    requires
        runs_cover(ranges, path, origins, commits, origins.len() as int),
        0 <= line < origins.len(),
    ensures
        exists|i: int|
            0 <= i < ranges.len() && (#[trigger] ranges[i]).start <= line + 1 < ranges[i].start
                + ranges[i].lines && ranges[i].commit@ == commits[origins[line]]@
                && ranges[i].source_path@ == path,
        forall|i: int, j: int|
            0 <= i < j < ranges.len() ==> (#[trigger] ranges[i]).start + ranges[i].lines <= (
            #[trigger] ranges[j]).start,
        line + 1 < origins.len() ==> (origins[line] == origins[line + 1] <==> forall|i: int|
            0 <= i < ranges.len() && (#[trigger] ranges[i]).start <= line + 1 < ranges[i].start
                + ranges[i].lines ==> line + 2 < ranges[i].start + ranges[i].lines),
{
    lemma_range_of_line(ranges, path, origins, commits, line, ranges.len() as int);
    let i = choose|i: int|
        0 <= i < ranges.len() && (#[trigger] ranges[i]).start <= line + 1 < ranges[i].start
            + ranges[i].lines;
    assert(origins[line] == origins[ranges[i].start - 1]);
    let starts = Seq::new(ranges.len(), |i: int| ranges[i].start as int);
    let sizes = Seq::new(ranges.len(), |i: int| ranges[i].lines as int);
    assert forall|i: int| 0 <= i < sizes.len() implies #[trigger] sizes[i] >= 1 by {
        assert(ranges[i].lines >= 1);
    }
    assert forall|i: int| 0 < i < starts.len() implies #[trigger] starts[i] == starts[i - 1]
        + sizes[i - 1] by {
        assert(ranges[i].start == ranges[i - 1].start + ranges[i - 1].lines);
    }
    assert forall|a: int, b: int| 0 <= a < b < ranges.len() implies (#[trigger] ranges[a]).start
        + ranges[a].lines <= (#[trigger] ranges[b]).start by {
        lemma_ranges_follow(starts, sizes, a, b);
    }
    if line + 1 < origins.len() {
        if origins[line] == origins[line + 1] {
            assert forall|k: int|
                0 <= k < ranges.len() && (#[trigger] ranges[k]).start <= line + 1 < ranges[k].start
                    + ranges[k].lines implies line + 2 < ranges[k].start + ranges[k].lines by {
                if ranges[k].start + ranges[k].lines == line + 2 {
                    assert(origins[line] == origins[ranges[k].start - 1]);
                    if k + 1 < ranges.len() {
                        assert(ranges[k + 1].start == ranges[k].start + ranges[k].lines);
                        assert(origins[ranges[k + 1].start - 1] != origins[ranges[k].start - 1]);
                    } else {
                        assert(ranges.last() == ranges[k]);
                    }
                }
            }
        } else {
            if line + 2 < ranges[i].start + ranges[i].lines {
                assert(origins[line + 1] == origins[ranges[i].start - 1]);
            }
        }
    }
}

proof fn lemma_ranges_follow(starts: Seq<int>, sizes: Seq<int>, a: int, b: int)
    requires
        0 <= a < b < starts.len(),
        sizes.len() == starts.len(),
        forall|i: int| 0 <= i < sizes.len() ==> #[trigger] sizes[i] >= 1,
        forall|i: int| 0 < i < starts.len() ==> #[trigger] starts[i] == starts[i - 1] + sizes[i - 1],
    ensures
        starts[a] + sizes[a] <= starts[b],
    decreases b - a,
{
    assert(starts[b] == starts[b - 1] + sizes[b - 1]);
    if a < b - 1 {
        lemma_ranges_follow(starts, sizes, a, b - 1);
        assert(sizes[b - 1] >= 1);
    }
}

proof fn lemma_range_of_line(
    ranges: Seq<BlameRange>,
    path: Seq<u8>,
    origins: Seq<ObjectId>,
    commits: Map<ObjectId, Commit>,
    line: int,
    count: int,
)
    requires
        runs_cover(ranges, path, origins, commits, origins.len() as int),
        0 <= count <= ranges.len(),
        0 <= line < (if count > 0 {
            ranges[count - 1].start + ranges[count - 1].lines - 1
        } else {
            0
        }),
    ensures
        exists|i: int|
            0 <= i < ranges.len() && (#[trigger] ranges[i]).start <= line + 1 < ranges[i].start
                + ranges[i].lines,
    decreases count,
{
    if ranges[count - 1].start > line + 1 {
        if count == 1 {
            assert(ranges[0].start == 1);
        } else {
            assert(ranges[count - 1].start == ranges[count - 2].start + ranges[count - 2].lines);
            lemma_range_of_line(ranges, path, origins, commits, line, count - 1);
        }
    }
}

/// A file that no older commit has belongs, line for line, to the newest commit.
pub proof fn a_new_file_belongs_to_its_commit(versions: Seq<Version>, line: int)
    requires
        versions.len() == 1,
    ensures
        origin(versions, 0, line) == versions[0].commit,
{
}

proof fn lemma_run_added(
    before: Seq<BlameRange>,
    added: BlameRange,
    path: Seq<u8>,
    origins: Seq<ObjectId>,
    commits: Map<ObjectId, Commit>,
    start: int,
    end: int,
)
    requires
        0 <= start < end <= origins.len(),
        runs_cover(before, path, origins, commits, start),
        start > 0 ==> origins[start - 1] != origins[start],
        added.start == start + 1,
        added.lines == end - start,
        added.source_path@ == path,
        commits.dom().contains(origins[start]),
        added.commit@ == commits[origins[start]]@,
        forall|line: int| start <= line < end ==> #[trigger] origins[line] == origins[start],
    ensures
        runs_cover(before.push(added), path, origins, commits, end),
{
    let ranges = before.push(added);
    assert forall|i: int| 0 <= i < ranges.len() implies {
        let range = #[trigger] ranges[i];
        let oid = origins[range.start - 1];
        &&& range.start >= 1
        &&& range.lines >= 1
        &&& range.start + range.lines - 1 <= end
        &&& range.source_path@ == path
        &&& commits.dom().contains(oid)
        &&& range.commit@ == commits[oid]@
        &&& forall|line: int|
            range.start - 1 <= line < range.start + range.lines - 1 ==> #[trigger] origins[line]
                == oid
    } by {
        if i < before.len() {
            assert(ranges[i] == before[i]);
        }
    }
    assert forall|i: int| 0 < i < ranges.len() implies {
        &&& (#[trigger] ranges[i]).start == ranges[i - 1].start + ranges[i - 1].lines
        &&& origins[ranges[i].start - 1] != origins[ranges[i - 1].start - 1]
    } by {
        assert(ranges[i - 1] == before[i - 1]);
        if i < before.len() {
            assert(ranges[i] == before[i]);
        } else {
            let last = before.last();
            assert(before[i - 1] == last);
            assert(origins[start - 1] == origins[last.start - 1]);
        }
    }
}

/// Whether an error reports that there was no room for the run that follows those of
/// the first lines.
pub open spec fn no_room_for_range(
    path: Seq<u8>,
    origins: Seq<ObjectId>,
    commits: Map<ObjectId, Commit>,
    error: Error,
) -> bool {
    exists|held: Seq<BlameRange>, lines: int|
        0 <= lines < origins.len() && #[trigger] runs_cover(held, path, origins, commits, lines)
            && crate::memory::is_reservation(held, 1, Err::<(), Error>(error))
}

/// Ranges are refused only for want of memory, and only where there are lines.
pub proof fn when_blame_ranges_are_refused(
    path: Seq<u8>,
    origins: Seq<ObjectId>,
    commits: Map<ObjectId, Commit>,
    error: Error,
)
    requires
        no_room_for_range(path, origins, commits, error),
    ensures
        origins.len() > 0,
        error is Allocation,
{
}

/// Group lines into maximal runs of one origin.
pub fn blame_ranges<W: Cancellation>(
    path: &GitPath,
    origins: &[ObjectId],
    commits: &IdMap<ObjectId, Commit>,
    cancellation: &W,
) -> (result: Result<Vec<BlameRange>, Error>)
    requires
        commits.wf(),
    ensures
        match result {
            Ok(ranges) => runs_cover(
                ranges@,
                path@,
                origins@,
                commits.contents(),
                origins@.len() as int,
            ),
            Err(error) => {
                ||| crate::cancel::stopped_by(cancellation, error) && origins@.len() > 0
                ||| no_room_for_range(path@, origins@, commits.contents(), error)
                ||| error == (Error::InternalInvariant {
                    invariant: "blame origin commit metadata is absent",
                }) && exists|line: int|
                    0 <= line < origins@.len() && !commits.contents().dom().contains(
                        #[trigger] origins@[line],
                    )
            },
        },
        result is Ok && origins@.len() > 0 ==> crate::cancel::passed_by(cancellation),
{
    let mut ranges: Vec<BlameRange> = Vec::new();
    let mut start: usize = 0;
    while start < origins.len()
        invariant
            commits.wf(),
            start <= origins@.len(),
            start > 0 ==> crate::cancel::passed_by(cancellation),
            runs_cover(ranges@, path@, origins@, commits.contents(), start as int),
            start > 0 && start < origins@.len() ==> origins@[start - 1] != origins@[start as int],
        decreases origins@.len() - start,
    {
        if start % CPU_CANCELLATION_INTERVAL == 0 {
            check_cpu_cancellation(cancellation)?;
        }
        let oid = origins[start];
        let mut end: usize = start + 1;
        while end < origins.len() && origins[end] == oid
            invariant
                start < end <= origins@.len(),
                forall|line: int| start <= line < end ==> #[trigger] origins@[line] == oid,
            decreases origins@.len() - end,
        {
            end += 1;
        }
        let commit = match commits.get(&oid) {
            Some(commit) => commit,
            None => {
                assert(!commits.contents().dom().contains(origins@[start as int]));
                return Err(
                    Error::InternalInvariant {
                        invariant: "blame origin commit metadata is absent",
                    },
                );
            },
        };
        reserve(&mut ranges, 1)?;
        let ghost before = ranges@;
        let range = BlameRange {
            start: start as u64 + 1,
            lines: (end - start) as u64,
            commit: commit.duplicate(),
            source_path: path.duplicate(),
        };
        ranges.push(range);
        proof {
            lemma_run_added(
                before,
                range,
                path@,
                origins@,
                commits.contents(),
                start as int,
                end as int,
            );
        }
        start = end;
    }
    Ok(ranges)
}

/// The entry of the file whose lines are to be attributed.
pub fn blame_entry(found: Option<TreeEntry>) -> (result: Result<TreeEntry, Error>)
    ensures
        result == (match found {
            None => Err::<TreeEntry, Error>(Error::PathNotFound),
            Some(entry) => if entry.kind == EntryKind::Blob {
                Ok(entry)
            } else {
                Err(Error::BlameUnsupported { reason: BlameUnsupportedReason::EntryKind })
            },
        }),
{
    match found {
        None => Err(Error::PathNotFound),
        Some(entry) => if entry.kind != EntryKind::Blob {
            Err(Error::BlameUnsupported { reason: BlameUnsupportedReason::EntryKind })
        } else {
            Ok(entry)
        },
    }
}

/// The entry of an older version, if it is a file at all. Below anything but a tree
/// the file is absent.
pub fn older_entry(found: Result<Option<TreeEntry>, Error>) -> (result: Result<
    Option<TreeEntry>,
    Error,
>)
    ensures
        result == (match found {
            Ok(Some(entry)) => if entry.kind == EntryKind::Blob {
                Ok::<Option<TreeEntry>, Error>(Some(entry))
            } else {
                Ok(None)
            },
            Ok(None) => Ok(None),
            Err(error) => if error is PathComponentNotTree {
                Ok(None)
            } else {
                Err(error)
            },
        }),
{
    match found {
        Ok(Some(entry)) => if entry.kind == EntryKind::Blob {
            Ok(Some(entry))
        } else {
            Ok(None)
        },
        Ok(None) => Ok(None),
        Err(Error::PathComponentNotTree { .. }) => Ok(None),
        Err(error) => Err(error),
    }
}

/// Accept only blobs whose lines can be attributed.
pub fn check_blame_blob(blob: Blob) -> (result: Result<Blob, Error>)
    ensures
        result == (match crate::diff::blame_obstacle(blob) {
            None => Ok::<Blob, Error>(blob),
            Some(reason) => Err(Error::BlameUnsupported { reason }),
        }),
{
    match blame_unsupported_reason(&blob) {
        None => Ok(blob),
        Some(reason) => Err(Error::BlameUnsupported { reason }),
    }
}

/// An older blob, if its lines can be attributed.
pub fn attributable(blob: Blob) -> (result: Option<Blob>)
    ensures
        result == (if crate::diff::blame_obstacle(blob) is None {
            Some(blob)
        } else {
            None
        }),
{
    match blame_unsupported_reason(&blob) {
        None => Some(blob),
        Some(_) => None,
    }
}

/// The final line that an index stands for.
pub open spec fn target(index: Option<usize>) -> Option<int> {
    match index {
        Some(line) => Some(line as int),
        None => None,
    }
}

/// The final lines that a list of indices stands for.
pub open spec fn targets(indices: Seq<Option<usize>>) -> Seq<Option<int>> {
    indices.map_values(|index: Option<usize>| target(index))
}

/// The lines of a version that was read.
struct OpenVersion {
    blob: ObjectId,
    bytes: Vec<u8>,
    lines: Vec<Range<usize>>,
}

impl OpenVersion {
    spec fn content(self) -> Seq<Seq<u8>> {
        crate::lines::lines_at(self.bytes@, self.lines@)
    }

    spec fn wf(self) -> bool {
        crate::lines::ranges_within(self.bytes@, self.lines@)
    }
}

/// An older version that has been read and not yet compared.
struct OlderVersion {
    oid: ObjectId,
    commit: Commit,
    version: OpenVersion,
    prefix: usize,
    suffix: usize,
}

/// How many cells the comparison of two versions fills.
pub open spec fn cells_between(older: Seq<Seq<u8>>, newer: Seq<Seq<u8>>) -> int {
    let ends = crate::lcs::shared_ends(older, newer);
    (older.len() - ends.0 - ends.1 + 1) * (newer.len() - ends.0 - ends.1 + 1)
}

/// Comparing two versions costs a cell for every pair of lines between the starts and
/// the ends that they share, with one row and one column more.
pub proof fn what_a_comparison_costs(
    start: Seq<Seq<u8>>,
    older: Seq<Seq<u8>>,
    newer: Seq<Seq<u8>>,
    end: Seq<Seq<u8>>,
)
    requires
        older.len() > 0 && newer.len() > 0 ==> older[0] != newer[0] && older.last()
            != newer.last(),
    ensures
        cells_between(start + older + end, start + newer + end) == (older.len() + 1) * (newer.len()
            + 1),
{
    let a = start + older + end;
    let b = start + newer + end;
    crate::lcs::shared_ends_cannot_be_longer(a, b);
    let (prefix, suffix) = crate::lcs::shared_ends(a, b);
    let head = start.len();
    let tail = end.len();
    assert forall|k: int| 0 <= k < head implies a[k] == b[k] by {}
    if prefix < head {
        assert(a[prefix as int] == b[prefix as int]);
    }
    if suffix < tail && prefix + suffix < a.len() && prefix + suffix < b.len() {
        assert(a[a.len() - suffix - 1] == b[b.len() - suffix - 1]);
    }
    if older.len() > 0 && newer.len() > 0 {
        if prefix > head {
            assert(a.subrange(0, prefix as int)[head as int] == b.subrange(
                0,
                prefix as int,
            )[head as int]);
            assert(a[head as int] == older[0] && b[head as int] == newer[0]);
        }
        if suffix < tail {
            assert(a[a.len() - suffix - 1] == b[b.len() - suffix - 1]);
        }
        if suffix > tail {
            let x = a.subrange(a.len() - suffix, a.len() as int);
            let y = b.subrange(b.len() - suffix, b.len() as int);
            assert(x[suffix - tail - 1] == y[suffix - tail - 1]);
            assert(a[a.len() - tail - 1] == older.last());
            assert(b[b.len() - tail - 1] == newer.last());
        }
    }
}

/// What an older version means for the walk.
#[derive(Debug, Clone, Copy, PartialEq, Eq, Structural)]
pub enum BlameStep {
    /// The file ends here: it is absent, or no ordinary text.
    Ended,
    /// The file is the same blob; all its lines are older still.
    Unchanged,
    /// The lines have to be compared, at the cost of so many cells.
    Compare { cells: u64 },
}

/// The walk of one file back through first parents.
pub struct BlameWalk {
    origins: Vec<ObjectId>,
    finals: Vec<Option<usize>>,
    commits: IdMap<ObjectId, Commit>,
    visited: IdMap<ObjectId, ()>,
    parent: Option<ObjectId>,
    awaiting: Option<ObjectId>,
    current: OpenVersion,
    older: Option<OlderVersion>,
    ended: bool,
    versions: Ghost<Seq<Version>>,
    read: Ghost<Map<ObjectId, Commit>>,
}

pub open spec fn first_parent(commit: Commit) -> Option<ObjectId> {
    if commit.parents@.len() > 0 {
        Some(commit.parents@[0])
    } else {
        None
    }
}

/// The commit that so many steps along first parents lead to.
pub open spec fn ancestor(store: Map<ObjectId, Commit>, head: ObjectId, steps: nat) -> Option<
    ObjectId,
>
    decreases steps,
{
    if steps == 0 {
        Some(head)
    } else {
        match ancestor(store, head, (steps - 1) as nat) {
            Some(oid) => first_parent(store[oid]),
            None => None,
        }
    }
}

fn first_parent_of(commit: &Commit) -> (result: Option<ObjectId>)
    ensures
        result == first_parent(*commit),
{
    if commit.parents.len() > 0 {
        Some(commit.parents[0])
    } else {
        None
    }
}

/// The lines of a text.
pub open spec fn text_lines(bytes: Seq<u8>) -> Seq<Seq<u8>> {
    crate::lines::lines_of(bytes)
}

/// The lines that are attributed make up the whole text: each ends behind its own line
/// feed and holds no other, the last one ends with the text, and joined they are it.
pub proof fn a_text_is_attributed_line_by_line(bytes: Seq<u8>)
    ensures
        text_lines(bytes).flatten() == bytes,
        forall|i: int|
            0 <= i < text_lines(bytes).len() ==> (#[trigger] text_lines(bytes)[i]).len() > 0,
        forall|i: int, k: int|
            0 <= i < text_lines(bytes).len() && 0 <= k < text_lines(bytes)[i].len() - 1
                ==> #[trigger] text_lines(bytes)[i][k] != 10,
        forall|i: int|
            0 <= i < text_lines(bytes).len() - 1 ==> (#[trigger] text_lines(bytes)[i]).last() == 10,
{
    crate::lines::lines_join_to_the_file(bytes);
}

proof fn lemma_lines_at(bytes: Seq<u8>, ranges: Seq<Range<usize>>)
    requires
        crate::lines::spans(ranges) == crate::lines::line_spans(bytes),
    ensures
        crate::lines::lines_at(bytes, ranges) == text_lines(bytes),
{
    let all = crate::lines::line_spans(bytes);
    assert(all.len() == ranges.len());
    assert forall|i: int| 0 <= i < ranges.len() implies #[trigger] crate::lines::lines_at(
        bytes,
        ranges,
    )[i] == text_lines(bytes)[i] by {
        assert(all[i] == crate::lines::span(ranges[i]));
    }
    assert(crate::lines::lines_at(bytes, ranges) =~= text_lines(bytes));
}

impl BlameWalk {
    /// The versions walked so far, the newest first.
    pub closed spec fn versions(self) -> Seq<Version> {
        self.versions@
    }

    /// The commits that may be shown, by identity.
    pub closed spec fn commits(self) -> Map<ObjectId, Commit> {
        self.commits.contents()
    }

    /// The commits visited so far.
    pub closed spec fn visited(self) -> Set<ObjectId> {
        self.visited.contents().dom()
    }

    /// The commits handed back so far, the newest one with them.
    pub closed spec fn read(self) -> Map<ObjectId, Commit> {
        self.read@
    }

    /// The first parent of the oldest version walked.
    pub closed spec fn parent(self) -> Option<ObjectId> {
        self.parent
    }

    /// The blob of the oldest version walked.
    pub closed spec fn blob(self) -> ObjectId {
        self.current.blob
    }

    /// The commit that was asked for and not handed back yet.
    pub closed spec fn awaiting(self) -> Option<ObjectId> {
        self.awaiting
    }

    /// The older version that has to be compared, and its lines.
    pub closed spec fn compared(self) -> Option<(ObjectId, Seq<Seq<u8>>)> {
        match self.older {
            Some(older) => Some((older.oid, older.version.content())),
            None => None,
        }
    }

    /// No older version can change the result.
    pub closed spec fn ended(self) -> bool {
        self.ended
    }

    /// How many versions were walked behind the newest.
    pub open spec fn age(self) -> nat {
        (self.versions().len() - 1) as nat
    }

    /// Whether the versions walked, the one that is compared and the parent that is
    /// next follow each other along the first parents of a store.
    spec fn follows(self, store: Map<ObjectId, Commit>) -> bool {
        let head = self.versions@[0].commit;
        let count = self.versions@.len();
        &&& forall|i: nat|
            i < count ==> #[trigger] ancestor(store, head, i) == Some(
                self.versions@[i as int].commit,
            )
        &&& !self.ended ==> match self.older {
            Some(older) => {
                &&& ancestor(store, head, count) == Some(older.oid)
                &&& ancestor(store, head, count + 1) == self.parent
            },
            None => ancestor(store, head, count) == self.parent,
        }
    }

    pub closed spec fn wf(self) -> bool {
        &&& chain(self.versions@)
        &&& self.read@.dom() =~= self.visited.contents().dom()
        &&& self.awaiting is Some ==> self.parent == self.awaiting
        &&& forall|store: Map<ObjectId, Commit>| #[trigger]
            crate::replies::agrees(self.read@, store) ==> self.follows(store)
        &&& self.commits.wf()
        &&& self.visited.wf()
        &&& self.origins@.len() == self.versions@[0].lines.len()
        &&& forall|line: int|
            0 <= line < self.origins@.len() ==> #[trigger] self.origins@[line] == origin(
                self.versions@,
                self.age(),
                line,
            )
        &&& forall|line: int|
            0 <= line < self.origins@.len() ==> self.commits.contents().dom().contains(
                #[trigger] self.origins@[line],
            )
        &&& forall|oid: ObjectId| #[trigger]
            self.commits.contents().dom().contains(oid)
                ==> self.visited.contents().dom().contains(oid)
        &&& !self.ended ==> {
            &&& self.current.wf()
            &&& self.current.content() == self.versions@.last().lines
            &&& targets(self.finals@) == tracking(self.versions@, self.age())
        }
        &&& match self.awaiting {
            Some(oid) => !self.visited.contents().dom().contains(oid) && !self.ended
                && self.older is None,
            None => true,
        }
        &&& match self.older {
            Some(older) => {
                &&& !self.ended
                &&& !self.commits.contents().dom().contains(older.oid)
                &&& self.visited.contents().dom().contains(older.oid)
                &&& older.version.wf()
                &&& (older.prefix as nat, older.suffix as nat) == crate::lcs::shared_ends(
                    older.version.content(),
                    self.current.content(),
                )
            },
            None => true,
        }
    }

    /// Begin with the newest version, whose lines the caller has counted.
    pub fn new<W: Cancellation>(
        head: ObjectId,
        commit: Commit,
        blob: Blob,
        lines: usize,
        cancellation: &W,
    ) -> (result: Result<BlameWalk, Error>)
        ensures
            match result {
                Ok(walk) => {
                    &&& walk.wf()
                    &&& walk.versions() == seq![
                        Version {
                            commit: head,
                            lines: text_lines(blob.bytes@),
                            unchanged: false,
                        },
                    ]
                    &&& walk.commits() == Map::<ObjectId, Commit>::empty().insert(head, commit)
                    &&& walk.visited() == Set::<ObjectId>::empty().insert(head)
                    &&& walk.read() == Map::<ObjectId, Commit>::empty().insert(head, commit)
                    &&& walk.parent() == first_parent(commit)
                    &&& walk.blob() == blob.metadata.oid
                    &&& walk.awaiting() is None
                    &&& walk.compared() is None
                    &&& !walk.ended()
                },
                Err(error) => {
                    ||| crate::lines::ranges_refused(blob.bytes@, lines, cancellation, error)
                    ||| {
                        &&& lines == text_lines(blob.bytes@).len()
                        &&& crate::cancel::passed_by(cancellation)
                        &&& crate::memory::granted_exactly::<Range<usize>>(lines)
                        &&& crate::memory::refused_exactly::<ObjectId>(lines, error) || (
                        crate::memory::granted_exactly::<ObjectId>(lines)
                            && crate::memory::refused_exactly::<Option<usize>>(lines, error))
                    }
                },
            },
    {
        let ranges = line_ranges(blob.bytes.as_slice(), lines, cancellation)?;
        let mut origins: Vec<ObjectId> = Vec::new();
        reserve_exact(&mut origins, ranges.len())?;
        let mut finals: Vec<Option<usize>> = Vec::new();
        reserve_exact(&mut finals, ranges.len())?;
        let mut at: usize = 0;
        while at < ranges.len()
            invariant
                at <= ranges@.len(),
                origins@.len() == at,
                finals@.len() == at,
                forall|i: int| 0 <= i < at ==> #[trigger] origins@[i] == head,
                forall|i: int| 0 <= i < at ==> #[trigger] finals@[i] == Some(i as usize),
            decreases ranges@.len() - at,
        {
            origins.push(head);
            finals.push(Some(at));
            at += 1;
        }
        let parent = first_parent_of(&commit);
        let ghost newest_commit = commit;
        let mut commits: IdMap<ObjectId, Commit> = IdMap::new();
        commits.insert(head, commit);
        let mut visited: IdMap<ObjectId, ()> = IdMap::new();
        visited.insert(head, ());
        proof {
            lemma_lines_at(blob.bytes@, ranges@);
        }
        let ghost newest = Version {
            commit: head,
            lines: text_lines(blob.bytes@),
            unchanged: false,
        };
        let ghost versions = seq![newest];
        let walk = BlameWalk {
            origins,
            finals,
            commits,
            visited,
            parent,
            awaiting: None,
            current: OpenVersion { blob: blob.metadata.oid, bytes: blob.bytes, lines: ranges },
            older: None,
            ended: false,
            versions: Ghost(versions),
            read: Ghost(Map::empty().insert(head, newest_commit)),
        };
        proof {
            assert forall|store: Map<ObjectId, Commit>| #[trigger]
                crate::replies::agrees(walk.read@, store) implies walk.follows(store) by {
                reveal_with_fuel(ancestor, 2);
                assert(walk.read@.dom().contains(head));
                assert(store[head] == newest_commit);
            }
            assert(targets(walk.finals@) =~= tracking(walk.versions@, 0));
            assert(walk.commits() =~= Map::<ObjectId, Commit>::empty().insert(head, commit));
            assert(walk.visited() =~= Set::<ObjectId>::empty().insert(head));
        }
        Ok(walk)
    }

    /// The next older commit to read, or nothing once no older version can change
    /// the result. A first parent that was visited before is corrupt.
    pub fn next(&mut self) -> (result: Result<Option<ObjectId>, Error>)
        requires
            old(self).wf(),
            old(self).compared() is None,
            old(self).awaiting() is None,
        ensures
            final(self).wf(),
            final(self).versions() == old(self).versions(),
            final(self).commits() == old(self).commits(),
            final(self).read() == old(self).read(),
            final(self).visited() == old(self).visited(),
            final(self).parent() == old(self).parent(),
            final(self).blob() == old(self).blob(),
            final(self).compared() is None,
            final(self).ended() == old(self).ended(),
            result == (if old(self).ended() {
                Ok::<Option<ObjectId>, Error>(None)
            } else {
                match old(self).parent() {
                    None => Ok(None),
                    Some(oid) => if old(self).visited().contains(oid) {
                        Err(Error::Corrupt { stage: CorruptionStage::Commit })
                    } else {
                        Ok(Some(oid))
                    },
                }
            }),
            final(self).awaiting() == (match result {
                Ok(oid) => oid,
                Err(_) => None,
            }),
    {
        if self.ended {
            return Ok(None);
        }
        match self.parent {
            None => Ok(None),
            Some(oid) => {
                if self.visited.contains(&oid) {
                    return Err(Error::Corrupt { stage: CorruptionStage::Commit });
                }
                self.awaiting = Some(oid);
                assert forall|store: Map<ObjectId, Commit>| #[trigger]
                    crate::replies::agrees(self.read@, store) implies self.follows(store) by {
                    assert(old(self).follows(store));
                }
                Ok(Some(oid))
            },
        }
    }

    /// Hand back the commit that was asked for and its version of the file, if it
    /// has one whose lines can be attributed.
    pub fn accept<W: Cancellation>(
        &mut self,
        commit: Commit,
        blob: Option<Blob>,
        cancellation: &W,
    ) -> (result: Result<BlameStep, Error>)
        requires
            old(self).wf(),
            old(self).awaiting() is Some,
        ensures
            match blob {
                None => result == Ok::<BlameStep, Error>(BlameStep::Ended),
                Some(blob) => if blob.metadata.oid == old(self).blob() {
                    result == Ok::<BlameStep, Error>(BlameStep::Unchanged)
                } else {
                    match result {
                        Ok(step) => step is Compare && crate::cancel::passed_by(cancellation),
                        Err(error) => {
                            let older = text_lines(blob.bytes@);
                            let newer = old(self).versions().last().lines;
                            ||| crate::cancel::stopped_by(cancellation, error)
                            ||| crate::cancel::passed_by(cancellation)
                                && crate::memory::refused_exactly::<Range<usize>>(
                                older.len() as usize,
                                error,
                            )
                            ||| {
                                &&& crate::cancel::passed_by(cancellation)
                                &&& cells_between(older, newer) > u64::MAX
                                &&& error == crate::lcs::too_many_cells()
                            }
                        },
                    }
                },
            },
            result matches Ok(step) ==> {
                &&& final(self).wf()
                &&& final(self).awaiting() is None
                &&& final(self).visited() == old(self).visited().insert(old(self).awaiting()->0)
                &&& final(self).read() == old(self).read().insert(old(self).awaiting()->0, commit)
                &&& match step {
                    BlameStep::Ended => {
                        &&& final(self).ended()
                        &&& final(self).versions() == old(self).versions()
                        &&& final(self).commits() == old(self).commits()
                        &&& final(self).compared() is None
                    },
                    BlameStep::Unchanged => {
                        &&& !final(self).ended()
                        &&& final(self).versions() == old(self).versions().push(
                            Version {
                                commit: old(self).awaiting()->0,
                                lines: old(self).versions().last().lines,
                                unchanged: true,
                            },
                        )
                        &&& final(self).commits() == (if exists|line: int|
                            0 <= line < old(self).versions()[0].lines.len() && tracks(
                                tracking(old(self).versions(), old(self).age()),
                                line,
                            ) {
                            old(self).commits().insert(old(self).awaiting()->0, commit)
                        } else {
                            old(self).commits()
                        })
                        &&& final(self).parent() == first_parent(commit)
                        &&& final(self).blob() == old(self).blob()
                        &&& final(self).compared() is None
                    },
                    BlameStep::Compare { cells } => {
                        let older = text_lines(blob->0.bytes@);
                        let newer = old(self).versions().last().lines;
                        &&& !final(self).ended()
                        &&& final(self).versions() == old(self).versions()
                        &&& final(self).commits() == old(self).commits()
                        &&& final(self).parent() == first_parent(commit)
                        &&& final(self).blob() == old(self).blob()
                        &&& final(self).compared() == Some((old(self).awaiting()->0, older))
                        &&& final(self).compared_commit() == Some(commit)
                        &&& final(self).compared_blob() == Some(blob->0.metadata.oid)
                        &&& cells == cells_between(older, newer)
                    },
                }
            },
    {
        let ghost before = *self;
        let ghost oid = self.awaiting->0;
        let parent_oid = match self.awaiting {
            Some(oid) => oid,
            None => {
                assert(false);
                return Ok(BlameStep::Ended);
            },
        };
        self.visited.insert(parent_oid, ());
        self.awaiting = None;
        self.read = Ghost(before.read@.insert(oid, commit));
        proof {
            assert(self.visited() =~= before.visited().insert(oid));
            assert forall|store: Map<ObjectId, Commit>| #[trigger]
                crate::replies::agrees(self.read@, store) implies before.follows(store)
                && store[oid] == commit by {
                crate::replies::agrees_with_earlier_replies(before.read@, oid, commit, store);
            }
        }
        let ghost next_parent = first_parent(commit);
        let blob = match blob {
            None => {
                self.ended = true;
                assert forall|store: Map<ObjectId, Commit>| #[trigger]
                    crate::replies::agrees(self.read@, store) implies self.follows(store) by {
                    assert(before.follows(store));
                }
                return Ok(BlameStep::Ended);
            },
            Some(blob) => blob,
        };
        self.parent = first_parent_of(&commit);
        if blob.metadata.oid == self.current.blob {
            let attributed = self.credit_all(parent_oid);
            if attributed {
                self.commits.insert(parent_oid, commit);
            }
            proof {
                let added = Version {
                    commit: oid,
                    lines: before.versions@.last().lines,
                    unchanged: true,
                };
                let versions = before.versions@.push(added);
                self.versions@ = versions;
                lemma_versions_grow(before.versions@, added, before.age());
                assert(tracking(versions, self.age()) == tracking(before.versions@, before.age()));
                assert forall|line: int| 0 <= line < self.origins@.len() implies
                    #[trigger] self.origins@[line] == origin(versions, self.age(), line) by {
                    lemma_origins_grow(before.versions@, added, before.age(), line);
                    let _ = before.origins@[line];
                }
                assert forall|line: int| 0 <= line < self.origins@.len() implies
                    self.commits.contents().dom().contains(#[trigger] self.origins@[line]) by {
                    let _ = before.origins@[line];
                }
                assert(chain(versions));
                assert forall|store: Map<ObjectId, Commit>| #[trigger]
                    crate::replies::agrees(self.read@, store) implies self.follows(store) by {
                    assert(before.follows(store));
                    let head = versions[0].commit;
                    let count = before.versions@.len();
                    assert(ancestor(store, head, count) == Some(oid));
                    assert(ancestor(store, head, count + 1) == next_parent);
                    assert forall|i: nat| i < versions.len() implies #[trigger] ancestor(
                        store,
                        head,
                        i,
                    ) == Some(versions[i as int].commit) by {
                        if i < count {
                            assert(versions[i as int] == before.versions@[i as int]);
                        }
                    }
                }
            }
            return Ok(BlameStep::Unchanged);
        }
        let count: usize = line_count(blob.bytes.as_slice(), cancellation)?;
        let lines = line_ranges(blob.bytes.as_slice(), count, cancellation)?;
        proof {
            lemma_lines_at(blob.bytes@, lines@);
            crate::lcs::shared_ends_give_a_longest_matching(
                text_lines(blob.bytes@),
                self.current.content(),
            );
        }
        let (prefix, suffix) = matching_ends(
            blob.bytes.as_slice(),
            lines.as_slice(),
            self.current.bytes.as_slice(),
            self.current.lines.as_slice(),
            cancellation,
        )?;
        let cells: u64 = comparison_cells(
            lines.len() - prefix - suffix,
            self.current.lines.len() - prefix - suffix,
        )?;
        self.older =
        Some(
            OlderVersion {
                oid: parent_oid,
                commit,
                version: OpenVersion { blob: blob.metadata.oid, bytes: blob.bytes, lines },
                prefix,
                suffix,
            },
        );
        proof {
            assert forall|store: Map<ObjectId, Commit>| #[trigger]
                crate::replies::agrees(self.read@, store) implies self.follows(store) by {
                assert(before.follows(store));
                let head = self.versions@[0].commit;
                let count = self.versions@.len();
                assert(ancestor(store, head, count) == Some(oid));
                assert(ancestor(store, head, count + 1) == next_parent);
            }
        }
        Ok(BlameStep::Compare { cells })
    }

    /// The commit of the older version that has to be compared.
    pub closed spec fn compared_commit(self) -> Option<Commit> {
        match self.older {
            Some(older) => Some(older.commit),
            None => None,
        }
    }

    /// Attribute every line that is still tracked to a commit.
    fn credit_all(&mut self, oid: ObjectId) -> (attributed: bool)
        requires
            old(self).origins@.len() == old(self).versions@[0].lines.len(),
            targets(old(self).finals@) == tracking(old(self).versions@, old(self).age()),
            chain(old(self).versions@),
        ensures
            *final(self) == (BlameWalk { origins: final(self).origins, ..*old(self) }),
            final(self).origins@.len() == old(self).origins@.len(),
            forall|line: int|
                0 <= line < old(self).origins@.len() ==> #[trigger] final(self).origins@[line]
                    == (if tracks(tracking(old(self).versions@, old(self).age()), line) {
                    oid
                } else {
                    old(self).origins@[line]
                }),
            attributed == (exists|line: int|
                0 <= line < old(self).origins@.len() && tracks(
                    tracking(old(self).versions@, old(self).age()),
                    line,
                )),
    {
        let ghost before = *self;
        let ghost track = tracking(before.versions@, before.age());
        let mut attributed = false;
        let mut at: usize = 0;
        proof {
            tracked_lines_are_equal(before.versions@, before.age());
        }
        while at < self.finals.len()
            invariant
                *self == (BlameWalk { origins: self.origins, ..before }),
                at <= self.finals@.len(),
                track == targets(before.finals@),
                self.origins@.len() == before.origins@.len(),
                forall|i: int|
                    0 <= i < track.len() && (#[trigger] track[i]) is Some ==> 0 <= track[i]->0
                        < before.origins@.len(),
                forall|line: int|
                    0 <= line < before.origins@.len() ==> #[trigger] self.origins@[line] == (
                    if exists|i: int| 0 <= i < at && #[trigger] track[i] == Some(line) {
                        oid
                    } else {
                        before.origins@[line]
                    }),
                attributed == (exists|i: int| 0 <= i < at && (#[trigger] track[i]) is Some),
            decreases before.finals@.len() - at,
        {
            proof {
                assert(track[at as int] == target(self.finals@[at as int]));
            }
            let ghost earlier = self.origins@;
            if let Some(line) = self.finals[at] {
                self.origins[line] = oid;
                attributed = true;
                assert(track[at as int] == Some(line as int));
            }
            at += 1;
            proof {
                assert forall|line: int| 0 <= line < before.origins@.len() implies
                    #[trigger] self.origins@[line] == (if exists|i: int|
                    0 <= i < at && #[trigger] track[i] == Some(line) {
                    oid
                } else {
                    before.origins@[line]
                }) by {
                    let _ = earlier[line];
                    if track[at - 1] == Some(line) {
                        assert(self.origins@[line] == oid);
                    } else {
                        assert(self.origins@[line] == earlier[line]);
                    }
                }
            }
        }
        proof {
            assert forall|line: int| 0 <= line < before.origins@.len() implies
                #[trigger] self.origins@[line] == (if tracks(track, line) {
                oid
            } else {
                before.origins@[line]
            }) by {}
            if attributed {
                let i = choose|i: int| 0 <= i < track.len() && (#[trigger] track[i]) is Some;
                assert(tracks(track, track[i]->0));
            }
        }
        attributed
    }
}

/// Whether no line is tracked any more.
fn none_tracked(finals: &Vec<Option<usize>>) -> (result: bool)
    ensures
        result == (forall|i: int| 0 <= i < finals@.len() ==> (#[trigger] finals@[i]) is None),
{
    let mut at: usize = 0;
    while at < finals.len()
        invariant
            at <= finals@.len(),
            forall|i: int| 0 <= i < at ==> (#[trigger] finals@[i]) is None,
        decreases finals@.len() - at,
    {
        if finals[at].is_some() {
            return false;
        }
        at += 1;
    }
    true
}

/// Carry tracked lines over to an older version, and credit the older commit
/// with every line that it still has.
fn carry_lines(
    origins: &mut Vec<ObjectId>,
    finals: &Vec<Option<usize>>,
    pairs: &Vec<(usize, usize)>,
    older_lines: usize,
    oid: ObjectId,
) -> (result: Result<(Vec<Option<usize>>, bool), Error>)
    requires
        forall|k: int|
            0 <= k < pairs@.len() ==> (#[trigger] pairs@[k]).0 < older_lines && pairs@[k].1
                < finals@.len(),
        forall|i: int|
            0 <= i < finals@.len() && (#[trigger] finals@[i]) is Some ==> finals@[i]->0 < old(
                origins,
            )@.len(),
    ensures
        final(origins)@.len() == old(origins)@.len(),
        match result {
            Ok(carried_lines) => {
                let track = targets(finals@);
                let all = crate::lcs::pair_values(pairs@);
                &&& targets(carried_lines.0@) == carry(track, all, older_lines as nat)
                &&& forall|line: int|
                    0 <= line < old(origins)@.len() ==> #[trigger] final(origins)@[line] == (
                    if credited(track, all, line, all.len() as int) {
                        oid
                    } else {
                        old(origins)@[line]
                    })
                &&& carried_lines.1 == (exists|k: int|
                    0 <= k < all.len() && track[(#[trigger] all[k]).1] is Some)
            },
            Err(error) => crate::memory::refused_exactly::<Option<usize>>(older_lines, error),
        },
{
    let ghost before = origins@;
    let ghost track = targets(finals@);
    let ghost all = crate::lcs::pair_values(pairs@);
    let mut older: Vec<Option<usize>> = Vec::new();
    reserve_exact(&mut older, older_lines)?;
    let mut at: usize = 0;
    while at < older_lines
        invariant
            at <= older_lines,
            older@.len() == at,
            forall|i: int| 0 <= i < at ==> (#[trigger] older@[i]) is None,
        decreases older_lines - at,
    {
        older.push(None);
        at += 1;
    }
    let mut attributed = false;
    let mut k: usize = 0;
    while k < pairs.len()
        invariant
            k <= pairs@.len(),
            track == targets(finals@),
            all == crate::lcs::pair_values(pairs@),
            older@.len() == older_lines,
            origins@.len() == before.len(),
            forall|k: int|
                0 <= k < pairs@.len() ==> (#[trigger] pairs@[k]).0 < older_lines && pairs@[k].1
                    < finals@.len(),
            forall|i: int|
                0 <= i < finals@.len() && (#[trigger] finals@[i]) is Some ==> finals@[i]->0
                    < before.len(),
            forall|i: int|
                0 <= i < older_lines ==> target(#[trigger] older@[i]) == carried(
                    track,
                    all,
                    i,
                    k as int,
                ),
            forall|line: int|
                0 <= line < before.len() ==> #[trigger] origins@[line] == (if credited(
                    track,
                    all,
                    line,
                    k as int,
                ) {
                    oid
                } else {
                    before[line]
                }),
            attributed == (exists|j: int| 0 <= j < k && track[(#[trigger] all[j]).1] is Some),
        decreases pairs@.len() - k,
    {
        let (older_line, newer_line) = pairs[k];
        proof {
            assert(all[k as int] == (older_line as int, newer_line as int));
            assert(track[newer_line as int] == target(finals@[newer_line as int]));
        }
        let ghost earlier_older = older@;
        let ghost earlier_origins = origins@;
        if let Some(line) = finals[newer_line] {
            origins[line] = oid;
            older[older_line] = Some(line);
            attributed = true;
        }
        k += 1;
        proof {
            assert forall|i: int| 0 <= i < older_lines implies target(#[trigger] older@[i])
                == carried(track, all, i, k as int) by {
                let _ = earlier_older[i];
            }
            assert forall|line: int| 0 <= line < before.len() implies #[trigger] origins@[line]
                == (if credited(track, all, line, k as int) {
                oid
            } else {
                before[line]
            }) by {
                let _ = earlier_origins[line];
            }
            if attributed {
                if track[all[k - 1].1] is Some {
                } else {
                    let j = choose|j: int| 0 <= j < k - 1 && track[(#[trigger] all[j]).1] is Some;
                    assert(track[all[j].1] is Some);
                }
            }
        }
    }
    assert(targets(older@) =~= carry(track, all, older_lines as nat));
    Ok((older, attributed))
}

/// The size charged for returning ranges of attributed lines.
pub open spec fn range_bytes(ranges: Seq<BlameRange>) -> int
    decreases ranges.len(),
{
    if ranges.len() == 0 {
        0
    } else {
        range_bytes(ranges.drop_last()) + crate::memory::clamp_usize(
            ranges.last().commit@.response_bytes(),
        ) + ranges.last().source_path@.len() + vstd::layout::size_of::<BlameRange>()
    }
}

/// An attribution is charged for each range its commit, the path there and its fixed
/// part.
pub proof fn what_an_attribution_is_charged(ranges: Seq<BlameRange>, range: BlameRange)
    ensures
        range_bytes(Seq::empty()) == 0,
        range_bytes(ranges.push(range)) == range_bytes(ranges) + crate::memory::clamp_usize(
            range.commit@.response_bytes(),
        ) + range.source_path@.len() + vstd::layout::size_of::<BlameRange>(),
{
    assert(ranges.push(range).drop_last() =~= ranges);
}

/// The response size of a file's attribution, as far as it can be counted.
pub fn blame_response_bytes(blame: &Blame) -> (result: u64)
    ensures
        result == crate::memory::clamp_u64(blame.path@.len() + range_bytes(blame.ranges@)),
{
    let mut total: u64 = blame.path.as_bytes().len() as u64;
    let mut at: usize = 0;
    assert(blame.ranges@.subrange(0, 0) =~= Seq::empty());
    while at < blame.ranges.len()
        invariant
            at <= blame.ranges@.len(),
            range_bytes(blame.ranges@.subrange(0, at as int)) >= 0,
            total == crate::memory::clamp_u64(
                blame.path@.len() + range_bytes(blame.ranges@.subrange(0, at as int)),
            ),
        decreases blame.ranges@.len() - at,
    {
        let range = &blame.ranges[at];
        proof {
            assert(blame.ranges@.subrange(0, at + 1).drop_last() =~= blame.ranges@.subrange(
                0,
                at as int,
            ));
        }
        total =
        total.saturating_add(commit_response_bytes(&range.commit)).saturating_add(
            range.source_path.as_bytes().len() as u64,
        ).saturating_add(core::mem::size_of::<BlameRange>() as u64);
        at += 1;
    }
    assert(blame.ranges@.subrange(0, at as int) =~= blame.ranges@);
    total
}

impl BlameWalk {
    /// Compare the older version that was handed back, and credit its commit with
    /// every line that it still has.
    pub fn attribute<W: Cancellation>(&mut self, cancellation: &W) -> (result: Result<(), Error>)
        requires
            old(self).wf(),
            old(self).compared() is Some,
        ensures
            match result {
                Ok(()) => {
                    let older = old(self).compared()->0;
                    let versions = old(self).versions().push(
                        Version { commit: older.0, lines: older.1, unchanged: false },
                    );
                    let track = tracking(versions, (versions.len() - 1) as nat);
                    let kept = exists|i: int| 0 <= i < track.len() && (#[trigger] track[i]) is Some;
                    &&& final(self).wf()
                    &&& final(self).versions() == versions
                    &&& final(self).read() == old(self).read()
                    &&& final(self).visited() == old(self).visited()
                    &&& final(self).awaiting() is None
                    &&& final(self).compared() is None
                    &&& final(self).parent() == old(self).parent()
                    &&& final(self).ended() == !kept
                    &&& kept ==> final(self).blob() == old(self).compared_blob()->0
                    &&& final(self).commits() == (if kept {
                        old(self).commits().insert(older.0, old(self).compared_commit()->0)
                    } else {
                        old(self).commits()
                    })
                },
                Err(error) => {
                    let (_, older) = old(self).compared()->0;
                    let newer = old(self).versions().last().lines;
                    let ends = crate::lcs::shared_ends(older, newer);
                    ||| crate::lcs::matches_refused(
                        older,
                        newer,
                        ends.0,
                        ends.1,
                        cancellation,
                        error,
                    )
                    ||| {
                        &&& crate::cancel::passed_by(cancellation)
                        &&& crate::lcs::room_for_cells(older, newer, ends.0, ends.1)
                        &&& crate::memory::refused_exactly::<Option<usize>>(
                            older.len() as usize,
                            error,
                        )
                    }
                },
            },
    {
        let ghost before = *self;
        let older = match self.older.take() {
            Some(older) => older,
            None => {
                assert(false);
                return Ok(());
            },
        };
        let ghost older_lines = older.version.content();
        let ghost newer_lines = before.current.content();
        let ghost all = attribution_matches(older_lines, newer_lines);
        proof {
            lemma_matches_shape(older_lines, newer_lines);
            crate::lcs::shared_ends_give_a_longest_matching(older_lines, newer_lines);
            assert(older_lines.len() == older.version.lines@.len());
            assert(newer_lines.len() == before.current.lines@.len());
            let ends = crate::lcs::shared_ends(older_lines, newer_lines);
            let rows = crate::lcs::middle(older_lines, ends.0, ends.1).len() + 1;
            let columns = crate::lcs::middle(newer_lines, ends.0, ends.1).len() + 1;
            assert(rows == older_lines.len() - ends.0 - ends.1 + 1);
            assert(columns == newer_lines.len() - ends.0 - ends.1 + 1);
            assert(rows * columns == cells_between(older_lines, newer_lines));
        }
        let pairs = lcs_matches(
            older.version.bytes.as_slice(),
            older.version.lines.as_slice(),
            self.current.bytes.as_slice(),
            self.current.lines.as_slice(),
            older.prefix,
            older.suffix,
            cancellation,
        )?;
        let ghost track = tracking(before.versions@, before.age());
        proof {
            assert(crate::lcs::pair_values(pairs@) == all);
            tracked_lines_are_equal(before.versions@, before.age());
            assert forall|k: int| 0 <= k < pairs@.len() implies (#[trigger] pairs@[k]).0
                < older.version.lines@.len() && pairs@[k].1 < before.finals@.len() by {
                assert(all[k] == (pairs@[k].0 as int, pairs@[k].1 as int));
            }
            assert forall|i: int|
                0 <= i < before.finals@.len() && (#[trigger] before.finals@[i]) is Some implies
                before.finals@[i]->0 < before.origins@.len() by {
                assert(track[i] == target(before.finals@[i]));
            }
        }
        let (finals, attributed) = carry_lines(
            &mut self.origins,
            &self.finals,
            &pairs,
            older.version.lines.len(),
            older.oid,
        )?;
        if attributed {
            self.commits.insert(older.oid, older.commit);
        }
        let nothing_left = none_tracked(&finals);
        let ghost added = Version { commit: older.oid, lines: older_lines, unchanged: false };
        let ghost versions = before.versions@.push(added);
        proof {
            lemma_versions_grow(before.versions@, added, before.age());
            assert(tracking(versions, (versions.len() - 1) as nat) == carry(
                track,
                all,
                older_lines.len(),
            ));
            let older_track = carry(track, all, older_lines.len());
            assert forall|i: int| 0 <= i < finals@.len() implies target(#[trigger] finals@[i])
                == older_track[i] by {
                assert(targets(finals@)[i] == target(finals@[i]));
            }
            assert forall|line: int| 0 <= line < self.origins@.len() implies
                #[trigger] self.origins@[line] == origin(
                versions,
                (versions.len() - 1) as nat,
                line,
            ) by {
                lemma_tracks_are_credited(track, all, older_lines.len(), line);
                lemma_origins_grow(before.versions@, added, before.age(), line);
                let _ = before.origins@[line];
            }
            if nothing_left {
                assert forall|i: int| 0 <= i < older_track.len() implies (
                #[trigger] older_track[i]) is None by {
                    assert(finals@[i] is None);
                }
            } else {
                let i = choose|i: int| 0 <= i < finals@.len() && (#[trigger] finals@[i]) is Some;
                assert(older_track[i] is Some);
            }
            assert(attributed == !nothing_left) by {
                if attributed {
                    let k = choose|k: int| 0 <= k < all.len() && track[(#[trigger] all[k]).1] is Some;
                    let line = track[all[k].1]->0;
                    lemma_credited(track, all, line, all.len() as int);
                    lemma_tracks_are_credited(track, all, older_lines.len(), line);
                    assert(tracks(older_track, line));
                    let i = choose|i: int|
                        0 <= i < older_track.len() && #[trigger] older_track[i] == Some(line);
                    assert(finals@[i] is Some);
                }
                if !nothing_left {
                    let i = choose|i: int| 0 <= i < finals@.len() && (#[trigger] finals@[i]) is Some;
                    lemma_carried(track, all, i, all.len() as int);
                    assert(older_track[i] is Some);
                    let line = older_track[i]->0;
                    let k = choose|k: int|
                        0 <= k < all.len() && (#[trigger] all[k]).0 == i && track[all[k].1] == Some(
                            line,
                        );
                    assert(track[all[k].1] is Some);
                }
            }
            assert forall|line: int| 0 <= line < self.origins@.len() implies
                self.commits.contents().dom().contains(#[trigger] self.origins@[line]) by {
                let _ = before.origins@[line];
                lemma_credited(track, all, line, all.len() as int);
            }
            assert(chain(versions));
        }
        self.versions = Ghost(versions);
        if nothing_left {
            self.ended = true;
        } else {
            self.current = older.version;
            self.finals = finals;
        }
        proof {
            assert forall|store: Map<ObjectId, Commit>| #[trigger]
                crate::replies::agrees(self.read@, store) implies self.follows(store) by {
                assert(before.follows(store));
                let head = versions[0].commit;
                assert forall|i: nat| i < versions.len() implies #[trigger] ancestor(
                    store,
                    head,
                    i,
                ) == Some(versions[i as int].commit) by {
                    if i < before.versions@.len() {
                        assert(versions[i as int] == before.versions@[i as int]);
                    }
                }
            }
        }
        Ok(())
    }

    /// The blob of the older version that has to be compared.
    pub closed spec fn compared_blob(self) -> Option<ObjectId> {
        match self.older {
            Some(older) => Some(older.version.blob),
            None => None,
        }
    }

    /// The origin of every line of the newest version.
    pub open spec fn attribution(self) -> Seq<ObjectId> {
        Seq::new(
            self.versions()[0].lines.len(),
            |line: int| origin(self.versions(), self.age(), line),
        )
    }

    /// Nothing is left that could change the result: the file or the chain of first
    /// parents has ended, or no line is left to attribute.
    pub open spec fn finished(self) -> bool {
        &&& self.compared() is None
        &&& self.awaiting() is None
        &&& self.ended() || self.parent() is None
    }

    /// The versions walked are those of the newest commit and of its first parents, one
    /// after another, in every store that agrees with the commits read.
    pub proof fn versions_follow_first_parents(self, store: Map<ObjectId, Commit>)
        requires
            self.wf(),
            crate::replies::agrees(self.read(), store),
        ensures
            forall|i: nat|
                i < self.versions().len() ==> #[trigger] ancestor(
                    store,
                    self.versions()[0].commit,
                    i,
                ) == Some(self.versions()[i as int].commit),
    {
        assert(self.follows(store));
    }

    /// Each version walked is that of the first parent recorded by the commit of the
    /// version before it, and a walk that ran out of commits ended at one without parents.
    pub proof fn each_version_is_of_the_first_parent(self, store: Map<ObjectId, Commit>)
        requires
            self.wf(),
            crate::replies::agrees(self.read(), store),
        ensures
            forall|i: int|
                0 <= i < self.versions().len() - 1 ==> store[(
                #[trigger] self.versions()[i]).commit].parents@.len() > 0,
            forall|i: int, j: int|
                0 <= i && j == i + 1 && j < self.versions().len() ==> (
                #[trigger] self.versions()[j]).commit == store[(
                #[trigger] self.versions()[i]).commit].parents@[0],
            self.finished() && !self.ended() ==> store[self.versions().last().commit].parents@.len()
                == 0,
    {
        self.versions_follow_first_parents(store);
        if self.finished() && !self.ended() {
            self.lemma_nothing_follows(store);
        }
        let all = self.versions();
        assert forall|i: int| 0 <= i < all.len() - 1 implies store[(
        #[trigger] all[i]).commit].parents@.len() > 0 by {
            lemma_first_parents(store, all, i);
        }
        assert forall|i: int, j: int| 0 <= i && j == i + 1 && j < all.len() implies (
        #[trigger] all[j]).commit == store[(#[trigger] all[i]).commit].parents@[0] by {
            lemma_first_parents(store, all, i);
        }
        if self.finished() && !self.ended() {
            lemma_first_parents(store, all, all.len() - 1);
        }
    }

    proof fn lemma_nothing_follows(self, store: Map<ObjectId, Commit>)
        requires
            self.wf(),
            crate::replies::agrees(self.read(), store),
            self.finished(),
            !self.ended(),
        ensures
            self.versions().len() > 0,
            ancestor(store, self.versions()[0].commit, self.versions().len()) is None,
    {
        assert(self.follows(store));
    }

    /// Every line is attributed to a commit that first parents lead to from the newest
    /// one.
    pub proof fn attributed_commits_are_first_parents(
        self,
        store: Map<ObjectId, Commit>,
        line: int,
    ) -> (steps: nat)
        requires
            self.wf(),
            crate::replies::agrees(self.read(), store),
            0 <= line < self.attribution().len(),
        ensures
            steps < self.versions().len(),
            ancestor(store, self.versions()[0].commit, steps) == Some(self.attribution()[line]),
    {
        self.versions_follow_first_parents(store);
        lemma_origin_is_a_version(self.versions(), self.age(), line)
    }

    /// Group the attributed lines into ranges.
    pub fn into_blame<W: Cancellation>(
        self,
        head: ObjectId,
        path: &GitPath,
        cancellation: &W,
    ) -> (result: Result<Blame, Error>)
        requires
            self.wf(),
            self.finished(),
        ensures
            match result {
                Ok(blame) => {
                    &&& blame.commit == head
                    &&& blame.path@ == path@
                    &&& runs_cover(
                        blame.ranges@,
                        path@,
                        self.attribution(),
                        self.commits(),
                        self.attribution().len() as int,
                    )
                },
                Err(error) => {
                    ||| crate::cancel::stopped_by(cancellation, error) && self.attribution().len()
                        > 0
                    ||| no_room_for_range(path@, self.attribution(), self.commits(), error)
                },
            },
    {
        assert(self.origins@ =~= self.attribution());
        let ranges = blame_ranges(path, self.origins.as_slice(), &self.commits, cancellation)?;
        Ok(Blame { commit: head, path: path.duplicate(), ranges })
    }
}

proof fn lemma_next_ancestor(
    store: Map<ObjectId, Commit>,
    head: ObjectId,
    steps: nat,
    child: ObjectId,
)
    requires
        ancestor(store, head, steps) == Some(child),
    ensures
        ancestor(store, head, steps + 1) == (if store[child].parents@.len() > 0 {
            Some(store[child].parents@[0])
        } else {
            None
        }),
{
}

proof fn lemma_first_parents(store: Map<ObjectId, Commit>, versions: Seq<Version>, at: int)
    requires
        0 <= at < versions.len(),
        forall|i: nat|
            i < versions.len() ==> #[trigger] ancestor(store, versions[0].commit, i) == Some(
                versions[i as int].commit,
            ),
    ensures
        at + 1 < versions.len() ==> store[versions[at].commit].parents@.len() > 0
            && versions[at + 1].commit == store[versions[at].commit].parents@[0],
        ancestor(store, versions[0].commit, (at + 1) as nat) is None
            ==> store[versions[at].commit].parents@.len() == 0,
{
    let head = versions[0].commit;
    assert(ancestor(store, head, at as nat) == Some(versions[at].commit));
    lemma_next_ancestor(store, head, at as nat, versions[at].commit);
    if at + 1 < versions.len() {
        assert(ancestor(store, head, (at + 1) as nat) == Some(versions[at + 1].commit));
    }
}

proof fn lemma_origin_is_a_version(versions: Seq<Version>, age: nat, line: int) -> (at: nat)
    requires
        age < versions.len(),
    ensures
        at <= age,
        versions[at as int].commit == origin(versions, age, line),
    decreases age,
{
    if age > 0 && tracks(tracking(versions, age), line) {
        age
    } else if age > 0 {
        lemma_origin_is_a_version(versions, (age - 1) as nat, line)
    } else {
        0
    }
}

/// Adding an older version changes nothing of what newer ones track.
proof fn lemma_versions_grow(versions: Seq<Version>, added: Version, age: nat)
    requires
        age < versions.len(),
    ensures
        tracking(versions.push(added), age) == tracking(versions, age),
    decreases age,
{
    if age > 0 {
        lemma_versions_grow(versions, added, (age - 1) as nat);
    }
}

proof fn lemma_origins_grow(versions: Seq<Version>, added: Version, age: nat, line: int)
    requires
        age < versions.len(),
    ensures
        origin(versions.push(added), age, line) == origin(versions, age, line),
    decreases age,
{
    lemma_versions_grow(versions, added, age);
    if age > 0 {
        lemma_origins_grow(versions, added, (age - 1) as nat, line);
    }
}

} // verus!
