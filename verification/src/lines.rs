use vstd::prelude::*;
use std::ops::Range;

use crate::cancel::{Cancellation, check_cpu_cancellation, CPU_CANCELLATION_INTERVAL};
use crate::error::Error;
use crate::memory::reserve_exact;

verus! {

/// The byte that ends a line.
pub const NEWLINE: u8 = 10;

/// Where the line that is open after the first `end` bytes begins.
pub open spec fn open_start(bytes: Seq<u8>, end: int) -> int
    decreases end,
{
    if end <= 0 {
        0
    } else if bytes[end - 1] == NEWLINE {
        end
    } else {
        open_start(bytes, end - 1)
    }
}

/// The spans of the lines that are terminated within the first `end` bytes.
pub open spec fn closed_spans(bytes: Seq<u8>, end: int) -> Seq<(int, int)>
    decreases end,
{
    if end <= 0 {
        Seq::empty()
    } else if bytes[end - 1] == NEWLINE {
        closed_spans(bytes, end - 1).push((open_start(bytes, end - 1), end))
    } else {
        closed_spans(bytes, end - 1)
    }
}

/// The spans of all lines: each with its terminator, and a last one without.
pub open spec fn line_spans(bytes: Seq<u8>) -> Seq<(int, int)> {
    let end = bytes.len() as int;
    if open_start(bytes, end) < end {
        closed_spans(bytes, end).push((open_start(bytes, end), end))
    } else {
        closed_spans(bytes, end)
    }
}

/// The span that a range of indices covers.
pub open spec fn span(range: Range<usize>) -> (int, int) {
    (range.start as int, range.end as int)
}

/// The spans that a list of ranges covers.
pub open spec fn spans(ranges: Seq<Range<usize>>) -> Seq<(int, int)> {
    ranges.map_values(|range: Range<usize>| span(range))
}

/// The bytes of the lines that a list of ranges selects.
pub open spec fn lines_at(bytes: Seq<u8>, ranges: Seq<Range<usize>>) -> Seq<Seq<u8>> {
    ranges.map_values(|range: Range<usize>| bytes.subrange(range.start as int, range.end as int))
}

/// Every range lies within the bytes.
pub open spec fn ranges_within(bytes: Seq<u8>, ranges: Seq<Range<usize>>) -> bool {
    forall|i: int|
        0 <= i < ranges.len() ==> (#[trigger] ranges[i]).start <= ranges[i].end
            && ranges[i].end <= bytes.len()
}

/// The lines of a file, each with its terminator.
pub open spec fn lines_of(bytes: Seq<u8>) -> Seq<Seq<u8>> {
    line_spans(bytes).map_values(|at: (int, int)| bytes.subrange(at.0, at.1))
}

proof fn lemma_closed_count(bytes: Seq<u8>, end: int)
    requires
        0 <= end <= bytes.len(),
    ensures
        closed_spans(bytes, end).len() <= end,
        0 <= open_start(bytes, end) <= end,
        open_start(bytes, end) < end ==> closed_spans(bytes, end).len() < end,
        end > 0 ==> (open_start(bytes, end) == end <==> bytes[end - 1] == NEWLINE),
    decreases end,
{
    if end > 0 {
        lemma_closed_count(bytes, end - 1);
    }
}

/// Lines tile a file: the first begins at its first byte, each begins where the
/// one before it ends, the last ends with the file, none is empty, and a
/// terminator stands nowhere but at the end of a line, where only the last line
/// may lack it.
pub proof fn lines_tile_the_file(bytes: Seq<u8>)
    ensures
        ({
            let all = line_spans(bytes);
            &&& all.len() == 0 <==> bytes.len() == 0
            &&& all.len() > 0 ==> all[0].0 == 0 && all.last().1 == bytes.len()
            &&& forall|i: int|
                0 <= i < all.len() ==> 0 <= (#[trigger] all[i]).0 < all[i].1 <= bytes.len()
            &&& forall|i: int| 0 < i < all.len() ==> (#[trigger] all[i]).0 == all[i - 1].1
            &&& forall|i: int, at: int|
                0 <= i < all.len() && (#[trigger] all[i]).0 <= at < all[i].1 - 1
                    ==> #[trigger] bytes[at] != NEWLINE
            &&& forall|i: int|
                0 <= i < all.len() - 1 ==> bytes[(#[trigger] all[i]).1 - 1] == NEWLINE
        }),
{
    lemma_closed_tile(bytes, bytes.len() as int);
    lemma_closed_count(bytes, bytes.len() as int);
}

/// A file has at most as many lines as bytes.
pub proof fn lines_are_no_more_than_bytes(bytes: Seq<u8>)
    ensures
        lines_of(bytes).len() == line_spans(bytes).len(),
        lines_of(bytes).len() <= bytes.len(),
{
    lemma_closed_count(bytes, bytes.len() as int);
}

/// The lines of a file, one behind the other, are the file; none is empty, and each ends
/// at its first terminator, which only the last may lack.
pub proof fn lines_join_to_the_file(bytes: Seq<u8>)
    ensures
        lines_of(bytes).flatten() == bytes,
        forall|i: int|
            0 <= i < lines_of(bytes).len() ==> {
                let line = #[trigger] lines_of(bytes)[i];
                &&& line.len() > 0
                &&& forall|at: int| 0 <= at < line.len() - 1 ==> #[trigger] line[at] != 10
                &&& i < lines_of(bytes).len() - 1 ==> line.last() == 10
            },
{
    let all = line_spans(bytes);
    let lines = lines_of(bytes);
    lines_tile_the_file(bytes);
    assert forall|i: int| 0 <= i < lines.len() implies ({
        let line = #[trigger] lines[i];
        &&& line.len() > 0
        &&& forall|at: int| 0 <= at < line.len() - 1 ==> #[trigger] line[at] != 10
        &&& i < lines.len() - 1 ==> line.last() == 10
    }) by {
        let line = lines[i];
        assert(line == bytes.subrange(all[i].0, all[i].1));
        assert forall|at: int| 0 <= at < line.len() - 1 implies #[trigger] line[at] != 10 by {
            assert(bytes[all[i].0 + at] != NEWLINE);
        }
    }
    lemma_joined(bytes, all, all.len() as int);
    assert(lines.subrange(0, lines.len() as int) =~= lines);
    if all.len() > 0 {
        assert(bytes.subrange(0, bytes.len() as int) =~= bytes);
    } else {
        assert(lines.flatten() =~= bytes);
    }
}

proof fn lemma_joined(bytes: Seq<u8>, all: Seq<(int, int)>, count: int)
    requires
        0 <= count <= all.len(),
        all == line_spans(bytes),
        all.len() > 0 ==> all[0].0 == 0,
        forall|i: int| 0 <= i < all.len() ==> 0 <= (#[trigger] all[i]).0 < all[i].1 <= bytes.len(),
        forall|i: int| 0 < i < all.len() ==> (#[trigger] all[i]).0 == all[i - 1].1,
    ensures
        lines_of(bytes).subrange(0, count).flatten() == bytes.subrange(
            0,
            if count > 0 {
                all[count - 1].1
            } else {
                0
            },
        ),
    decreases count,
{
    let lines = lines_of(bytes);
    if count > 0 {
        lemma_joined(bytes, all, count - 1);
        let some = lines.subrange(0, count);
        assert(some.drop_last() =~= lines.subrange(0, count - 1));
        assert(some.last() == bytes.subrange(all[count - 1].0, all[count - 1].1));
        some.lemma_flatten_and_flatten_alt_are_equivalent();
        some.drop_last().lemma_flatten_and_flatten_alt_are_equivalent();
        assert(some.flatten() == some.drop_last().flatten() + some.last());
        assert(some.flatten() =~= bytes.subrange(0, all[count - 1].1));
    } else {
        assert(lines.subrange(0, 0).flatten() =~= Seq::empty());
    }
}

pub open spec fn tiles(bytes: Seq<u8>, all: Seq<(int, int)>, end: int) -> bool {
    &&& all.len() > 0 ==> all[0].0 == 0
    &&& (if all.len() > 0 {
        all.last().1
    } else {
        0
    }) == end
    &&& forall|i: int| 0 <= i < all.len() ==> 0 <= (#[trigger] all[i]).0 < all[i].1 <= end
    &&& forall|i: int| 0 < i < all.len() ==> (#[trigger] all[i]).0 == all[i - 1].1
    &&& forall|i: int, at: int|
        0 <= i < all.len() && (#[trigger] all[i]).0 <= at < all[i].1 - 1
            ==> #[trigger] bytes[at] != NEWLINE
    &&& forall|i: int| 0 <= i < all.len() ==> bytes[(#[trigger] all[i]).1 - 1] == NEWLINE
}

proof fn lemma_closed_tile(bytes: Seq<u8>, end: int)
    requires
        0 <= end <= bytes.len(),
    ensures
        tiles(bytes, closed_spans(bytes, end), open_start(bytes, end)),
        0 <= open_start(bytes, end) <= end,
        forall|at: int| open_start(bytes, end) <= at < end ==> #[trigger] bytes[at] != NEWLINE,
    decreases end,
{
    if end > 0 {
        lemma_closed_tile(bytes, end - 1);
    }
}

/// Count the lines of a file.
///
/// The token is looked at once for every stretch of
/// [`CPU_CANCELLATION_INTERVAL`] bytes; an empty file needs no look.
pub fn line_count<W: Cancellation>(bytes: &[u8], cancellation: &W) -> (result: Result<usize, Error>)
    ensures
        match result {
            Ok(lines) => lines == line_spans(bytes@).len(),
            Err(error) => crate::cancel::stopped_by(cancellation, error) && bytes@.len() > 0,
        },
        result is Ok && bytes@.len() > 0 ==> crate::cancel::passed_by(cancellation),
{
    let mut lines: usize = 0;
    let mut position: usize = 0;
    while position < bytes.len()
        invariant
            position <= bytes.len(),
            lines == closed_spans(bytes@, position as int).len(),
            position > 0 ==> crate::cancel::passed_by(cancellation),
        decreases bytes.len() - position,
    {
        if position % CPU_CANCELLATION_INTERVAL == 0 {
            check_cpu_cancellation(cancellation)?;
        }
        proof {
            lemma_closed_count(bytes@, position as int);
        }
        if bytes[position] == NEWLINE {
            lines += 1;
        }
        position += 1;
    }
    proof {
        lemma_closed_count(bytes@, position as int);
    }
    if bytes.len() > 0 && bytes[bytes.len() - 1] != NEWLINE {
        lines += 1;
    }
    Ok(lines)
}

/// Why the lines of a file could not be listed: the token is looked at first, then
/// room is asked for, and the number of lines shows only at the end.
pub open spec fn ranges_refused<W: Cancellation>(
    bytes: Seq<u8>,
    expected: usize,
    cancellation: &W,
    error: Error,
) -> bool {
    ||| crate::cancel::stopped_by(cancellation, error)
    ||| crate::cancel::passed_by(cancellation) && crate::memory::refused_exactly::<Range<usize>>(
        expected,
        error,
    )
    ||| {
        &&& crate::cancel::passed_by(cancellation)
        &&& crate::memory::granted_exactly::<Range<usize>>(expected)
        &&& expected != line_spans(bytes).len()
        &&& error == (Error::InternalInvariant {
            invariant: "line count changed while building ranges",
        })
    }
}

/// The ranges of a file's lines are refused only where the work was cancelled, where there
/// was no memory for them, or where the lines were counted wrong.
pub proof fn when_ranges_are_refused<W: Cancellation>(
    bytes: Seq<u8>,
    expected: usize,
    cancellation: &W,
    error: Error,
)
    requires
        ranges_refused(bytes, expected, cancellation, error),
    ensures
        match error {
            Error::Cancelled => cancellation.may_answer(true),
            Error::Allocation { .. } => expected > 0 && cancellation.may_answer(false),
            Error::InternalInvariant { .. } => expected != lines_of(bytes).len(),
            _ => false,
        },
{
}

/// The range of every line of a file, whose number the caller has counted.
pub fn line_ranges<W: Cancellation>(bytes: &[u8], expected: usize, cancellation: &W) -> (result:
    Result<Vec<Range<usize>>, Error>)
    ensures
        match result {
            Ok(ranges) => {
                &&& spans(ranges@) == line_spans(bytes@)
                &&& ranges@.len() == expected
                &&& ranges_within(bytes@, ranges@)
                &&& crate::cancel::passed_by(cancellation)
                &&& crate::memory::granted_exactly::<Range<usize>>(expected)
            },
            Err(error) => ranges_refused(bytes@, expected, cancellation, error),
        },
{
    check_cpu_cancellation(cancellation)?;
    let mut start: usize = 0;
    let mut ranges: Vec<Range<usize>> = Vec::new();
    reserve_exact(&mut ranges, expected)?;
    let mut position: usize = 0;
    while position < bytes.len()
        invariant
            position <= bytes.len(),
            crate::cancel::passed_by(cancellation),
            crate::memory::granted_exactly::<Range<usize>>(expected),
            start == open_start(bytes@, position as int),
            start <= position,
            spans(ranges@) == closed_spans(bytes@, position as int),
            ranges_within(bytes@, ranges@),
        decreases bytes.len() - position,
    {
        if position % CPU_CANCELLATION_INTERVAL == 0 {
            check_cpu_cancellation(cancellation)?;
        }
        if bytes[position] == NEWLINE {
            let ghost before = ranges@;
            ranges.push(start..position + 1);
            assert(spans(ranges@) =~= spans(before).push((start as int, position + 1)));
            start = position + 1;
        }
        position += 1;
    }
    if start < bytes.len() {
        let ghost before = ranges@;
        ranges.push(start..bytes.len());
        assert(spans(ranges@) =~= spans(before).push((start as int, bytes@.len() as int)));
    }
    assert(spans(ranges@).len() == ranges@.len());
    if ranges.len() != expected {
        return Err(
            Error::InternalInvariant { invariant: "line count changed while building ranges" },
        );
    }
    Ok(ranges)
}

/// The lines of a file, each behind the same one-byte prefix.
pub open spec fn prefixed_lines(prefix: u8, bytes: Seq<u8>) -> Seq<u8> {
    prefixed_spans(prefix, bytes, line_spans(bytes))
}

/// The given spans of a file, each behind the same one-byte prefix.
pub open spec fn prefixed_spans(prefix: u8, bytes: Seq<u8>, all: Seq<(int, int)>) -> Seq<u8>
    decreases all.len(),
{
    if all.len() == 0 {
        Seq::empty()
    } else {
        prefixed_spans(prefix, bytes, all.drop_last()).push(prefix) + bytes.subrange(
            all.last().0,
            all.last().1,
        )
    }
}

/// Append bytes to a buffer.
pub fn append_bytes(output: &mut Vec<u8>, bytes: &[u8])
    ensures
        final(output)@ == old(output)@ + bytes@,
{
    output.extend_from_slice(bytes);
    assert(output@ =~= old(output)@ + bytes@);
}

/// Append every line of a file behind a prefix.
pub fn append_diff_lines<W: Cancellation>(
    output: &mut Vec<u8>,
    prefix: u8,
    bytes: &[u8],
    cancellation: &W,
) -> (result: Result<(), Error>)
    ensures
        match result {
            Ok(()) => final(output)@ == old(output)@ + prefixed_lines(prefix, bytes@),
            Err(error) => crate::cancel::stopped_by(cancellation, error) && bytes@.len() > 0,
        },
        result is Ok && bytes@.len() > 0 ==> crate::cancel::passed_by(cancellation),
{
    let ghost initial = output@;
    let mut start: usize = 0;
    let mut position: usize = 0;
    assert(output@ =~= initial + prefixed_spans(prefix, bytes@, closed_spans(bytes@, 0)));
    while position < bytes.len()
        invariant
            position <= bytes.len(),
            position > 0 ==> crate::cancel::passed_by(cancellation),
            start == open_start(bytes@, position as int),
            start <= position,
            output@ == initial + prefixed_spans(
                prefix,
                bytes@,
                closed_spans(bytes@, position as int),
            ),
        decreases bytes.len() - position,
    {
        if position % CPU_CANCELLATION_INTERVAL == 0 {
            check_cpu_cancellation(cancellation)?;
        }
        if bytes[position] == NEWLINE {
            output.push(prefix);
            append_bytes(output, &bytes[start..position + 1]);
            proof {
                let all = closed_spans(bytes@, position as int);
                assert(all.push((start as int, position + 1)).drop_last() =~= all);
                assert(output@ =~= initial + prefixed_spans(
                    prefix,
                    bytes@,
                    closed_spans(bytes@, position + 1),
                ));
            }
            start = position + 1;
        }
        position += 1;
    }
    if start < bytes.len() {
        output.push(prefix);
        append_bytes(output, &bytes[start..bytes.len()]);
        proof {
            let all = closed_spans(bytes@, position as int);
            assert(all.push((start as int, bytes@.len() as int)).drop_last() =~= all);
            assert(output@ =~= initial + prefixed_lines(prefix, bytes@));
        }
    }
    Ok(())
}

} // verus!
