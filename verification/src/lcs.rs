use vstd::prelude::*;
use std::ops::Range;

use crate::cancel::{Cancellation, check_cpu_cancellation, CPU_CANCELLATION_INTERVAL};
use crate::error::Error;
use crate::memory::reserve_exact;

verus! {

/// The length of a longest common subsequence of the first `i` lines of one
/// file and the first `j` lines of another.
pub open spec fn lcs_len(a: Seq<Seq<u8>>, b: Seq<Seq<u8>>, i: nat, j: nat) -> nat
    decreases i + j,
{
    if i == 0 || j == 0 {
        0
    } else if a[i - 1] == b[j - 1] {
        lcs_len(a, b, (i - 1) as nat, (j - 1) as nat) + 1
    } else {
        let up = lcs_len(a, b, (i - 1) as nat, j);
        let left = lcs_len(a, b, i, (j - 1) as nat);
        if up >= left {
            up
        } else {
            left
        }
    }
}

/// The matching that prefers, among longest ones, to give up the last line of
/// the first file.
pub open spec fn lcs_trace(a: Seq<Seq<u8>>, b: Seq<Seq<u8>>, i: nat, j: nat) -> Seq<(int, int)>
    decreases i + j,
{
    if i == 0 || j == 0 {
        Seq::empty()
    } else if a[i - 1] == b[j - 1] {
        lcs_trace(a, b, (i - 1) as nat, (j - 1) as nat).push((i - 1, j - 1))
    } else if lcs_len(a, b, (i - 1) as nat, j) >= lcs_len(a, b, i, (j - 1) as nat) {
        lcs_trace(a, b, (i - 1) as nat, j)
    } else {
        lcs_trace(a, b, i, (j - 1) as nat)
    }
}

/// Pairs of equal lines, strictly increasing in both files.
pub open spec fn is_matching(
    a: Seq<Seq<u8>>,
    b: Seq<Seq<u8>>,
    pairs: Seq<(int, int)>,
    i: int,
    j: int,
) -> bool {
    &&& forall|k: int|
        0 <= k < pairs.len() ==> {
            &&& 0 <= (#[trigger] pairs[k]).0 < i
            &&& 0 <= pairs[k].1 < j
            &&& a[pairs[k].0] == b[pairs[k].1]
        }
    &&& forall|k: int, l: int|
        0 <= k < l < pairs.len() ==> (#[trigger] pairs[k]).0 < (#[trigger] pairs[l]).0
            && pairs[k].1 < pairs[l].1
}

/// The chosen matching is a matching of the longest length.
pub proof fn trace_is_a_longest_matching(a: Seq<Seq<u8>>, b: Seq<Seq<u8>>, i: nat, j: nat)
    requires
        i <= a.len(),
        j <= b.len(),
    ensures
        is_matching(a, b, lcs_trace(a, b, i, j), i as int, j as int),
        lcs_trace(a, b, i, j).len() == lcs_len(a, b, i, j),
        forall|pairs: Seq<(int, int)>|
            is_matching(a, b, pairs, i as int, j as int) ==> #[trigger] pairs.len() <= lcs_len(
                a,
                b,
                i,
                j,
            ),
    decreases i + j,
{
    lemma_trace(a, b, i, j);
    assert forall|pairs: Seq<(int, int)>|
        is_matching(a, b, pairs, i as int, j as int) implies #[trigger] pairs.len() <= lcs_len(
        a,
        b,
        i,
        j,
    ) by {
        lemma_longest(a, b, i, j, pairs);
    }
}

proof fn lemma_trace(a: Seq<Seq<u8>>, b: Seq<Seq<u8>>, i: nat, j: nat)
    ensures
        is_matching(a, b, lcs_trace(a, b, i, j), i as int, j as int),
        lcs_trace(a, b, i, j).len() == lcs_len(a, b, i, j),
    decreases i + j,
{
    if i == 0 || j == 0 {
    } else if a[i - 1] == b[j - 1] {
        lemma_trace(a, b, (i - 1) as nat, (j - 1) as nat);
    } else {
        lemma_trace(a, b, (i - 1) as nat, j);
        lemma_trace(a, b, i, (j - 1) as nat);
    }
}

proof fn lemma_lcs_step(a: Seq<Seq<u8>>, b: Seq<Seq<u8>>, i: nat, j: nat)
    ensures
        lcs_len(a, b, i, j) <= i,
        lcs_len(a, b, i, j) <= j,
        i > 0 ==> lcs_len(a, b, (i - 1) as nat, j) <= lcs_len(a, b, i, j) <= lcs_len(
            a,
            b,
            (i - 1) as nat,
            j,
        ) + 1,
        j > 0 ==> lcs_len(a, b, i, (j - 1) as nat) <= lcs_len(a, b, i, j) <= lcs_len(
            a,
            b,
            i,
            (j - 1) as nat,
        ) + 1,
    decreases i + j,
{
    if i > 0 {
        lemma_lcs_step(a, b, (i - 1) as nat, j);
    }
    if j > 0 {
        lemma_lcs_step(a, b, i, (j - 1) as nat);
    }
    if i > 0 && j > 0 {
        lemma_lcs_step(a, b, (i - 1) as nat, (j - 1) as nat);
    }
}

proof fn lemma_longest(a: Seq<Seq<u8>>, b: Seq<Seq<u8>>, i: nat, j: nat, pairs: Seq<(int, int)>)
    requires
        is_matching(a, b, pairs, i as int, j as int),
    ensures
        pairs.len() <= lcs_len(a, b, i, j),
    decreases i + j,
{
    if pairs.len() == 0 {
    } else if i == 0 || j == 0 {
        assert(0 <= pairs[0].0 < i && 0 <= pairs[0].1 < j);
    } else {
        let last = pairs.last();
        let rest = pairs.drop_last();
        if a[i - 1] == b[j - 1] {
            assert(is_matching(a, b, rest, i - 1, j - 1)) by {
                assert forall|k: int| 0 <= k < rest.len() implies {
                    &&& 0 <= (#[trigger] rest[k]).0 < i - 1
                    &&& 0 <= rest[k].1 < j - 1
                    &&& a[rest[k].0] == b[rest[k].1]
                } by {
                    assert(pairs[k].0 < pairs[pairs.len() - 1].0);
                }
            }
            lemma_longest(a, b, (i - 1) as nat, (j - 1) as nat, rest);
        } else if last.0 == i - 1 {
            assert(last.1 != j - 1);
            assert(is_matching(a, b, pairs, i as int, j - 1)) by {
                assert forall|k: int| 0 <= k < pairs.len() implies {
                    &&& 0 <= (#[trigger] pairs[k]).0 < i
                    &&& 0 <= pairs[k].1 < j - 1
                    &&& a[pairs[k].0] == b[pairs[k].1]
                } by {
                    if k < pairs.len() - 1 {
                        assert(pairs[k].1 < pairs[pairs.len() - 1].1);
                    }
                }
            }
            lemma_longest(a, b, i, (j - 1) as nat, pairs);
        } else {
            assert(is_matching(a, b, pairs, i - 1, j as int)) by {
                assert forall|k: int| 0 <= k < pairs.len() implies {
                    &&& 0 <= (#[trigger] pairs[k]).0 < i - 1
                    &&& 0 <= pairs[k].1 < j
                    &&& a[pairs[k].0] == b[pairs[k].1]
                } by {
                    if k < pairs.len() - 1 {
                        assert(pairs[k].0 < pairs[pairs.len() - 1].0);
                    }
                }
            }
            lemma_longest(a, b, (i - 1) as nat, j, pairs);
        }
    }
}

/// How many lines two files share at their start, up to `limit`.
pub open spec fn shared_prefix(a: Seq<Seq<u8>>, b: Seq<Seq<u8>>, from: nat, limit: nat) -> nat
    decreases limit - from,
{
    if from >= limit || a[from as int] != b[from as int] {
        from
    } else {
        shared_prefix(a, b, from + 1, limit)
    }
}

/// Whether two files agree on the line that `k` others follow.
pub open spec fn ends_agree(a: Seq<Seq<u8>>, b: Seq<Seq<u8>>, k: int) -> bool {
    a[a.len() - k - 1] == b[b.len() - k - 1]
}

/// How many lines two files share at their end, up to `limit`.
pub open spec fn shared_suffix(a: Seq<Seq<u8>>, b: Seq<Seq<u8>>, from: nat, limit: nat) -> nat
    decreases limit - from,
{
    if from >= limit || !ends_agree(a, b, from as int) {
        from
    } else {
        shared_suffix(a, b, from + 1, limit)
    }
}

pub open spec fn smaller(a: nat, b: nat) -> nat {
    if a <= b {
        a
    } else {
        b
    }
}

/// The lengths of the shared start and of the shared end behind it.
pub open spec fn shared_ends(a: Seq<Seq<u8>>, b: Seq<Seq<u8>>) -> (nat, nat) {
    let shared = smaller(a.len(), b.len());
    let prefix = shared_prefix(a, b, 0, shared);
    (prefix, shared_suffix(a, b, 0, (shared - prefix) as nat))
}

proof fn lemma_prefix_is_longest(a: Seq<Seq<u8>>, b: Seq<Seq<u8>>, from: nat, limit: nat)
    requires
        from <= limit,
    ensures
        shared_prefix(a, b, from, limit) < limit ==> a[shared_prefix(a, b, from, limit) as int]
            != b[shared_prefix(a, b, from, limit) as int],
    decreases limit - from,
{
    if from < limit && a[from as int] == b[from as int] {
        lemma_prefix_is_longest(a, b, from + 1, limit);
    }
}

proof fn lemma_suffix_is_longest(a: Seq<Seq<u8>>, b: Seq<Seq<u8>>, from: nat, limit: nat)
    requires
        from <= limit,
    ensures
        shared_suffix(a, b, from, limit) < limit ==> !ends_agree(
            a,
            b,
            shared_suffix(a, b, from, limit) as int,
        ),
    decreases limit - from,
{
    if from < limit && ends_agree(a, b, from as int) {
        lemma_suffix_is_longest(a, b, from + 1, limit);
    }
}

/// Two files share every line of their common start and of their common end, the two do
/// not overlap in either file, and neither can be made longer.
pub proof fn shared_ends_cannot_be_longer(a: Seq<Seq<u8>>, b: Seq<Seq<u8>>)
    ensures
        ({
            let (prefix, suffix) = shared_ends(a, b);
            &&& prefix + suffix <= a.len()
            &&& prefix + suffix <= b.len()
            &&& a.subrange(0, prefix as int) == b.subrange(0, prefix as int)
            &&& a.subrange(a.len() - suffix, a.len() as int) == b.subrange(
                b.len() - suffix,
                b.len() as int,
            )
            &&& prefix < a.len() && prefix < b.len() ==> a[prefix as int] != b[prefix as int]
            &&& prefix + suffix < a.len() && prefix + suffix < b.len() ==> a[a.len() - suffix - 1]
                != b[b.len() - suffix - 1]
        }),
{
    let shared = smaller(a.len(), b.len());
    let (prefix, suffix) = shared_ends(a, b);
    lemma_shared_prefix(a, b, 0, shared);
    lemma_prefix_is_longest(a, b, 0, shared);
    lemma_shared_suffix(a, b, 0, (shared - prefix) as nat);
    lemma_suffix_is_longest(a, b, 0, (shared - prefix) as nat);
    assert(a.subrange(0, prefix as int) =~= b.subrange(0, prefix as int));
    let tail = a.subrange(a.len() - suffix, a.len() as int);
    let other = b.subrange(b.len() - suffix, b.len() as int);
    assert forall|k: int| 0 <= k < suffix implies tail[k] == other[k] by {
        assert(ends_agree(a, b, suffix - 1 - k));
    }
    assert(tail =~= other);
}

proof fn lemma_shared_prefix(a: Seq<Seq<u8>>, b: Seq<Seq<u8>>, from: nat, limit: nat)
    requires
        from <= limit,
    ensures
        from <= shared_prefix(a, b, from, limit) <= limit,
        forall|k: int| from <= k < shared_prefix(a, b, from, limit) ==> a[k] == b[k],
    decreases limit - from,
{
    if from >= limit || a[from as int] != b[from as int] {
    } else {
        lemma_shared_prefix(a, b, from + 1, limit);
    }
}

proof fn lemma_shared_suffix(a: Seq<Seq<u8>>, b: Seq<Seq<u8>>, from: nat, limit: nat)
    requires
        from <= limit,
    ensures
        from <= shared_suffix(a, b, from, limit) <= limit,
        forall|k: int| from <= k < shared_suffix(a, b, from, limit) ==> #[trigger] ends_agree(a, b, k),
    decreases limit - from,
{
    if from >= limit || !ends_agree(a, b, from as int) {
    } else {
        lemma_shared_suffix(a, b, from + 1, limit);
    }
}

/// The lines between a shared start and a shared end.
pub open spec fn middle(lines: Seq<Seq<u8>>, prefix: nat, suffix: nat) -> Seq<Seq<u8>> {
    if prefix < lines.len() - suffix {
        lines.subrange(prefix as int, lines.len() - suffix)
    } else {
        Seq::empty()
    }
}

/// The matching found when a shared start and end are set apart.
pub open spec fn trimmed_matches(
    a: Seq<Seq<u8>>,
    b: Seq<Seq<u8>>,
    prefix: nat,
    suffix: nat,
) -> Seq<(int, int)> {
    let a_mid = middle(a, prefix, suffix);
    let b_mid = middle(b, prefix, suffix);
    let inner = lcs_trace(a_mid, b_mid, a_mid.len(), b_mid.len());
    Seq::new(prefix, |k: int| (k, k)) + Seq::new(
        inner.len(),
        |k: int| (inner[k].0 + prefix, inner[k].1 + prefix),
    ) + Seq::new(suffix, |k: int| (a.len() - suffix + k, b.len() - suffix + k))
}

proof fn lemma_single(a: Seq<Seq<u8>>, b: Seq<Seq<u8>>, i: nat, j: nat)
    requires
        i >= 1,
        j >= 1,
        a[0] == b[0],
        i == 1 || j == 1,
    ensures
        lcs_len(a, b, i, j) == 1,
    decreases i + j,
{
    reveal_with_fuel(lcs_len, 2);
    if a[i - 1] == b[j - 1] {
    } else if i == 1 {
        lemma_single(a, b, 1, (j - 1) as nat);
    } else {
        lemma_single(a, b, (i - 1) as nat, 1);
    }
}

/// An equal first line may be set apart: it adds one to the longest length.
proof fn lemma_drop_first(a: Seq<Seq<u8>>, b: Seq<Seq<u8>>, i: nat, j: nat)
    requires
        i < a.len(),
        j < b.len(),
        a[0] == b[0],
    ensures
        lcs_len(a, b, i + 1, j + 1) == 1 + lcs_len(a.drop_first(), b.drop_first(), i, j),
    decreases i + j,
{
    if i == 0 || j == 0 {
        lemma_single(a, b, i + 1, j + 1);
    } else {
        assert(a.drop_first()[i - 1] == a[i as int]);
        assert(b.drop_first()[j - 1] == b[j as int]);
        lemma_drop_first(a, b, (i - 1) as nat, (j - 1) as nat);
        lemma_drop_first(a, b, (i - 1) as nat, j);
        lemma_drop_first(a, b, i, (j - 1) as nat);
    }
}

proof fn lemma_drop_prefix(a: Seq<Seq<u8>>, b: Seq<Seq<u8>>, prefix: nat)
    requires
        prefix <= a.len(),
        prefix <= b.len(),
        forall|k: int| 0 <= k < prefix ==> a[k] == b[k],
    ensures
        lcs_len(a, b, a.len(), b.len()) == prefix + lcs_len(
            a.subrange(prefix as int, a.len() as int),
            b.subrange(prefix as int, b.len() as int),
            (a.len() - prefix) as nat,
            (b.len() - prefix) as nat,
        ),
    decreases prefix,
{
    if prefix == 0 {
        assert(a.subrange(0, a.len() as int) =~= a);
        assert(b.subrange(0, b.len() as int) =~= b);
    } else {
        let a1 = a.drop_first();
        let b1 = b.drop_first();
        lemma_drop_first(a, b, (a.len() - 1) as nat, (b.len() - 1) as nat);
        assert forall|k: int| 0 <= k < prefix - 1 implies a1[k] == b1[k] by {
            assert(a[k + 1] == b[k + 1]);
        }
        lemma_drop_prefix(a1, b1, (prefix - 1) as nat);
        assert(a1.subrange(prefix - 1, a1.len() as int) =~= a.subrange(
            prefix as int,
            a.len() as int,
        ));
        assert(b1.subrange(prefix - 1, b1.len() as int) =~= b.subrange(
            prefix as int,
            b.len() as int,
        ));
    }
}

proof fn lemma_lcs_local(
    a: Seq<Seq<u8>>,
    b: Seq<Seq<u8>>,
    c: Seq<Seq<u8>>,
    d: Seq<Seq<u8>>,
    i: nat,
    j: nat,
)
    requires
        forall|k: int| 0 <= k < i ==> a[k] == c[k],
        forall|k: int| 0 <= k < j ==> b[k] == d[k],
    ensures
        lcs_len(a, b, i, j) == lcs_len(c, d, i, j),
    decreases i + j,
{
    if i > 0 && j > 0 {
        lemma_lcs_local(a, b, c, d, (i - 1) as nat, (j - 1) as nat);
        lemma_lcs_local(a, b, c, d, (i - 1) as nat, j);
        lemma_lcs_local(a, b, c, d, i, (j - 1) as nat);
    }
}

proof fn lemma_drop_suffix(a: Seq<Seq<u8>>, b: Seq<Seq<u8>>, suffix: nat)
    requires
        suffix <= a.len(),
        suffix <= b.len(),
        forall|k: int| 0 <= k < suffix ==> #[trigger] ends_agree(a, b, k),
    ensures
        lcs_len(a, b, a.len(), b.len()) == suffix + lcs_len(
            a,
            b,
            (a.len() - suffix) as nat,
            (b.len() - suffix) as nat,
        ),
    decreases suffix,
{
    if suffix > 0 {
        lemma_drop_suffix(a, b, (suffix - 1) as nat);
        assert(ends_agree(a, b, suffix - 1));
    }
}

/// Setting a shared start and end apart loses nothing: the matching found that
/// way is a matching of the whole files, and none is longer.
pub proof fn trimming_keeps_the_longest_matching(
    a: Seq<Seq<u8>>,
    b: Seq<Seq<u8>>,
    prefix: nat,
    suffix: nat,
)
    requires
        prefix + suffix <= a.len(),
        prefix + suffix <= b.len(),
        forall|k: int| 0 <= k < prefix ==> a[k] == b[k],
        forall|k: int| 0 <= k < suffix ==> #[trigger] ends_agree(a, b, k),
    ensures
        is_matching(a, b, trimmed_matches(a, b, prefix, suffix), a.len() as int, b.len() as int),
        forall|pairs: Seq<(int, int)>|
            is_matching(a, b, pairs, a.len() as int, b.len() as int) ==> #[trigger] pairs.len()
                <= trimmed_matches(a, b, prefix, suffix).len(),
{
    let a_mid = middle(a, prefix, suffix);
    let b_mid = middle(b, prefix, suffix);
    let inner = lcs_trace(a_mid, b_mid, a_mid.len(), b_mid.len());
    let found = trimmed_matches(a, b, prefix, suffix);
    lemma_trace(a_mid, b_mid, a_mid.len(), b_mid.len());
    assert(a_mid =~= a.subrange(prefix as int, a.len() - suffix));
    assert(b_mid =~= b.subrange(prefix as int, b.len() - suffix));
    assert forall|k: int| 0 <= k < found.len() implies {
        &&& 0 <= (#[trigger] found[k]).0 < a.len()
        &&& 0 <= found[k].1 < b.len()
        &&& a[found[k].0] == b[found[k].1]
    } by {
        if k < prefix {
        } else if k < prefix + inner.len() {
            let at = inner[k - prefix];
            assert(a_mid[at.0] == b_mid[at.1]);
        } else {
            let from_end = suffix - 1 - (k - prefix - inner.len());
            assert(ends_agree(a, b, from_end));
        }
    }
    assert forall|k: int, l: int| 0 <= k < l < found.len() implies (#[trigger] found[k]).0 < (
    #[trigger] found[l]).0 && found[k].1 < found[l].1 by {
        if prefix <= k && l < prefix + inner.len() {
            assert(inner[k - prefix].0 < inner[l - prefix].0);
        } else {
            if prefix <= k < prefix + inner.len() {
                assert(inner[k - prefix].0 < a_mid.len());
            }
            if prefix <= l < prefix + inner.len() {
                assert(inner[l - prefix].0 >= 0);
            }
        }
    }
    let a_cut = a.subrange(0, a.len() - suffix);
    let b_cut = b.subrange(0, b.len() - suffix);
    lemma_drop_suffix(a, b, suffix);
    lemma_lcs_local(a, b, a_cut, b_cut, a_cut.len(), b_cut.len());
    lemma_drop_prefix(a_cut, b_cut, prefix);
    assert(a_cut.subrange(prefix as int, a_cut.len() as int) =~= a_mid);
    assert(b_cut.subrange(prefix as int, b_cut.len() as int) =~= b_mid);
    assert(found.len() == lcs_len(a, b, a.len(), b.len()));
    trace_is_a_longest_matching(a, b, a.len(), b.len());
}

/// What two versions share at their ends may be set apart, so the matching that
/// is built on it is a longest matching of the two versions.
pub proof fn shared_ends_give_a_longest_matching(a: Seq<Seq<u8>>, b: Seq<Seq<u8>>)
    ensures
        ({
            let ends = shared_ends(a, b);
            let found = trimmed_matches(a, b, ends.0, ends.1);
            &&& ends.0 + ends.1 <= a.len()
            &&& ends.0 + ends.1 <= b.len()
            &&& is_matching(a, b, found, a.len() as int, b.len() as int)
            &&& forall|pairs: Seq<(int, int)>|
                is_matching(a, b, pairs, a.len() as int, b.len() as int) ==> #[trigger] pairs.len()
                    <= found.len()
        }),
{
    let shared = smaller(a.len(), b.len());
    let ends = shared_ends(a, b);
    lemma_shared_prefix(a, b, 0, shared);
    lemma_shared_suffix(a, b, 0, (shared - ends.0) as nat);
    trimming_keeps_the_longest_matching(a, b, ends.0, ends.1);
}

/// Whether two lines hold the same bytes.
pub fn same_line(
    parent: &[u8],
    parent_line: &Range<usize>,
    current: &[u8],
    current_line: &Range<usize>,
) -> (result: bool)
    requires
        parent_line.start <= parent_line.end <= parent@.len(),
        current_line.start <= current_line.end <= current@.len(),
    ensures
        result == (parent@.subrange(parent_line.start as int, parent_line.end as int)
            == current@.subrange(current_line.start as int, current_line.end as int)),
{
    let length: usize = parent_line.end - parent_line.start;
    let ghost left = parent@.subrange(parent_line.start as int, parent_line.end as int);
    let ghost right = current@.subrange(current_line.start as int, current_line.end as int);
    if length != current_line.end - current_line.start {
        assert(left.len() != right.len());
        return false;
    }
    let mut at: usize = 0;
    while at < length
        invariant
            at <= length,
            length == parent_line.end - parent_line.start,
            length == current_line.end - current_line.start,
            parent_line.start <= parent_line.end <= parent@.len(),
            current_line.start <= current_line.end <= current@.len(),
            left == parent@.subrange(parent_line.start as int, parent_line.end as int),
            right == current@.subrange(current_line.start as int, current_line.end as int),
            forall|k: int| 0 <= k < at ==> left[k] == right[k],
        decreases length - at,
    {
        if parent[parent_line.start + at] != current[current_line.start + at] {
            assert(left[at as int] != right[at as int]);
            return false;
        }
        at += 1;
    }
    assert(left =~= right);
    true
}

/// How many leading and trailing lines two versions of a file share.
pub fn matching_ends<W: Cancellation>(
    parent: &[u8],
    parent_lines: &[Range<usize>],
    current: &[u8],
    current_lines: &[Range<usize>],
    cancellation: &W,
) -> (result: Result<(usize, usize), Error>)
    requires
        crate::lines::ranges_within(parent@, parent_lines@),
        crate::lines::ranges_within(current@, current_lines@),
    ensures
        match result {
            Ok(ends) => (ends.0 as nat, ends.1 as nat) == shared_ends(
                crate::lines::lines_at(parent@, parent_lines@),
                crate::lines::lines_at(current@, current_lines@),
            ),
            Err(error) => crate::cancel::stopped_by(cancellation, error) && shared_ends(
                crate::lines::lines_at(parent@, parent_lines@),
                crate::lines::lines_at(current@, current_lines@),
            ) != (0nat, 0nat),
        },
        result matches Ok(ends) && (ends.0 > 0 || ends.1 > 0) ==> crate::cancel::passed_by(
            cancellation,
        ),
{
    let ghost a = crate::lines::lines_at(parent@, parent_lines@);
    let ghost b = crate::lines::lines_at(current@, current_lines@);
    let shared: usize = if parent_lines.len() <= current_lines.len() {
        parent_lines.len()
    } else {
        current_lines.len()
    };
    let mut prefix: usize = 0;
    while prefix < shared && same_line(
        parent,
        &parent_lines[prefix],
        current,
        &current_lines[prefix],
    )
        invariant
            shared <= parent_lines@.len(),
            shared <= current_lines@.len(),
            prefix <= shared,
            prefix > 0 ==> crate::cancel::passed_by(cancellation),
            shared == parent_lines@.len() || shared == current_lines@.len(),
            a == crate::lines::lines_at(parent@, parent_lines@),
            b == crate::lines::lines_at(current@, current_lines@),
            crate::lines::ranges_within(parent@, parent_lines@),
            crate::lines::ranges_within(current@, current_lines@),
            shared_prefix(a, b, 0, shared as nat) == shared_prefix(
                a,
                b,
                prefix as nat,
                shared as nat,
            ),
        decreases shared - prefix,
    {
        proof {
            assert(a[prefix as int] == b[prefix as int]);
            lemma_shared_prefix(a, b, (prefix + 1) as nat, shared as nat);
        }
        if prefix % CPU_CANCELLATION_INTERVAL == 0 {
            check_cpu_cancellation(cancellation)?;
        }
        prefix += 1;
    }
    assert(prefix == shared_prefix(a, b, 0, shared as nat));
    let mut suffix: usize = 0;
    while suffix < shared - prefix && same_line(
        parent,
        &parent_lines[parent_lines.len() - suffix - 1],
        current,
        &current_lines[current_lines.len() - suffix - 1],
    )
        invariant
            shared <= parent_lines@.len(),
            shared <= current_lines@.len(),
            prefix <= shared,
            suffix <= shared - prefix,
            prefix > 0 || suffix > 0 ==> crate::cancel::passed_by(cancellation),
            shared == parent_lines@.len() || shared == current_lines@.len(),
            prefix == shared_prefix(a, b, 0, shared as nat),
            a == crate::lines::lines_at(parent@, parent_lines@),
            b == crate::lines::lines_at(current@, current_lines@),
            crate::lines::ranges_within(parent@, parent_lines@),
            crate::lines::ranges_within(current@, current_lines@),
            shared_suffix(a, b, 0, (shared - prefix) as nat) == shared_suffix(
                a,
                b,
                suffix as nat,
                (shared - prefix) as nat,
            ),
        decreases shared - prefix - suffix,
    {
        assert(ends_agree(a, b, suffix as int));
        proof {
            lemma_shared_suffix(a, b, (suffix + 1) as nat, (shared - prefix) as nat);
        }
        if suffix % CPU_CANCELLATION_INTERVAL == 0 {
            check_cpu_cancellation(cancellation)?;
        }
        suffix += 1;
    }
    assert(suffix == shared_suffix(a, b, 0, (shared - prefix) as nat));
    Ok((prefix, suffix))
}

/// The error that reports a comparison too large to be counted.
pub open spec fn too_many_cells() -> Error {
    Error::LimitExceeded {
        limit: "blame comparison cells",
        actual: u64::MAX,
        maximum: u64::MAX,
    }
}

/// More cells than can be counted are reported as past the cells of a comparison.
pub proof fn how_too_large_a_comparison_is_reported()
    ensures
        too_many_cells() == (Error::LimitExceeded {
            limit: "blame comparison cells",
            actual: u64::MAX,
            maximum: u64::MAX,
        }),
{
}

/// How many cells the comparison of two line lists fills.
pub fn comparison_cells(parent_lines: usize, current_lines: usize) -> (result: Result<u64, Error>)
    ensures
        result == (if (parent_lines + 1) * (current_lines + 1) <= u64::MAX {
            Ok::<u64, Error>(((parent_lines + 1) * (current_lines + 1)) as u64)
        } else {
            Err(too_many_cells())
        }),
{
    let failure = Error::LimitExceeded {
        limit: "blame comparison cells",
        actual: u64::MAX,
        maximum: u64::MAX,
    };
    proof {
        assert((parent_lines + 1) * (current_lines + 1) >= parent_lines + 1) by (nonlinear_arith);
        assert((parent_lines + 1) * (current_lines + 1) >= current_lines + 1) by (nonlinear_arith);
    }
    let rows: u64 = match (parent_lines as u64).checked_add(1) {
        Some(rows) => rows,
        None => return Err(failure),
    };
    let columns: u64 = match (current_lines as u64).checked_add(1) {
        Some(columns) => columns,
        None => return Err(failure),
    };
    match rows.checked_mul(columns) {
        Some(cells) => Ok(cells),
        None => Err(failure),
    }
}

/// Where a table of `columns` columns keeps the cell of a row and a column.
pub open spec fn cell(columns: int, row: int, column: int) -> int {
    row * columns + column
}

proof fn lemma_cell(rows: int, columns: int, row: int, column: int)
    requires
        0 <= row < rows,
        0 <= column < columns,
    ensures
        0 <= cell(columns, row, column) < rows * columns,
        0 <= row * columns <= cell(columns, row, column),
{
    assert(row * columns + column < rows * columns) by (nonlinear_arith)
        requires
            0 <= row < rows,
            0 <= column < columns,
    ;
    assert(0 <= row * columns) by (nonlinear_arith)
        requires
            0 <= row,
            0 <= columns,
    ;
}

proof fn lemma_cell_distinct(columns: int, r: int, c: int, row: int, column: int)
    requires
        0 <= c < columns,
        0 <= column < columns,
        cell(columns, r, c) == cell(columns, row, column),
    ensures
        r == row,
        c == column,
{
    assert(r == row) by (nonlinear_arith)
        requires
            0 <= c < columns,
            0 <= column < columns,
            r * columns + c == row * columns + column,
    ;
}

/// The finished part of the table holds longest lengths.
spec fn table_holds(
    matrix: Seq<u32>,
    a: Seq<Seq<u8>>,
    b: Seq<Seq<u8>>,
    columns: int,
    row: int,
    column: int,
) -> bool {
    forall|r: int, c: int|
        0 <= r <= a.len() && 0 <= c < columns && (r < row || c == 0 || (r == row && c < column))
            ==> matrix[#[trigger] cell(columns, r, c)] == lcs_len(a, b, r as nat, c as nat)
}

proof fn lemma_small(rows: int, columns: int, value: int)
    requires
        0 <= value < rows,
        0 <= value < columns,
        rows * columns * 4 <= usize::MAX,
    ensures
        value < u32::MAX,
{
    assert(value < 0x8000_0000) by (nonlinear_arith)
        requires
            0 <= value < rows,
            0 <= value < columns,
            rows * columns * 4 <= 0xffff_ffff_ffff_ffff,
    ;
}

/// How many cells the matching of the middle of two line lists fills.
pub open spec fn middle_cells(
    a: Seq<Seq<u8>>,
    b: Seq<Seq<u8>>,
    prefix: nat,
    suffix: nat,
) -> int {
    ((middle(a, prefix, suffix).len() + 1) * (middle(b, prefix, suffix).len() + 1)) as int
}

/// Whether there was room to match the middle of two line lists, and for the pairs.
pub open spec fn room_for_cells(
    a: Seq<Seq<u8>>,
    b: Seq<Seq<u8>>,
    prefix: nat,
    suffix: nat,
) -> bool {
    &&& middle_cells(a, b, prefix, suffix) * 4 <= usize::MAX
    &&& crate::memory::granted_exactly::<u32>(middle_cells(a, b, prefix, suffix) as usize)
}

/// How many pairs are made room for.
pub open spec fn pairs_to_keep(
    a: Seq<Seq<u8>>,
    b: Seq<Seq<u8>>,
    prefix: nat,
    suffix: nat,
) -> usize {
    crate::memory::clamp_usize(trimmed_matches(a, b, prefix, suffix).len() as int)
}

/// Why two line lists could not be matched: the token is looked at first, then the
/// cells are counted, and room is asked for the cells before the pairs.
pub open spec fn matches_refused<W: Cancellation>(
    a: Seq<Seq<u8>>,
    b: Seq<Seq<u8>>,
    prefix: nat,
    suffix: nat,
    cancellation: &W,
    error: Error,
) -> bool {
    let cells = middle_cells(a, b, prefix, suffix);
    ||| crate::cancel::stopped_by(cancellation, error)
    ||| {
        &&& crate::cancel::passed_by(cancellation)
        &&& cells * 4 > usize::MAX
        &&& error == too_many_cells()
    }
    ||| {
        &&& crate::cancel::passed_by(cancellation)
        &&& cells * 4 <= usize::MAX
        &&& crate::memory::refused_exactly::<u32>(cells as usize, error)
    }
    ||| {
        &&& crate::cancel::passed_by(cancellation)
        &&& room_for_cells(a, b, prefix, suffix)
        &&& crate::memory::refused_exactly::<(usize, usize)>(
            pairs_to_keep(a, b, prefix, suffix),
            error,
        )
    }
}

/// A matching is refused only where the work was cancelled, where its cells are too many
/// to be addressed, or where there was no memory.
pub proof fn when_a_matching_is_refused<W: Cancellation>(
    a: Seq<Seq<u8>>,
    b: Seq<Seq<u8>>,
    prefix: nat,
    suffix: nat,
    cancellation: &W,
    error: Error,
)
    requires
        matches_refused(a, b, prefix, suffix, cancellation, error),
        prefix + suffix <= a.len(),
        prefix + suffix <= b.len(),
    ensures
        match error {
            Error::Cancelled => cancellation.may_answer(true),
            Error::Allocation { .. } => cancellation.may_answer(false),
            Error::LimitExceeded { .. } => 4 * ((a.len() - prefix - suffix + 1) * (b.len() - prefix
                - suffix + 1)) > usize::MAX,
            _ => false,
        },
{
}

/// The pairs of lines that a longest matching keeps, where the caller has found
/// how many lines the two versions share at either end.
#[verifier::rlimit(60)]
pub fn lcs_matches<W: Cancellation>(
    parent: &[u8],
    parent_lines: &[Range<usize>],
    current: &[u8],
    current_lines: &[Range<usize>],
    equal_prefix: usize,
    equal_suffix: usize,
    cancellation: &W,
) -> (result: Result<Vec<(usize, usize)>, Error>)
    requires
        crate::lines::ranges_within(parent@, parent_lines@),
        crate::lines::ranges_within(current@, current_lines@),
        equal_suffix <= parent_lines@.len(),
        equal_suffix <= current_lines@.len(),
    ensures
        match result {
            Ok(pairs) => crate::lcs::pair_values(pairs@) == trimmed_matches(
                crate::lines::lines_at(parent@, parent_lines@),
                crate::lines::lines_at(current@, current_lines@),
                equal_prefix as nat,
                equal_suffix as nat,
            ),
            Err(error) => matches_refused(
                crate::lines::lines_at(parent@, parent_lines@),
                crate::lines::lines_at(current@, current_lines@),
                equal_prefix as nat,
                equal_suffix as nat,
                cancellation,
                error,
            ),
        },
        result is Ok ==> {
            let a = crate::lines::lines_at(parent@, parent_lines@);
            let b = crate::lines::lines_at(current@, current_lines@);
            &&& crate::cancel::passed_by(cancellation)
            &&& room_for_cells(a, b, equal_prefix as nat, equal_suffix as nat)
            &&& crate::memory::granted_exactly::<(usize, usize)>(
                pairs_to_keep(a, b, equal_prefix as nat, equal_suffix as nat),
            )
        },
{
    check_cpu_cancellation(cancellation)?;
    let ghost a = crate::lines::lines_at(parent@, parent_lines@);
    let ghost b = crate::lines::lines_at(current@, current_lines@);
    let ghost a_mid = middle(a, equal_prefix as nat, equal_suffix as nat);
    let ghost b_mid = middle(b, equal_prefix as nat, equal_suffix as nat);
    let parent_middle_end: usize = parent_lines.len() - equal_suffix;
    let current_middle_end: usize = current_lines.len() - equal_suffix;
    let parent_middle: usize = if parent_middle_end > equal_prefix {
        parent_middle_end - equal_prefix
    } else {
        0
    };
    let current_middle: usize = if current_middle_end > equal_prefix {
        current_middle_end - equal_prefix
    } else {
        0
    };
    assert(a_mid.len() == parent_middle);
    assert(b_mid.len() == current_middle);
    let failure = Error::LimitExceeded {
        limit: "blame comparison cells",
        actual: u64::MAX,
        maximum: u64::MAX,
    };
    proof {
        assert((parent_middle + 1) * (current_middle + 1) * 4 >= parent_middle + 1
            && (parent_middle + 1) * (current_middle + 1) * 4 >= current_middle + 1) by (nonlinear_arith);
    }
    let rows: usize = match parent_middle.checked_add(1) {
        Some(rows) => rows,
        None => return Err(failure),
    };
    let columns: usize = match current_middle.checked_add(1) {
        Some(columns) => columns,
        None => return Err(failure),
    };
    let cells: usize = match rows.checked_mul(columns) {
        Some(cells) => cells,
        None => return Err(failure),
    };
    match cells.checked_mul(4) {
        Some(_) => {},
        None => return Err(failure),
    }
    assert(cells == middle_cells(a, b, equal_prefix as nat, equal_suffix as nat));
    let mut matrix: Vec<u32> = Vec::new();
    assert(matrix@ =~= Seq::empty());
    reserve_exact(&mut matrix, cells)?;
    assert(room_for_cells(a, b, equal_prefix as nat, equal_suffix as nat));
    matrix.resize(cells, 0u32);
    proof {
        assert forall|r: int, c: int|
            0 <= r <= a_mid.len() && 0 <= c < columns && (r < 1 || c == 0 || (r == 1 && c
                < 1)) implies matrix@[#[trigger] cell(columns as int, r, c)] == lcs_len(
            a_mid,
            b_mid,
            r as nat,
            c as nat,
        ) by {
            lemma_cell(rows as int, columns as int, r, c);
        }
    }
    let mut row: usize = 1;
    while row < rows
        invariant
            1 <= row <= rows,
            rows == a_mid.len() + 1,
            columns == b_mid.len() + 1,
            cells == rows * columns,
            rows * columns * 4 <= usize::MAX,
            matrix@.len() == cells,
            a == crate::lines::lines_at(parent@, parent_lines@),
            b == crate::lines::lines_at(current@, current_lines@),
            a_mid == middle(a, equal_prefix as nat, equal_suffix as nat),
            b_mid == middle(b, equal_prefix as nat, equal_suffix as nat),
            crate::lines::ranges_within(parent@, parent_lines@),
            crate::lines::ranges_within(current@, current_lines@),
            a_mid.len() > 0 ==> equal_prefix + a_mid.len() <= parent_lines@.len() <= usize::MAX,
            b_mid.len() > 0 ==> equal_prefix + b_mid.len() <= current_lines@.len() <= usize::MAX,
            table_holds(matrix@, a_mid, b_mid, columns as int, row as int, 1),
        decreases rows - row,
    {
        check_cpu_cancellation(cancellation)?;
        let mut column: usize = 1;
        while column < columns
            invariant
                1 <= column <= columns,
                1 <= row < rows,
                rows == a_mid.len() + 1,
                columns == b_mid.len() + 1,
                cells == rows * columns,
                rows * columns * 4 <= usize::MAX,
                matrix@.len() == cells,
                a == crate::lines::lines_at(parent@, parent_lines@),
                b == crate::lines::lines_at(current@, current_lines@),
                a_mid == middle(a, equal_prefix as nat, equal_suffix as nat),
                b_mid == middle(b, equal_prefix as nat, equal_suffix as nat),
                crate::lines::ranges_within(parent@, parent_lines@),
                crate::lines::ranges_within(current@, current_lines@),
                a_mid.len() > 0 ==> equal_prefix + a_mid.len() <= parent_lines@.len() <= usize::MAX,
                b_mid.len() > 0 ==> equal_prefix + b_mid.len() <= current_lines@.len()
                    <= usize::MAX,
                table_holds(matrix@, a_mid, b_mid, columns as int, row as int, column as int),
            decreases columns - column,
        {
            let ghost before = matrix@;
            proof {
                lemma_cell(rows as int, columns as int, row as int, column as int);
                lemma_cell(rows as int, columns as int, row - 1, column as int);
                lemma_cell(rows as int, columns as int, row as int, column - 1);
                lemma_cell(rows as int, columns as int, row - 1, column - 1);
                lemma_lcs_step(a_mid, b_mid, (row - 1) as nat, (column - 1) as nat);
                lemma_small(rows as int, columns as int, lcs_len(
                    a_mid,
                    b_mid,
                    (row - 1) as nat,
                    (column - 1) as nat,
                ) as int);
                assert(a_mid[row - 1] == a[equal_prefix + row - 1]);
                assert(b_mid[column - 1] == b[equal_prefix + column - 1]);
            }
            let index: usize = row * columns + column;
            let equal = same_line(
                parent,
                &parent_lines[equal_prefix + (row - 1)],
                current,
                &current_lines[equal_prefix + (column - 1)],
            );
            let value: u32 = if equal {
                matrix[(row - 1) * columns + (column - 1)].saturating_add(1)
            } else {
                let up: u32 = matrix[(row - 1) * columns + column];
                let left: u32 = matrix[row * columns + (column - 1)];
                if up >= left {
                    up
                } else {
                    left
                }
            };
            assert(value == lcs_len(a_mid, b_mid, row as nat, column as nat)) by {
                assert(before[cell(columns as int, row - 1, column - 1)] == lcs_len(
                    a_mid,
                    b_mid,
                    (row - 1) as nat,
                    (column - 1) as nat,
                ));
                assert(before[cell(columns as int, row - 1, column as int)] == lcs_len(
                    a_mid,
                    b_mid,
                    (row - 1) as nat,
                    column as nat,
                ));
                assert(before[cell(columns as int, row as int, column - 1)] == lcs_len(
                    a_mid,
                    b_mid,
                    row as nat,
                    (column - 1) as nat,
                ));
            }
            matrix[index] = value;
            proof {
                assert forall|r: int, c: int|
                    0 <= r <= a_mid.len() && 0 <= c < columns && (r < row || c == 0 || (r == row
                        && c < column + 1)) implies matrix@[#[trigger] cell(columns as int, r, c)]
                    == lcs_len(a_mid, b_mid, r as nat, c as nat) by {
                    lemma_cell(rows as int, columns as int, r, c);
                    if cell(columns as int, r, c) == index {
                        lemma_cell_distinct(
                            columns as int,
                            r,
                            c,
                            row as int,
                            column as int,
                        );
                    } else {
                        assert(before[cell(columns as int, r, c)] == lcs_len(
                            a_mid,
                            b_mid,
                            r as nat,
                            c as nat,
                        ));
                    }
                }
            }
            column += 1;
        }
        row += 1;
    }
    proof {
        lemma_cell(rows as int, columns as int, rows - 1, columns - 1);
        assert(cell(columns as int, rows - 1, columns - 1) == rows * columns - 1) by (nonlinear_arith)
            requires
                cell(columns as int, rows - 1, columns - 1) == (rows - 1) * columns + columns - 1,
        ;
        lemma_trace(a_mid, b_mid, a_mid.len(), b_mid.len());
    }
    let length: usize = matrix[rows * columns - 1] as usize;
    assert(length == lcs_trace(a_mid, b_mid, a_mid.len(), b_mid.len()).len());
    let mut matches: Vec<(usize, usize)> = Vec::new();
    let capacity: usize = equal_prefix.saturating_add(length).saturating_add(equal_suffix);
    assert(capacity == pairs_to_keep(a, b, equal_prefix as nat, equal_suffix as nat));
    assert(matches@ =~= Seq::empty());
    reserve_exact(&mut matches, capacity)?;
    assert(crate::memory::granted_exactly::<(usize, usize)>(capacity));
    let mut line: usize = 0;
    while line < equal_prefix
        invariant
            line <= equal_prefix,
            pair_values(matches@) == Seq::new(line as nat, |k: int| (k, k)),
        decreases equal_prefix - line,
    {
        let ghost before = matches@;
        matches.push((line, line));
        assert(pair_values(matches@) =~= pair_values(before).push((line as int, line as int)));
        line += 1;
        assert(pair_values(matches@) =~= Seq::new(line as nat, |k: int| (k, k)));
    }
    let mut inner: Vec<(usize, usize)> = Vec::new();
    let mut row: usize = rows - 1;
    let mut column: usize = columns - 1;
    let mut steps: usize = 0;
    let ghost whole = lcs_trace(a_mid, b_mid, a_mid.len(), b_mid.len());
    assert(lcs_trace(a_mid, b_mid, row as nat, column as nat) + pair_values(inner@).reverse()
        =~= whole);
    while row > 0 && column > 0
        invariant
            row < rows,
            column < columns,
            rows == a_mid.len() + 1,
            columns == b_mid.len() + 1,
            cells == rows * columns,
            rows * columns * 4 <= usize::MAX,
            matrix@.len() == cells,
            a == crate::lines::lines_at(parent@, parent_lines@),
            b == crate::lines::lines_at(current@, current_lines@),
            a_mid == middle(a, equal_prefix as nat, equal_suffix as nat),
            b_mid == middle(b, equal_prefix as nat, equal_suffix as nat),
            crate::lines::ranges_within(parent@, parent_lines@),
            crate::lines::ranges_within(current@, current_lines@),
            a_mid.len() > 0 ==> equal_prefix + a_mid.len() <= parent_lines@.len() <= usize::MAX,
            b_mid.len() > 0 ==> equal_prefix + b_mid.len() <= current_lines@.len() <= usize::MAX,
            table_holds(matrix@, a_mid, b_mid, columns as int, rows as int, 1),
            lcs_trace(a_mid, b_mid, row as nat, column as nat) + pair_values(inner@).reverse()
                == whole,
        decreases row + column,
    {
        if steps % CPU_CANCELLATION_INTERVAL == 0 {
            check_cpu_cancellation(cancellation)?;
        }
        proof {
            lemma_cell(rows as int, columns as int, row - 1, column as int);
            lemma_cell(rows as int, columns as int, row as int, column - 1);
            assert(a_mid[row - 1] == a[equal_prefix + row - 1]);
            assert(b_mid[column - 1] == b[equal_prefix + column - 1]);
            assert(matrix@[cell(columns as int, row - 1, column as int)] == lcs_len(
                a_mid,
                b_mid,
                (row - 1) as nat,
                column as nat,
            ));
            assert(matrix@[cell(columns as int, row as int, column - 1)] == lcs_len(
                a_mid,
                b_mid,
                row as nat,
                (column - 1) as nat,
            ));
        }
        if same_line(
            parent,
            &parent_lines[equal_prefix + (row - 1)],
            current,
            &current_lines[equal_prefix + (column - 1)],
        ) {
            let ghost kept = inner@;
            inner.push((row - 1, column - 1));
            row -= 1;
            column -= 1;
            proof {
                assert(pair_values(inner@) =~= pair_values(kept).push((row as int, column as int)));
                assert(lcs_trace(a_mid, b_mid, row as nat, column as nat) + pair_values(
                    inner@,
                ).reverse() =~= whole);
            }
        } else if matrix[(row - 1) * columns + column] >= matrix[row * columns + (column - 1)] {
            row -= 1;
        } else {
            column -= 1;
        }
        steps = steps.saturating_add(1);
    }
    assert(pair_values(inner@).reverse() =~= whole);
    let ghost head = Seq::new(equal_prefix as nat, |k: int| (k, k));
    let ghost shifted = Seq::new(
        whole.len(),
        |k: int| (whole[k].0 + equal_prefix, whole[k].1 + equal_prefix),
    );
    let mut left: usize = inner.len();
    assert(pair_values(matches@) =~= head + shifted.subrange(0, 0));
    while left > 0
        invariant
            left <= inner@.len(),
            whole.len() == inner@.len(),
            pair_values(inner@).reverse() == whole,
            shifted == Seq::new(
                whole.len(),
                |k: int| (whole[k].0 + equal_prefix, whole[k].1 + equal_prefix),
            ),
            is_matching(a_mid, b_mid, whole, a_mid.len() as int, b_mid.len() as int),
            a_mid.len() > 0 ==> equal_prefix + a_mid.len() <= usize::MAX,
            b_mid.len() > 0 ==> equal_prefix + b_mid.len() <= usize::MAX,
            pair_values(matches@) == head + shifted.subrange(0, inner@.len() - left),
        decreases left,
    {
        left -= 1;
        let pair = inner[left];
        proof {
            let k = inner@.len() - 1 - left;
            assert(whole[k] == pair_values(inner@)[left as int]);
            assert(whole[k] == (pair.0 as int, pair.1 as int));
        }
        let ghost before = matches@;
        matches.push((equal_prefix + pair.0, equal_prefix + pair.1));
        assert(pair_values(matches@) =~= pair_values(before).push(
            shifted[inner@.len() - 1 - left],
        ));
        assert(pair_values(matches@) =~= head + shifted.subrange(0, inner@.len() - left));
    }
    assert(shifted.subrange(0, inner@.len() as int) =~= shifted);
    let ghost tail = Seq::new(
        equal_suffix as nat,
        |k: int| (a.len() - equal_suffix + k, b.len() - equal_suffix + k),
    );
    let mut line: usize = 0;
    assert(pair_values(matches@) =~= head + shifted + tail.subrange(0, 0));
    while line < equal_suffix
        invariant
            line <= equal_suffix,
            equal_suffix <= parent_lines@.len(),
            equal_suffix <= current_lines@.len(),
            a.len() == parent_lines@.len(),
            b.len() == current_lines@.len(),
            tail == Seq::new(
                equal_suffix as nat,
                |k: int| (a.len() - equal_suffix + k, b.len() - equal_suffix + k),
            ),
            pair_values(matches@) == head + shifted + tail.subrange(0, line as int),
        decreases equal_suffix - line,
    {
        let ghost before = matches@;
        matches.push(
            (
                parent_lines.len() - equal_suffix + line,
                current_lines.len() - equal_suffix + line,
            ),
        );
        assert(pair_values(matches@) =~= pair_values(before).push(tail[line as int]));
        line += 1;
        assert(pair_values(matches@) =~= head + shifted + tail.subrange(0, line as int));
    }
    assert(tail.subrange(0, equal_suffix as int) =~= tail);
    Ok(matches)
}

/// The line numbers that pairs of indices stand for.
pub open spec fn pair_values(pairs: Seq<(usize, usize)>) -> Seq<(int, int)> {
    pairs.map_values(|pair: (usize, usize)| (pair.0 as int, pair.1 as int))
}

} // verus!
