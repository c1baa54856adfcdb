use vstd::prelude::*;

use crate::error::Error;

verus! {

/// The byte between two components of a path.
pub const SEPARATOR: u8 = 47;

/// A repository path as raw bytes; the empty path names the root tree.
#[derive(Debug, PartialEq, Eq, Hash)]
pub struct GitPath {
    bytes: Vec<u8>,
}

impl View for GitPath {
    type V = Seq<u8>;

    closed spec fn view(&self) -> Seq<u8> {
        self.bytes@
    }
}

/// Where the component that starts at `start` ends.
pub open spec fn component_end(path: Seq<u8>, start: int) -> int
    decreases path.len() - start,
{
    if start < 0 || start >= path.len() || path[start] == SEPARATOR {
        start
    } else {
        component_end(path, start + 1)
    }
}

/// The components of a path from an offset on.
pub open spec fn components_from(path: Seq<u8>, start: int) -> Seq<Seq<u8>>
    decreases path.len() - start via components_from_decreases
{
    let end = component_end(path, start);
    if end < path.len() && end >= start && start >= 0 {
        seq![path.subrange(start, end)] + components_from(path, end + 1)
    } else {
        seq![path.subrange(start, end)]
    }
}

#[via_fn]
proof fn components_from_decreases(path: Seq<u8>, start: int) {
}

/// The components of a path; the root has none.
pub open spec fn components(path: Seq<u8>) -> Seq<Seq<u8>> {
    if path.len() == 0 {
        Seq::empty()
    } else {
        components_from(path, 0)
    }
}

/// Where the last component within the first `end` bytes begins.
pub open spec fn name_start(path: Seq<u8>, end: int) -> int
    decreases end,
{
    if end <= 0 || path[end - 1] == SEPARATOR {
        end
    } else {
        name_start(path, end - 1)
    }
}

/// The last component of a path; the root has none.
pub open spec fn file_name(path: Seq<u8>) -> Option<Seq<u8>> {
    if path.len() == 0 {
        None
    } else {
        Some(path.subrange(name_start(path, path.len() as int), path.len() as int))
    }
}

proof fn lemma_name_begins(path: Seq<u8>, end: int)
    requires
        0 <= end <= path.len(),
    ensures
        0 <= name_start(path, end) <= end,
        forall|k: int| name_start(path, end) <= k < end ==> #[trigger] path[k] != SEPARATOR,
        name_start(path, end) > 0 ==> path[name_start(path, end) - 1] == SEPARATOR,
    decreases end,
{
    if end > 0 && path[end - 1] != SEPARATOR {
        lemma_name_begins(path, end - 1);
    }
}

/// The name of a path is what stands behind its last slash: all of it where there is
/// none. Only the root has no name.
pub proof fn a_name_stands_behind_the_last_slash(path: Seq<u8>)
    ensures
        file_name(path) is None <==> path.len() == 0,
        file_name(path) matches Some(name) ==> {
            let start = path.len() - name.len();
            &&& start >= 0
            &&& path.subrange(start, path.len() as int) == name
            &&& forall|k: int| 0 <= k < name.len() ==> #[trigger] name[k] != 47
            &&& start > 0 ==> path[start - 1] == 47
        },
{
    if path.len() > 0 {
        lemma_name_begins(path, path.len() as int);
        let start = name_start(path, path.len() as int);
        let name = path.subrange(start, path.len() as int);
        assert forall|k: int| 0 <= k < name.len() implies #[trigger] name[k] != 47 by {
            assert(path[start + k] != SEPARATOR);
        }
    }
}

proof fn lemma_component_ends(path: Seq<u8>, start: int)
    requires
        0 <= start <= path.len(),
    ensures
        start <= component_end(path, start) <= path.len(),
        forall|k: int| start <= k < component_end(path, start) ==> #[trigger] path[k] != SEPARATOR,
        component_end(path, start) < path.len() ==> path[component_end(path, start)] == SEPARATOR,
    decreases path.len() - start,
{
    if start < path.len() && path[start] != SEPARATOR {
        lemma_component_ends(path, start + 1);
    }
}

/// A component ends at the next slash, or with the path where none follows; the last one
/// within a part of a path begins behind the last slash of that part.
pub proof fn where_components_begin_and_end(path: Seq<u8>, start: int)
    requires
        0 <= start <= path.len(),
    ensures
        start <= component_end(path, start) <= path.len(),
        forall|k: int| start <= k < component_end(path, start) ==> #[trigger] path[k] != 47,
        component_end(path, start) < path.len() ==> path[component_end(path, start)] == 47,
        0 <= name_start(path, start) <= start,
        forall|k: int| name_start(path, start) <= k < start ==> #[trigger] path[k] != 47,
        name_start(path, start) > 0 ==> path[name_start(path, start) - 1] == 47,
{
    lemma_component_ends(path, start);
    lemma_name_begins(path, start);
}

/// How many slashes a path holds from an index on.
pub open spec fn slashes(path: Seq<u8>, from: int) -> nat
    decreases path.len() - from,
{
    if from < 0 || from >= path.len() {
        0
    } else {
        slashes(path, from + 1) + (if path[from] == 47 {
            1nat
        } else {
            0nat
        })
    }
}

proof fn lemma_no_slash(path: Seq<u8>, from: int, to: int)
    requires
        0 <= from <= to <= path.len(),
        forall|k: int| from <= k < to ==> #[trigger] path[k] != 47,
    ensures
        slashes(path, from) == slashes(path, to),
    decreases to - from,
{
    if from < to {
        lemma_no_slash(path, from + 1, to);
    }
}

proof fn lemma_components(path: Seq<u8>, start: int)
    requires
        0 <= start <= path.len(),
    ensures
        components_from(path, start).len() == slashes(path, start) + 1,
        forall|i: int, k: int|
            0 <= i < components_from(path, start).len() && 0 <= k < components_from(
                path,
                start,
            )[i].len() ==> #[trigger] components_from(path, start)[i][k] != 47,
    decreases path.len() - start,
{
    let end = component_end(path, start);
    let all = components_from(path, start);
    lemma_component_ends(path, start);
    lemma_no_slash(path, start, end);
    let first = path.subrange(start, end);
    assert forall|k: int| 0 <= k < first.len() implies #[trigger] first[k] != 47 by {
        assert(path[start + k] != SEPARATOR);
    }
    if end < path.len() {
        lemma_components(path, end + 1);
        let rest = components_from(path, end + 1);
        assert(all == seq![first] + rest);
        assert forall|i: int, k: int|
            0 <= i < all.len() && 0 <= k < all[i].len() implies #[trigger] all[i][k] != 47 by {
            if i > 0 {
                assert(all[i] == rest[i - 1]);
                assert(rest[i - 1][k] != 47);
            } else {
                assert(all[0] == first);
                assert(first[k] != 47);
            }
        }
    } else {
        assert(all == seq![first]);
    }
}

/// A path has one component more than slashes, and no component holds a slash; the root
/// has none.
pub proof fn a_path_is_split_at_its_slashes(path: Seq<u8>)
    ensures
        path.len() == 0 ==> components(path).len() == 0,
        path.len() > 0 ==> components(path).len() == slashes(path, 0) + 1,
        forall|i: int, k: int|
            0 <= i < components(path).len() && 0 <= k < components(path)[i].len()
                ==> #[trigger] components(path)[i][k] != 47,
{
    if path.len() > 0 {
        lemma_components(path, 0);
    }
}

/// Paths are ordered by the first byte that differs, and one that the other continues
/// comes first.
pub proof fn paths_are_ordered_by_their_first_difference(a: Seq<u8>, b: Seq<u8>, at: int)
    requires
        0 <= at <= a.len(),
        0 <= at <= b.len(),
        forall|k: int| 0 <= k < at ==> a[k] == b[k],
    ensures
        at < a.len() && at < b.len() && a[at] < b[at] ==> path_less(a, b),
        at < a.len() && at < b.len() && a[at] > b[at] ==> !path_less(a, b),
        at == a.len() && at < b.len() ==> path_less(a, b),
        at == b.len() ==> !path_less(a, b),
{
    lemma_order_behind(a, b, at);
    let x = a.subrange(at, a.len() as int);
    let y = b.subrange(at, b.len() as int);
    if at < a.len() {
        assert(x[0] == a[at]);
    }
    if at < b.len() {
        assert(y[0] == b[at]);
    }
}

/// Byte-wise lexicographic order.
pub open spec fn path_less(a: Seq<u8>, b: Seq<u8>) -> bool
    decreases b.len(),
{
    if b.len() == 0 {
        false
    } else if a.len() == 0 {
        true
    } else if a[0] != b[0] {
        a[0] < b[0]
    } else {
        path_less(a.drop_first(), b.drop_first())
    }
}

/// Paths are totally ordered.
pub proof fn path_order_is_total(a: Seq<u8>, b: Seq<u8>)
    ensures
        !path_less(a, a),
        path_less(a, b) ==> !path_less(b, a) && a != b,
        !path_less(a, b) && !path_less(b, a) ==> a == b,
    decreases b.len() + a.len(),
{
    lemma_irreflexive(a);
    if a.len() > 0 && b.len() > 0 && a[0] == b[0] {
        path_order_is_total(a.drop_first(), b.drop_first());
        if a.drop_first() == b.drop_first() {
            assert(a =~= seq![a[0]] + a.drop_first());
            assert(b =~= seq![b[0]] + b.drop_first());
        }
    } else if a.len() == 0 && b.len() == 0 {
        assert(a =~= b);
    }
}

proof fn lemma_irreflexive(a: Seq<u8>)
    ensures
        !path_less(a, a),
    decreases a.len(),
{
    if a.len() > 0 {
        lemma_irreflexive(a.drop_first());
    }
}

/// The order of paths is transitive.
pub proof fn path_order_is_transitive(a: Seq<u8>, b: Seq<u8>, c: Seq<u8>)
    requires
        path_less(a, b),
        path_less(b, c),
    ensures
        path_less(a, c),
    decreases a.len() + b.len() + c.len(),
{
    if a.len() > 0 && b.len() > 0 && c.len() > 0 && a[0] == b[0] && b[0] == c[0] {
        path_order_is_transitive(a.drop_first(), b.drop_first(), c.drop_first());
    }
}

/// How one path sorts against another.
#[derive(Debug, Clone, Copy, PartialEq, Eq, Structural)]
pub enum PathOrder {
    Less,
    Equal,
    Greater,
}

pub open spec fn path_order(a: Seq<u8>, b: Seq<u8>) -> PathOrder {
    if path_less(a, b) {
        PathOrder::Less
    } else if a == b {
        PathOrder::Equal
    } else {
        PathOrder::Greater
    }
}

/// Two paths are told to be equal exactly if they are, and else which of them comes
/// first.
pub proof fn how_two_paths_compare(a: Seq<u8>, b: Seq<u8>)
    ensures
        path_order(a, b) == PathOrder::Equal <==> a == b,
        path_order(a, b) == PathOrder::Less <==> path_less(a, b),
        path_order(a, b) == PathOrder::Greater <==> path_less(b, a),
{
    path_order_is_total(a, b);
}

/// Whether two byte strings are equal.
pub fn same_bytes(a: &[u8], b: &[u8]) -> (result: bool)
    ensures
        result == (a@ == b@),
{
    if a.len() != b.len() {
        return false;
    }
    let mut at: usize = 0;
    while at < a.len()
        invariant
            at <= a@.len(),
            a@.len() == b@.len(),
            forall|k: int| 0 <= k < at ==> a@[k] == b@[k],
        decreases a@.len() - at,
    {
        if a[at] != b[at] {
            return false;
        }
        at += 1;
    }
    assert(a@ =~= b@);
    true
}

/// Copy a byte string.
pub fn copy_bytes(bytes: &[u8]) -> (result: Vec<u8>)
    ensures
        result@ == bytes@,
{
    let mut result: Vec<u8> = Vec::new();
    crate::lines::append_bytes(&mut result, bytes);
    assert(result@ =~= bytes@);
    result
}

proof fn lemma_order_behind(a: Seq<u8>, b: Seq<u8>, n: int)
    requires
        0 <= n <= a.len(),
        0 <= n <= b.len(),
        forall|k: int| 0 <= k < n ==> a[k] == b[k],
    ensures
        path_less(a, b) == path_less(
            a.subrange(n, a.len() as int),
            b.subrange(n, b.len() as int),
        ),
    decreases n,
{
    if n == 0 {
        assert(a.subrange(0, a.len() as int) =~= a);
        assert(b.subrange(0, b.len() as int) =~= b);
    } else {
        let a1 = a.drop_first();
        let b1 = b.drop_first();
        assert(a[0] == b[0]);
        assert forall|k: int| 0 <= k < n - 1 implies a1[k] == b1[k] by {
            assert(a[k + 1] == b[k + 1]);
        }
        lemma_order_behind(a1, b1, n - 1);
        assert(a1.subrange(n - 1, a1.len() as int) =~= a.subrange(n, a.len() as int));
        assert(b1.subrange(n - 1, b1.len() as int) =~= b.subrange(n, b.len() as int));
    }
}

/// How one byte string sorts against another.
pub fn compare_bytes(left: &[u8], right: &[u8]) -> (result: PathOrder)
    ensures
        result == path_order(left@, right@),
{
    let mut at: usize = 0;
    let ghost a = left@;
    let ghost b = right@;
    while at < left.len() && at < right.len() && left[at] == right[at]
        invariant
            a == left@,
            b == right@,
            at <= a.len(),
            at <= b.len(),
            forall|k: int| 0 <= k < at ==> a[k] == b[k],
        decreases a.len() - at,
    {
        at += 1;
    }
    proof {
        lemma_order_behind(a, b, at as int);
        path_order_is_total(a, b);
        let a_rest = a.subrange(at as int, a.len() as int);
        let b_rest = b.subrange(at as int, b.len() as int);
        if at < a.len() && at < b.len() {
            assert(a_rest[0] == a[at as int]);
            assert(b_rest[0] == b[at as int]);
        }
        if at == a.len() && at == b.len() {
            assert(a =~= b);
        } else {
            assert(a.len() == b.len() ==> a[at as int] != b[at as int]);
        }
    }
    if at < left.len() && at < right.len() {
        if left[at] < right[at] {
            PathOrder::Less
        } else {
            PathOrder::Greater
        }
    } else if at < right.len() {
        PathOrder::Less
    } else if at < left.len() {
        PathOrder::Greater
    } else {
        PathOrder::Equal
    }
}

impl GitPath {
    /// The path of the root tree.
    pub fn root() -> (result: GitPath)
        ensures
            result@ == Seq::<u8>::empty(),
    {
        GitPath { bytes: Vec::new() }
    }

    /// A path of the given bytes.
    pub fn from_bytes(bytes: Vec<u8>) -> (result: GitPath)
        ensures
            result@ == bytes@,
    {
        GitPath { bytes }
    }

    /// The exact bytes of the path.
    pub fn as_bytes(&self) -> (result: &[u8])
        ensures
            result@ == self@,
    {
        self.bytes.as_slice()
    }

    pub fn is_root(&self) -> (result: bool)
        ensures
            result == (self@.len() == 0),
    {
        self.bytes.len() == 0
    }

    /// Another value of the same path.
    pub fn duplicate(&self) -> (result: GitPath)
        ensures
            result@ == self@,
    {
        GitPath { bytes: copy_bytes(self.bytes.as_slice()) }
    }

    /// The end of the component that starts at an offset.
    pub fn end_of_component(&self, start: usize) -> (end: usize)
        requires
            start <= self@.len(),
        ensures
            end == component_end(self@, start as int),
            start <= end <= self@.len(),
    {
        let mut end: usize = start;
        while end < self.bytes.len() && self.bytes[end] != SEPARATOR
            invariant
                start <= end <= self.bytes@.len(),
                component_end(self@, start as int) == component_end(self@, end as int),
            decreases self.bytes@.len() - end,
        {
            end += 1;
        }
        end
    }

    /// Whether the last component is exactly the given name.
    pub fn has_name(&self, name: &[u8]) -> (result: bool)
        ensures
            result == (file_name(self@) == Some(name@)),
    {
        match self.name_offset() {
            None => false,
            Some(start) => same_bytes(&self.bytes.as_slice()[start..self.bytes.len()], name),
        }
    }

    /// The offset of the last component; the root has none.
    pub fn name_offset(&self) -> (result: Option<usize>)
        ensures
            match result {
                None => self@.len() == 0,
                Some(start) => self@.len() > 0 && start <= self@.len() && start == name_start(
                    self@,
                    self@.len() as int,
                ),
            },
    {
        if self.bytes.len() == 0 {
            return None;
        }
        let mut start: usize = self.bytes.len();
        while start > 0 && self.bytes[start - 1] != SEPARATOR
            invariant
                start <= self.bytes@.len(),
                name_start(self@, self@.len() as int) == name_start(self@, start as int),
            decreases start,
        {
            start -= 1;
        }
        Some(start)
    }

    /// The last component; the root has none.
    pub fn last_component(&self) -> (result: Option<Vec<u8>>)
        ensures
            match result {
                None => file_name(self@) is None,
                Some(name) => file_name(self@) == Some(name@),
            },
    {
        match self.name_offset() {
            None => None,
            Some(start) => Some(copy_bytes(&self.bytes.as_slice()[start..self.bytes.len()])),
        }
    }

    /// How this path sorts against another.
    pub fn order(&self, other: &GitPath) -> (result: PathOrder)
        ensures
            result == path_order(self@, other@),
    {
        compare_bytes(self.bytes.as_slice(), other.bytes.as_slice())
    }

    /// How many components the path has, as a traversal depth.
    pub fn depth(&self) -> (result: Result<u64, Error>)
        ensures
            result == (if components(self@).len() <= u64::MAX {
                Ok::<u64, Error>(components(self@).len() as u64)
            } else {
                Err(crate::path::too_deep())
            }),
    {
        if self.bytes.len() == 0 {
            return Ok(0);
        }
        let mut depth: u64 = 1;
        let mut start: usize = 0;
        let mut end: usize = self.end_of_component(start);
        while end < self.bytes.len()
            invariant
                start <= end <= self.bytes@.len(),
                end == component_end(self@, start as int),
                components(self@).len() == depth - 1 + components_from(self@, start as int).len(),
            decreases self.bytes@.len() - start,
        {
            start = end + 1;
            assert(components_from(self@, start as int).len() >= 1);
            depth = next_depth(depth)?;
            end = self.end_of_component(start);
        }
        Ok(depth)
    }
}

/// The error that reports a traversal deeper than can be counted.
pub open spec fn too_deep() -> Error {
    Error::LimitExceeded { limit: "traversal depth", actual: u64::MAX, maximum: u64::MAX }
}

/// What lies deeper than can be counted is reported as past the depth of a traversal.
pub proof fn how_too_deep_a_path_is_reported()
    ensures
        too_deep() == (Error::LimitExceeded {
            limit: "traversal depth",
            actual: u64::MAX,
            maximum: u64::MAX,
        }),
{
}

/// The depth below a given depth.
pub fn next_depth(depth: u64) -> (result: Result<u64, Error>)
    ensures
        result == (if depth < u64::MAX {
            Ok::<u64, Error>((depth + 1) as u64)
        } else {
            Err(too_deep())
        }),
{
    match depth.checked_add(1) {
        Some(next) => Ok(next),
        None => Err(
            Error::LimitExceeded { limit: "traversal depth", actual: u64::MAX, maximum: u64::MAX },
        ),
    }
}

} // verus!
