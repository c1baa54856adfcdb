use vstd::prelude::*;

use crate::archive::{ArchiveBuilder, ArchiveEntry, ArchiveWalk};
use crate::compare::{ChangeModel, CompareWalk, Side, TreeChange};
use crate::entry::{Lookup, TreeStore};
use crate::model::{ChangeKind, TreeEntry};
use crate::oid::{EntryKind, ObjectId};
use crate::path::SEPARATOR;
use crate::sort::Pathed;

verus! {

/// What the paths of a directory's entries begin with.
pub open spec fn prefix_of(parent: Seq<u8>) -> Seq<u8> {
    if parent.len() == 0 {
        parent
    } else {
        parent.push(SEPARATOR)
    }
}

/// Whether a path is that of an immediate child of a directory.
pub open spec fn is_child(parent: Seq<u8>, path: Seq<u8>) -> bool {
    let base = prefix_of(parent).len();
    &&& path.len() > base
    &&& path.subrange(0, base as int) == prefix_of(parent)
    &&& forall|k: int| base <= k < path.len() ==> #[trigger] path[k] != SEPARATOR
}

/// Whether a path is another one or lies below it.
pub open spec fn at_or_below(path: Seq<u8>, other: Seq<u8>) -> bool {
    other == path || (other.len() > path.len() && other.subrange(0, path.len() as int) == path
        && other[path.len() as int] == SEPARATOR)
}

/// Whether a path lies below a directory.
pub open spec fn below(parent: Seq<u8>, path: Seq<u8>) -> bool {
    exists|child: Seq<u8>| is_child(parent, child) && #[trigger] at_or_below(child, path)
}

/// Whether entries are those of one directory: immediate children, none repeated.
pub open spec fn is_listing(parent: Seq<u8>, entries: Seq<TreeEntry>) -> bool {
    &&& crate::compare::paths_are_distinct(entries)
    &&& forall|i: int| 0 <= i < entries.len() ==> is_child(parent, (#[trigger] entries[i]).path@)
}

/// Whether a store lists every tree under the path that it is asked for, and no tree
/// repeats a path.
pub open spec fn lists_paths(trees: TreeStore) -> bool {
    forall|oid: ObjectId, parent: Seq<u8>| is_listing(parent, #[trigger] trees[(oid, parent)])
}

proof fn lemma_one_child(parent: Seq<u8>, a: Seq<u8>, b: Seq<u8>, path: Seq<u8>)
    requires
        is_child(parent, a),
        is_child(parent, b),
        at_or_below(a, path),
        at_or_below(b, path),
    ensures
        a == b,
{
    assert(path.subrange(0, a.len() as int) =~= a);
    assert(path.subrange(0, b.len() as int) =~= b);
    if a.len() < b.len() {
        assert(b[a.len() as int] == path[a.len() as int]);
    }
    if b.len() < a.len() {
        assert(a[b.len() as int] == path[b.len() as int]);
    }
}

proof fn lemma_below_directory(parent: Seq<u8>, path: Seq<u8>)
    requires
        parent.len() > 0,
        below(parent, path),
    ensures
        at_or_below(parent, path),
        path != parent,
{
    let child = choose|child: Seq<u8>| is_child(parent, child) && #[trigger] at_or_below(child, path);
    assert(path.subrange(0, child.len() as int) =~= child);
    let prefix = prefix_of(parent);
    assert(child.subrange(0, prefix.len() as int) == prefix);
    assert forall|k: int| 0 <= k < prefix.len() implies path[k] == prefix[k] by {
        assert(path[k] == path.subrange(0, child.len() as int)[k]);
        assert(child[k] == child.subrange(0, prefix.len() as int)[k]);
    }
    assert(path.subrange(0, parent.len() as int) =~= parent);
    assert(path[parent.len() as int] == prefix[parent.len() as int]);
}

/// Some entry stands at a path or above it.
spec fn covered(entries: Seq<TreeEntry>, path: Seq<u8>) -> bool {
    exists|k: int| 0 <= k < entries.len() && at_or_below((#[trigger] entries[k]).path@, path)
}

proof fn lemma_covered_is_below(parent: Seq<u8>, entries: Seq<TreeEntry>, path: Seq<u8>)
    requires
        is_listing(parent, entries),
        covered(entries, path),
    ensures
        below(parent, path),
{
    let k = choose|k: int| 0 <= k < entries.len() && at_or_below((#[trigger] entries[k]).path@, path);
    assert(is_child(parent, entries[k].path@));
    assert(at_or_below(entries[k].path@, path));
}

proof fn lemma_rest_is_listing(parent: Seq<u8>, entries: Seq<TreeEntry>)
    requires
        is_listing(parent, entries),
        entries.len() > 0,
    ensures
        is_listing(parent, entries.drop_first()),
        forall|path: Seq<u8>| #[trigger]
            covered(entries.drop_first(), path) ==> covered(entries, path),
        forall|path: Seq<u8>|
            covered(entries.drop_first(), path) ==> !#[trigger] at_or_below(entries[0].path@, path),
{
    let rest = entries.drop_first();
    assert forall|i: int, j: int| 0 <= i < j < rest.len() implies (#[trigger] rest[i]).path@ != (
    #[trigger] rest[j]).path@ by {
        assert(rest[i] == entries[i + 1]);
        assert(rest[j] == entries[j + 1]);
    }
    assert forall|i: int| 0 <= i < rest.len() implies is_child(
        parent,
        (#[trigger] rest[i]).path@,
    ) by {
        assert(rest[i] == entries[i + 1]);
    }
    assert forall|path: Seq<u8>| #[trigger] covered(rest, path) implies covered(entries, path) by {
        let k = choose|k: int| 0 <= k < rest.len() && at_or_below((#[trigger] rest[k]).path@, path);
        assert(entries[k + 1] == rest[k]);
        assert(at_or_below(entries[k + 1].path@, path));
    }
    assert forall|path: Seq<u8>| covered(rest, path) implies !#[trigger] at_or_below(
        entries[0].path@,
        path,
    ) by {
        if at_or_below(entries[0].path@, path) {
            let k = choose|k: int|
                0 <= k < rest.len() && at_or_below((#[trigger] rest[k]).path@, path);
            assert(rest[k] == entries[k + 1]);
            lemma_one_child(parent, entries[0].path@, rest[k].path@, path);
            assert(entries[0].path@ != entries[k + 1].path@);
        }
    }
}

proof fn lemma_entry_paths(trees: TreeStore, entry: TreeEntry, depth: nat)
    requires
        lists_paths(trees),
        entry.path@.len() > 0,
    ensures
        crate::compare::paths_are_distinct(crate::archive::entry_output(trees, entry, depth)),
        forall|i: int|
            0 <= i < crate::archive::entry_output(trees, entry, depth).len() ==> at_or_below(
                entry.path@,
                (#[trigger] crate::archive::entry_output(trees, entry, depth)[i]).path@,
            ),
    decreases u64::MAX - depth, 0nat, 1nat,
{
    let all = crate::archive::entry_output(trees, entry, depth);
    if entry.kind == EntryKind::Tree && depth < u64::MAX {
        let list = trees[(entry.oid, entry.path@)];
        let rest = crate::archive::entries_output(trees, list, depth + 1);
        lemma_entries_paths(trees, entry.path@, list, depth + 1);
        assert forall|i: int| 0 <= i < rest.len() implies at_or_below(
            entry.path@,
            (#[trigger] rest[i]).path@,
        ) && rest[i].path@ != entry.path@ by {
            lemma_covered_is_below(entry.path@, list, rest[i].path@);
            lemma_below_directory(entry.path@, rest[i].path@);
        }
        assert forall|i: int| 0 <= i < all.len() implies at_or_below(
            entry.path@,
            (#[trigger] all[i]).path@,
        ) by {
            if i > 0 {
                assert(all[i] == rest[i - 1]);
            }
        }
        assert forall|i: int, j: int| 0 <= i < j < all.len() implies (#[trigger] all[i]).path@ != (
        #[trigger] all[j]).path@ by {
            assert(all[j] == rest[j - 1]);
            if i > 0 {
                assert(all[i] == rest[i - 1]);
            }
        }
    }
}

proof fn lemma_entries_paths(
    trees: TreeStore,
    parent: Seq<u8>,
    entries: Seq<TreeEntry>,
    depth: nat,
)
    requires
        lists_paths(trees),
        is_listing(parent, entries),
    ensures
        crate::compare::paths_are_distinct(crate::archive::entries_output(trees, entries, depth)),
        forall|i: int|
            0 <= i < crate::archive::entries_output(trees, entries, depth).len() ==> covered(
                entries,
                (#[trigger] crate::archive::entries_output(trees, entries, depth)[i]).path@,
            ),
    decreases u64::MAX - depth, entries.len() + 1, 0nat,
{
    if entries.len() > 0 {
        let first = crate::archive::entry_output(trees, entries[0], depth);
        let rest = crate::archive::entries_output(trees, entries.drop_first(), depth);
        let all = crate::archive::entries_output(trees, entries, depth);
        assert(is_child(parent, entries[0].path@));
        lemma_entry_paths(trees, entries[0], depth);
        lemma_rest_is_listing(parent, entries);
        lemma_entries_paths(trees, parent, entries.drop_first(), depth);
        assert forall|i: int| 0 <= i < all.len() implies covered(
            entries,
            (#[trigger] all[i]).path@,
        ) by {
            if i < first.len() {
                assert(all[i] == first[i]);
                assert(at_or_below(entries[0].path@, all[i].path@));
            } else {
                assert(all[i] == rest[i - first.len()]);
            }
        }
        assert forall|i: int, j: int| 0 <= i < j < all.len() implies (#[trigger] all[i]).path@ != (
        #[trigger] all[j]).path@ by {
            if j < first.len() {
                assert(all[i] == first[i] && all[j] == first[j]);
            } else if i < first.len() {
                assert(all[i] == first[i]);
                assert(all[j] == rest[j - first.len()]);
                assert(covered(entries.drop_first(), all[j].path@));
                assert(at_or_below(entries[0].path@, all[i].path@));
            } else {
                assert(all[i] == rest[i - first.len()]);
                assert(all[j] == rest[j - first.len()]);
            }
        }
    }
}

/// No path is archived twice where no tree repeats a path.
pub proof fn archived_paths_are_distinct(trees: TreeStore, root: ObjectId)
    requires
        lists_paths(trees),
    ensures
        crate::compare::paths_are_distinct(crate::archive::archive_order(trees, root)),
{
    lemma_entries_paths(trees, Seq::empty(), trees[(root, Seq::empty())], 1);
}

/// A finished archive lists its paths in strictly ascending order where no tree repeats
/// a path.
pub proof fn archive_is_strictly_ascending(
    builder: ArchiveBuilder,
    trees: TreeStore,
    entries: Seq<ArchiveEntry>,
)
    requires
        lists_paths(trees),
        crate::replies::answers(builder.log(), trees),
        builder.complete(),
        crate::archive::stands_for(builder.built(), builder.shown()),
        crate::sort::in_path_order(entries),
        crate::sort::same_at_every_path(entries, builder.built()),
    ensures
        crate::sort::strictly_ascending(entries),
        forall|i: int, j: int|
            0 <= i < j < entries.len() ==> crate::path::path_less(
                (#[trigger] entries[i]).path@,
                (#[trigger] entries[j]).path@,
            ),
{
    broadcast use vstd::seq_lib::group_to_multiset_ensures;

    let all = crate::archive::archive_order(trees, builder.root());
    let shown = builder.shown();
    let built = builder.built();
    archived_paths_are_distinct(trees, builder.root());
    assert(all.no_duplicates()) by {
        assert forall|i: int, j: int| 0 <= i < all.len() && 0 <= j < all.len() && i != j implies
            all[i] != all[j] by {
            if i < j {
                assert(all[i].path@ != all[j].path@);
            } else {
                assert(all[j].path@ != all[i].path@);
            }
        }
    }
    all.lemma_multiset_has_no_duplicates();
    assert(shown.to_multiset() == all.to_multiset());
    assert forall|i: int, j: int| 0 <= i < j < built.len() implies (#[trigger] built[i]).at() != (
    #[trigger] built[j]).at() by {
        assert(built[i].holds(shown[i], built[i].bytes));
        assert(built[j].holds(shown[j], built[j].bytes));
        assert(shown.to_multiset().contains(shown[i]));
        assert(shown.to_multiset().contains(shown[j]));
        assert(all.contains(shown[i]) && all.contains(shown[j]));
        let a = choose|a: int| 0 <= a < all.len() && all[a] == shown[i];
        let b = choose|b: int| 0 <= b < all.len() && all[b] == shown[j];
        if shown[i].path@ == shown[j].path@ {
            if a < b {
                assert(all[a].path@ != all[b].path@);
            } else if b < a {
                assert(all[b].path@ != all[a].path@);
            } else {
                shown.lemma_multiset_has_no_duplicates_conv();
            }
        }
    }
    crate::sort::distinct_paths_ascend_strictly(entries, built);
}

/// A finished stream shows no path twice where no tree repeats a path.
pub proof fn streamed_paths_are_distinct(walk: ArchiveWalk, trees: TreeStore)
    requires
        lists_paths(trees),
        crate::replies::answers(walk.log(), trees),
        walk.complete(),
    ensures
        crate::compare::paths_are_distinct(walk.shown()),
{
    archived_paths_are_distinct(trees, walk.root());
}

proof fn lemma_below_again(a: Seq<u8>, b: Seq<u8>, c: Seq<u8>)
    requires
        at_or_below(a, b),
        at_or_below(b, c),
    ensures
        at_or_below(a, c),
{
    if b.len() < c.len() {
        assert(c.subrange(0, b.len() as int) =~= b);
        if a.len() < b.len() {
            assert(c.subrange(0, a.len() as int) =~= b.subrange(0, a.len() as int));
            assert(c[a.len() as int] == b[a.len() as int]);
        }
    }
}

proof fn lemma_child_is_below(parent: Seq<u8>, child: Seq<u8>)
    requires
        parent.len() > 0,
        is_child(parent, child),
    ensures
        at_or_below(parent, child),
        child.len() > parent.len(),
{
    let prefix = prefix_of(parent);
    assert(child.subrange(0, prefix.len() as int) == prefix);
    assert(child.subrange(0, parent.len() as int) =~= parent) by {
        assert forall|k: int| 0 <= k < parent.len() implies child[k] == parent[k] by {
            assert(child.subrange(0, prefix.len() as int)[k] == prefix[k]);
        }
    }
    assert(child.subrange(0, prefix.len() as int)[parent.len() as int] == SEPARATOR);
}

/// Whether what lies below an entry follows it without a gap.
pub open spec fn contents_follow(all: Seq<TreeEntry>) -> bool {
    &&& forall|i: int, j: int|
        0 <= i < all.len() && 0 <= j < all.len() && #[trigger] at_or_below(
            all[i].path@,
            all[j].path@,
        ) ==> i <= j
    &&& forall|i: int, k: int, j: int|
        #![trigger at_or_below(all[i].path@, all[j].path@), all[k]]
        0 <= i <= k <= j < all.len() && at_or_below(all[i].path@, all[j].path@) ==> at_or_below(
            all[i].path@,
            all[k].path@,
        )
}

proof fn lemma_entry_contents(trees: TreeStore, entry: TreeEntry, depth: nat)
    requires
        lists_paths(trees),
        entry.path@.len() > 0,
    ensures
        contents_follow(crate::archive::entry_output(trees, entry, depth)),
    decreases u64::MAX - depth, 0nat, 1nat,
{
    let all = crate::archive::entry_output(trees, entry, depth);
    lemma_entry_paths(trees, entry, depth);
    if entry.kind == EntryKind::Tree && depth < u64::MAX {
        let list = trees[(entry.oid, entry.path@)];
        let rest = crate::archive::entries_output(trees, list, depth + 1);
        lemma_entries_contents(trees, entry.path@, list, depth + 1);
        assert forall|i: int| 0 < i < all.len() implies #[trigger] all[i] == rest[i - 1] by {}
        assert(all[0] == entry);
        assert forall|i: int, j: int|
            0 <= i < all.len() && 0 <= j < all.len() && #[trigger] at_or_below(
                all[i].path@,
                all[j].path@,
            ) implies i <= j by {
            if i > 0 && j > 0 {
                assert(at_or_below(rest[i - 1].path@, rest[j - 1].path@));
            } else if i > 0 {
                assert(at_or_below(entry.path@, all[i].path@));
                assert(all[0].path@ != all[i].path@);
            }
        }
        assert forall|i: int, k: int, j: int|
            #![trigger at_or_below(all[i].path@, all[j].path@), all[k]]
            0 <= i <= k <= j < all.len() && at_or_below(
                all[i].path@,
                all[j].path@,
            ) implies at_or_below(all[i].path@, all[k].path@) by {
            assert(at_or_below(entry.path@, all[k].path@));
            if i > 0 {
                assert(at_or_below(rest[i - 1].path@, rest[j - 1].path@));
                assert(rest[k - 1] == all[k]);
            }
        }
    }
}

proof fn lemma_entries_contents(
    trees: TreeStore,
    parent: Seq<u8>,
    entries: Seq<TreeEntry>,
    depth: nat,
)
    requires
        lists_paths(trees),
        is_listing(parent, entries),
    ensures
        contents_follow(crate::archive::entries_output(trees, entries, depth)),
    decreases u64::MAX - depth, entries.len() + 1, 0nat,
{
    if entries.len() > 0 {
        let first = crate::archive::entry_output(trees, entries[0], depth);
        let rest = crate::archive::entries_output(trees, entries.drop_first(), depth);
        let all = crate::archive::entries_output(trees, entries, depth);
        assert(is_child(parent, entries[0].path@));
        lemma_entry_paths(trees, entries[0], depth);
        lemma_entry_contents(trees, entries[0], depth);
        lemma_rest_is_listing(parent, entries);
        lemma_entries_paths(trees, parent, entries.drop_first(), depth);
        lemma_entries_contents(trees, parent, entries.drop_first(), depth);
        let size = first.len();
        assert forall|i: int| 0 <= i < size implies #[trigger] all[i] == first[i] by {}
        assert forall|i: int| size <= i < all.len() implies #[trigger] all[i] == rest[i
            - size] by {}
        assert forall|i: int, j: int|
            0 <= i < all.len() && 0 <= j < all.len() && #[trigger] at_or_below(
                all[i].path@,
                all[j].path@,
            ) implies (i < size <==> j < size) by {
            if i < size && j >= size {
                assert(at_or_below(entries[0].path@, first[i].path@));
                lemma_below_again(entries[0].path@, all[i].path@, all[j].path@);
                assert(covered(entries.drop_first(), rest[j - size].path@));
            }
            if i >= size && j < size {
                let others = entries.drop_first();
                assert(covered(others, rest[i - size].path@));
                let k = choose|k: int|
                    0 <= k < others.len() && at_or_below(
                        (#[trigger] others[k]).path@,
                        all[i].path@,
                    );
                lemma_below_again(others[k].path@, all[i].path@, all[j].path@);
                assert(covered(others, all[j].path@));
                assert(at_or_below(entries[0].path@, first[j].path@));
            }
        }
        lemma_contents_join(first, rest, all);
    }
}

proof fn lemma_contents_join(first: Seq<TreeEntry>, rest: Seq<TreeEntry>, all: Seq<TreeEntry>)
    requires
        all == first + rest,
        contents_follow(first),
        contents_follow(rest),
        forall|i: int, j: int|
            0 <= i < all.len() && 0 <= j < all.len() && #[trigger] at_or_below(
                all[i].path@,
                all[j].path@,
            ) ==> (i < first.len() <==> j < first.len()),
    ensures
        contents_follow(all),
{
    let size = first.len();
    assert forall|i: int, j: int|
        0 <= i < all.len() && 0 <= j < all.len() && #[trigger] at_or_below(
            all[i].path@,
            all[j].path@,
        ) implies i <= j by {
        if i < size {
            assert(all[i] == first[i] && all[j] == first[j]);
            assert(at_or_below(first[i].path@, first[j].path@));
        } else {
            assert(all[i] == rest[i - size] && all[j] == rest[j - size]);
            assert(at_or_below(rest[i - size].path@, rest[j - size].path@));
        }
    }
    assert forall|i: int, k: int, j: int|
        #![trigger at_or_below(all[i].path@, all[j].path@), all[k]]
        0 <= i <= k <= j < all.len() && at_or_below(
            all[i].path@,
            all[j].path@,
        ) implies at_or_below(all[i].path@, all[k].path@) by {
        if i < size {
            assert(all[i] == first[i] && all[j] == first[j] && all[k] == first[k]);
            assert(at_or_below(first[i].path@, first[j].path@));
        } else {
            assert(all[i] == rest[i - size] && all[j] == rest[j - size] && all[k] == rest[k
                - size]);
            assert(at_or_below(rest[i - size].path@, rest[j - size].path@));
        }
    }
}

/// A finished stream shows every directory before what it contains, and everything in
/// it before anything else, where no tree repeats a path.
pub proof fn a_stream_shows_a_directory_and_then_its_contents(walk: ArchiveWalk, trees: TreeStore)
    requires
        lists_paths(trees),
        crate::replies::answers(walk.log(), trees),
        walk.complete(),
    ensures
        contents_follow(walk.shown()),
{
    lemma_entries_contents(trees, Seq::empty(), trees[(walk.root(), Seq::empty())], 1);
}

/// Whether the entries of a list come in its order.
pub open spec fn keeps_order(list: Seq<TreeEntry>, all: Seq<TreeEntry>) -> bool {
    forall|p: int, q: int, i: int, j: int|
        #![trigger list[p], list[q], all[i], all[j]]
        0 <= p < q < list.len() && 0 <= i < all.len() && 0 <= j < all.len() && all[i] == list[p]
            && all[j] == list[q] ==> i < j
}

proof fn lemma_own_order(
    trees: TreeStore,
    parent: Seq<u8>,
    entries: Seq<TreeEntry>,
    depth: nat,
)
    requires
        lists_paths(trees),
        is_listing(parent, entries),
    ensures
        keeps_order(entries, crate::archive::entries_output(trees, entries, depth)),
    decreases entries.len(),
{
    if entries.len() > 0 {
        let first = crate::archive::entry_output(trees, entries[0], depth);
        let others = entries.drop_first();
        let rest = crate::archive::entries_output(trees, others, depth);
        let all = crate::archive::entries_output(trees, entries, depth);
        assert(is_child(parent, entries[0].path@));
        lemma_entry_paths(trees, entries[0], depth);
        lemma_rest_is_listing(parent, entries);
        lemma_entries_paths(trees, parent, others, depth);
        lemma_own_order(trees, parent, others, depth);
        let size = first.len();
        assert forall|p: int, i: int|
            0 <= p < entries.len() && 0 <= i < all.len() && (#[trigger] all[i]) == (
            #[trigger] entries[p]) implies (i < size <==> p == 0) by {
            assert(is_child(parent, entries[p].path@));
            if i < size {
                assert(all[i] == first[i]);
                assert(at_or_below(entries[0].path@, first[i].path@));
                lemma_one_child(parent, entries[0].path@, entries[p].path@, entries[p].path@);
            } else {
                assert(all[i] == rest[i - size]);
                assert(covered(others, rest[i - size].path@));
                assert(!at_or_below(entries[0].path@, all[i].path@));
            }
        }
        assert forall|p: int, q: int, i: int, j: int|
            #![trigger entries[p], entries[q], all[i], all[j]]
            0 <= p < q < entries.len() && 0 <= i < all.len() && 0 <= j < all.len() && all[i]
                == entries[p] && all[j] == entries[q] implies i < j by {
            if p > 0 {
                assert(others[p - 1] == entries[p] && others[q - 1] == entries[q]);
                assert(rest[i - size] == all[i] && rest[j - size] == all[j]);
            }
        }
    }
}

proof fn lemma_entry_order(trees: TreeStore, entry: TreeEntry, depth: nat, directory: TreeEntry)
    requires
        lists_paths(trees),
        entry.path@.len() > 0,
        crate::archive::entry_output(trees, entry, depth).contains(directory),
    ensures
        keeps_order(
            trees[(directory.oid, directory.path@)],
            crate::archive::entry_output(trees, entry, depth),
        ),
    decreases u64::MAX - depth, 0nat, 1nat,
{
    let all = crate::archive::entry_output(trees, entry, depth);
    let list = trees[(directory.oid, directory.path@)];
    assert(is_listing(directory.path@, list));
    lemma_entry_paths(trees, entry, depth);
    let at = choose|at: int| 0 <= at < all.len() && all[at] == directory;
    assert(at_or_below(entry.path@, all[at].path@));
    assert forall|p: int| 0 <= p < list.len() implies (#[trigger] list[p]).path@.len()
        > entry.path@.len() by {
        assert(is_child(directory.path@, list[p].path@));
        lemma_child_is_below(directory.path@, list[p].path@);
    }
    assert(all[0] == entry);
    if entry.kind == EntryKind::Tree && depth < u64::MAX {
        let inside = trees[(entry.oid, entry.path@)];
        let rest = crate::archive::entries_output(trees, inside, depth + 1);
        assert(is_listing(entry.path@, inside));
        if at == 0 {
            lemma_own_order(trees, entry.path@, inside, depth + 1);
        } else {
            assert(rest[at - 1] == directory);
            lemma_entries_order(trees, entry.path@, inside, depth + 1, directory);
        }
        assert forall|p: int, q: int, i: int, j: int|
            #![trigger list[p], list[q], all[i], all[j]]
            0 <= p < q < list.len() && 0 <= i < all.len() && 0 <= j < all.len() && all[i]
                == list[p] && all[j] == list[q] implies i < j by {
            assert(i > 0 && j > 0);
            assert(rest[i - 1] == all[i] && rest[j - 1] == all[j]);
        }
    } else {
        assert(all.len() == 1);
    }
}

proof fn lemma_entries_order(
    trees: TreeStore,
    parent: Seq<u8>,
    entries: Seq<TreeEntry>,
    depth: nat,
    directory: TreeEntry,
)
    requires
        lists_paths(trees),
        is_listing(parent, entries),
        crate::archive::entries_output(trees, entries, depth).contains(directory),
    ensures
        keeps_order(
            trees[(directory.oid, directory.path@)],
            crate::archive::entries_output(trees, entries, depth),
        ),
    decreases u64::MAX - depth, entries.len() + 1, 0nat,
{
    let all = crate::archive::entries_output(trees, entries, depth);
    let list = trees[(directory.oid, directory.path@)];
    let at = choose|at: int| 0 <= at < all.len() && all[at] == directory;
    let first = crate::archive::entry_output(trees, entries[0], depth);
    let others = entries.drop_first();
    let rest = crate::archive::entries_output(trees, others, depth);
    let size = first.len();
    assert(is_listing(directory.path@, list));
    assert(is_child(parent, entries[0].path@));
    lemma_entry_paths(trees, entries[0], depth);
    lemma_rest_is_listing(parent, entries);
    lemma_entries_paths(trees, parent, entries, depth);
    lemma_entries_paths(trees, parent, others, depth);
    assert(covered(entries, all[at].path@));
    assert(directory.path@.len() > 0) by {
        let k = choose|k: int|
            0 <= k < entries.len() && at_or_below((#[trigger] entries[k]).path@, all[at].path@);
        assert(is_child(parent, entries[k].path@));
    }
    assert forall|p: int| 0 <= p < list.len() implies at_or_below(
        directory.path@,
        (#[trigger] list[p]).path@,
    ) by {
        assert(is_child(directory.path@, list[p].path@));
        lemma_child_is_below(directory.path@, list[p].path@);
    }
    if at < size {
        assert(first[at] == directory);
        lemma_entry_order(trees, entries[0], depth, directory);
    } else {
        assert(rest[at - size] == directory);
        lemma_entries_order(trees, parent, others, depth, directory);
    }
    assert forall|p: int, i: int|
        0 <= p < list.len() && 0 <= i < all.len() && (#[trigger] all[i]) == (
        #[trigger] list[p]) implies (i < size <==> at < size) by {
        if at < size {
            assert(at_or_below(entries[0].path@, first[at].path@));
            lemma_below_again(entries[0].path@, directory.path@, list[p].path@);
            if i >= size {
                assert(rest[i - size] == all[i]);
                assert(covered(others, rest[i - size].path@));
            }
        } else if i < size {
            assert(covered(others, rest[at - size].path@));
            let k = choose|k: int|
                0 <= k < others.len() && at_or_below(
                    (#[trigger] others[k]).path@,
                    directory.path@,
                );
            lemma_below_again(others[k].path@, directory.path@, list[p].path@);
            assert(covered(others, list[p].path@));
            assert(first[i] == all[i]);
            assert(at_or_below(entries[0].path@, first[i].path@));
        }
    }
    assert forall|p: int, q: int, i: int, j: int|
        #![trigger list[p], list[q], all[i], all[j]]
        0 <= p < q < list.len() && 0 <= i < all.len() && 0 <= j < all.len() && all[i] == list[p]
            && all[j] == list[q] implies i < j by {
        if at < size {
            assert(first[i] == all[i] && first[j] == all[j]);
        } else {
            assert(rest[i - size] == all[i] && rest[j - size] == all[j]);
        }
    }
}

/// A finished stream shows the entries of every directory, the root too, in the order in
/// which its tree lists them, where no tree repeats a path.
pub proof fn a_stream_shows_a_directory_in_its_own_order(walk: ArchiveWalk, trees: TreeStore)
    requires
        lists_paths(trees),
        crate::replies::answers(walk.log(), trees),
        walk.complete(),
    ensures
        keeps_order(trees[(walk.root(), Seq::empty())], walk.shown()),
        forall|i: int|
            0 <= i < walk.shown().len() ==> keeps_order(
                trees[((#[trigger] walk.shown()[i]).oid, walk.shown()[i].path@)],
                walk.shown(),
            ),
{
    let none = Seq::<u8>::empty();
    let top = trees[(walk.root(), none)];
    assert(is_listing(none, top));
    lemma_own_order(trees, none, top, 1);
    assert forall|i: int| 0 <= i < walk.shown().len() implies keeps_order(
        trees[((#[trigger] walk.shown()[i]).oid, walk.shown()[i].path@)],
        walk.shown(),
    ) by {
        lemma_entries_order(trees, none, top, 1, walk.shown()[i]);
    }
}

/// No two changes share a path.
pub open spec fn changes_are_apart(changes: Seq<ChangeModel>) -> bool {
    forall|i: int, j: int|
        0 <= i < j < changes.len() ==> (#[trigger] changes[i]).path != (
        #[trigger] changes[j]).path
}

spec fn all_at_or_below(path: Seq<u8>, changes: Seq<ChangeModel>) -> bool {
    forall|i: int|
        0 <= i < changes.len() ==> at_or_below(path, (#[trigger] changes[i]).path)
}

spec fn all_covered(base: Seq<TreeEntry>, head: Seq<TreeEntry>, changes: Seq<ChangeModel>) -> bool {
    forall|i: int|
        0 <= i < changes.len() ==> covered(base, (#[trigger] changes[i]).path) || covered(
            head,
            changes[i].path,
        )
}

spec fn are_children(parent: Seq<u8>, entries: Seq<TreeEntry>) -> bool {
    forall|i: int| 0 <= i < entries.len() ==> is_child(parent, (#[trigger] entries[i]).path@)
}

spec fn stands_elsewhere(path: Seq<u8>, entries: Seq<TreeEntry>) -> bool {
    forall|i: int| 0 <= i < entries.len() ==> (#[trigger] entries[i]).path@ != path
}

proof fn lemma_covered_elsewhere(
    parent: Seq<u8>,
    child: Seq<u8>,
    entries: Seq<TreeEntry>,
    path: Seq<u8>,
)
    requires
        is_child(parent, child),
        are_children(parent, entries),
        stands_elsewhere(child, entries),
        covered(entries, path),
    ensures
        !at_or_below(child, path),
{
    let k = choose|k: int| 0 <= k < entries.len() && at_or_below((#[trigger] entries[k]).path@, path);
    if at_or_below(child, path) {
        lemma_one_child(parent, child, entries[k].path@, path);
    }
}

proof fn lemma_changes_stay_apart(
    parent: Seq<u8>,
    child: Seq<u8>,
    here: Seq<ChangeModel>,
    base: Seq<TreeEntry>,
    head: Seq<TreeEntry>,
    there: Seq<ChangeModel>,
)
    requires
        is_child(parent, child),
        are_children(parent, base),
        are_children(parent, head),
        stands_elsewhere(child, base),
        stands_elsewhere(child, head),
        changes_are_apart(here),
        all_at_or_below(child, here),
        changes_are_apart(there),
        all_covered(base, head, there),
    ensures
        changes_are_apart(here + there),
{
    let all = here + there;
    assert forall|i: int, j: int| 0 <= i < j < all.len() implies (#[trigger] all[i]).path != (
    #[trigger] all[j]).path by {
        if j < here.len() {
            assert(all[i] == here[i] && all[j] == here[j]);
        } else if i < here.len() {
            let other = there[j - here.len()];
            assert(all[i] == here[i] && all[j] == other);
            if covered(base, other.path) {
                lemma_covered_elsewhere(parent, child, base, other.path);
            } else {
                lemma_covered_elsewhere(parent, child, head, other.path);
            }
            assert(at_or_below(child, here[i].path));
        } else {
            assert(all[i] == there[i - here.len()] && all[j] == there[j - here.len()]);
        }
    }
}

proof fn lemma_covered_by_more(few: Seq<TreeEntry>, entries: Seq<TreeEntry>, path: Seq<u8>)
    requires
        few == entries || (entries.len() > 0 && few == entries.drop_first()),
        covered(few, path),
    ensures
        covered(entries, path),
{
    let k = choose|k: int| 0 <= k < few.len() && at_or_below((#[trigger] few[k]).path@, path);
    if few != entries {
        assert(entries[k + 1] == few[k]);
        assert(at_or_below(entries[k + 1].path@, path));
    }
}

proof fn lemma_all_covered_by_more(
    child: Seq<u8>,
    here: Seq<ChangeModel>,
    few_base: Seq<TreeEntry>,
    base: Seq<TreeEntry>,
    few_head: Seq<TreeEntry>,
    head: Seq<TreeEntry>,
    there: Seq<ChangeModel>,
)
    requires
        few_base == base || (base.len() > 0 && few_base == base.drop_first()),
        few_head == head || (head.len() > 0 && few_head == head.drop_first()),
        (base.len() > 0 && child == base[0].path@) || (head.len() > 0 && child == head[0].path@),
        all_at_or_below(child, here),
        all_covered(few_base, few_head, there),
    ensures
        all_covered(base, head, here + there),
{
    let all = here + there;
    assert forall|i: int| 0 <= i < all.len() implies covered(base, (#[trigger] all[i]).path)
        || covered(head, all[i].path) by {
        if i < here.len() {
            assert(all[i] == here[i]);
            if base.len() > 0 && child == base[0].path@ {
                assert(at_or_below(base[0].path@, all[i].path));
            } else {
                assert(at_or_below(head[0].path@, all[i].path));
            }
        } else {
            let other = there[i - here.len()];
            assert(all[i] == other);
            if covered(few_base, other.path) {
                lemma_covered_by_more(few_base, base, other.path);
            } else {
                lemma_covered_by_more(few_head, head, other.path);
            }
        }
    }
}

proof fn lemma_collected_paths(trees: TreeStore, entry: TreeEntry, side: Side, depth: nat)
    requires
        lists_paths(trees),
        entry.path@.len() > 0,
    ensures
        changes_are_apart(crate::compare::collected(trees, entry, side, depth)),
        all_at_or_below(entry.path@, crate::compare::collected(trees, entry, side, depth)),
    decreases u64::MAX - depth, 1nat, 0nat,
{
    if entry.kind == EntryKind::Tree && depth < u64::MAX {
        let list = trees[(entry.oid, entry.path@)];
        let all = crate::compare::collected_all(trees, list, side, depth + 1);
        lemma_all_collected_paths(trees, entry.path@, list, side, depth + 1);
        assert forall|i: int| 0 <= i < all.len() implies at_or_below(
            entry.path@,
            (#[trigger] all[i]).path,
        ) by {
            assert(!covered(Seq::<TreeEntry>::empty(), all[i].path));
            lemma_covered_is_below(entry.path@, list, all[i].path);
            lemma_below_directory(entry.path@, all[i].path);
        }
    }
}

proof fn lemma_all_collected_paths(
    trees: TreeStore,
    parent: Seq<u8>,
    entries: Seq<TreeEntry>,
    side: Side,
    depth: nat,
)
    requires
        lists_paths(trees),
        is_listing(parent, entries),
    ensures
        changes_are_apart(crate::compare::collected_all(trees, entries, side, depth)),
        all_covered(
            entries,
            Seq::empty(),
            crate::compare::collected_all(trees, entries, side, depth),
        ),
    decreases u64::MAX - depth, 2nat, entries.len(),
{
    if entries.len() > 0 {
        let none = Seq::<TreeEntry>::empty();
        let rest = entries.drop_first();
        let child = entries[0].path@;
        let here = crate::compare::collected(trees, entries[0], side, depth);
        let there = crate::compare::collected_all(trees, rest, side, depth);
        assert(is_child(parent, child));
        lemma_collected_paths(trees, entries[0], side, depth);
        lemma_rest_is_listing(parent, entries);
        lemma_all_collected_paths(trees, parent, rest, side, depth);
        assert forall|i: int| 0 <= i < rest.len() implies (#[trigger] rest[i]).path@ != child by {
            assert(rest[i] == entries[i + 1]);
            assert(entries[0].path@ != entries[i + 1].path@);
        }
        lemma_changes_stay_apart(parent, child, here, rest, none, there);
        lemma_all_covered_by_more(child, here, rest, entries, none, none, there);
    }
}

proof fn lemma_paired_paths(trees: TreeStore, old: TreeEntry, new: TreeEntry, depth: nat)
    requires
        lists_paths(trees),
        old.path@.len() > 0,
    ensures
        changes_are_apart(crate::compare::paired(trees, old, new, depth)),
        all_at_or_below(old.path@, crate::compare::paired(trees, old, new, depth)),
    decreases u64::MAX - depth, 2nat, 0nat,
{
    if old.kind == new.kind && old.kind == EntryKind::Tree {
        let all = crate::compare::compared(trees, old.oid, new.oid, old.path@, depth);
        lemma_compared_paths(trees, old.oid, new.oid, old.path@, depth);
        assert forall|i: int| 0 <= i < all.len() implies at_or_below(
            old.path@,
            (#[trigger] all[i]).path,
        ) by {
            lemma_below_directory(old.path@, all[i].path);
        }
    }
}

/// The entries behind the first stand elsewhere than a path that is not behind it.
proof fn lemma_rest_stands_elsewhere(entries: Seq<TreeEntry>, path: Seq<u8>)
    requires
        crate::compare::strictly_ordered(entries),
        entries.len() > 0,
        path == entries[0].path@ || crate::path::path_less(path, entries[0].path@),
    ensures
        stands_elsewhere(path, entries.drop_first()),
        crate::path::path_less(path, entries[0].path@) ==> stands_elsewhere(path, entries),
{
    let rest = entries.drop_first();
    crate::path::path_order_is_total(path, path);
    assert forall|i: int| 0 < i < entries.len() implies (#[trigger] entries[i]).path@ != path by {
        if path != entries[0].path@ {
            crate::path::path_order_is_transitive(path, entries[0].path@, entries[i].path@);
        }
    }
    assert forall|i: int| 0 <= i < rest.len() implies (#[trigger] rest[i]).path@ != path by {
        assert(rest[i] == entries[i + 1]);
    }
}

proof fn lemma_rest_is_ordered(parent: Seq<u8>, entries: Seq<TreeEntry>)
    requires
        crate::compare::strictly_ordered(entries),
        are_children(parent, entries),
        entries.len() > 0,
    ensures
        crate::compare::strictly_ordered(entries.drop_first()),
        are_children(parent, entries.drop_first()),
        is_child(parent, entries[0].path@),
{
    let rest = entries.drop_first();
    assert forall|i: int, j: int| 0 <= i < j < rest.len() implies crate::path::path_less(
        (#[trigger] rest[i]).path@,
        (#[trigger] rest[j]).path@,
    ) by {
        assert(rest[i] == entries[i + 1] && rest[j] == entries[j + 1]);
    }
    assert forall|i: int| 0 <= i < rest.len() implies is_child(
        parent,
        (#[trigger] rest[i]).path@,
    ) by {
        assert(rest[i] == entries[i + 1]);
    }
}

proof fn lemma_merged_paths(
    trees: TreeStore,
    parent: Seq<u8>,
    base: Seq<TreeEntry>,
    head: Seq<TreeEntry>,
    depth: nat,
)
    requires
        lists_paths(trees),
        are_children(parent, base),
        are_children(parent, head),
        crate::compare::strictly_ordered(base),
        crate::compare::strictly_ordered(head),
    ensures
        changes_are_apart(crate::compare::merged(trees, base, head, depth)),
        all_covered(base, head, crate::compare::merged(trees, base, head, depth)),
    decreases u64::MAX - depth, 3nat, base.len() + head.len(),
{
    if base.len() == 0 && head.len() == 0 {
    } else if head.len() == 0 || (base.len() > 0 && crate::path::path_less(
        base[0].path@,
        head[0].path@,
    )) {
        let child = base[0].path@;
        let rest = base.drop_first();
        let here = crate::compare::collected(trees, base[0], Side::Base, depth);
        let there = crate::compare::merged(trees, rest, head, depth);
        lemma_rest_is_ordered(parent, base);
        lemma_rest_stands_elsewhere(base, child);
        if head.len() > 0 {
            lemma_rest_stands_elsewhere(head, child);
        }
        lemma_collected_paths(trees, base[0], Side::Base, depth);
        lemma_merged_paths(trees, parent, rest, head, depth);
        lemma_changes_stay_apart(parent, child, here, rest, head, there);
        lemma_all_covered_by_more(child, here, rest, base, head, head, there);
    } else if base.len() == 0 || crate::path::path_less(head[0].path@, base[0].path@) {
        let child = head[0].path@;
        let rest = head.drop_first();
        let here = crate::compare::collected(trees, head[0], Side::Head, depth);
        let there = crate::compare::merged(trees, base, rest, depth);
        lemma_rest_is_ordered(parent, head);
        lemma_rest_stands_elsewhere(head, child);
        if base.len() > 0 {
            lemma_rest_stands_elsewhere(base, child);
        }
        lemma_collected_paths(trees, head[0], Side::Head, depth);
        lemma_merged_paths(trees, parent, base, rest, depth);
        lemma_changes_stay_apart(parent, child, here, base, rest, there);
        lemma_all_covered_by_more(child, here, base, base, rest, head, there);
    } else {
        let child = base[0].path@;
        let here = crate::compare::paired(trees, base[0], head[0], depth);
        let there = crate::compare::merged(trees, base.drop_first(), head.drop_first(), depth);
        crate::path::path_order_is_total(base[0].path@, head[0].path@);
        lemma_rest_is_ordered(parent, base);
        lemma_rest_is_ordered(parent, head);
        lemma_rest_stands_elsewhere(base, child);
        lemma_rest_stands_elsewhere(head, child);
        lemma_paired_paths(trees, base[0], head[0], depth);
        lemma_merged_paths(trees, parent, base.drop_first(), head.drop_first(), depth);
        lemma_changes_stay_apart(
            parent,
            child,
            here,
            base.drop_first(),
            head.drop_first(),
            there,
        );
        lemma_all_covered_by_more(
            child,
            here,
            base.drop_first(),
            base,
            head.drop_first(),
            head,
            there,
        );
    }
}

proof fn lemma_ordered_listing(parent: Seq<u8>, entries: Seq<TreeEntry>)
    requires
        is_listing(parent, entries),
    ensures
        crate::compare::strictly_ordered(crate::compare::by_path(entries)),
        are_children(parent, crate::compare::by_path(entries)),
        forall|path: Seq<u8>| #[trigger]
            covered(crate::compare::by_path(entries), path) ==> below(parent, path),
{
    let ordered = crate::compare::by_path(entries);
    crate::compare::distinct_paths_order_strictly(entries);
    assert forall|i: int| 0 <= i < ordered.len() implies is_child(
        parent,
        (#[trigger] ordered[i]).path@,
    ) by {
        let at = choose|at: int| 0 <= at < entries.len() && entries[at] == ordered[i];
        assert(is_child(parent, entries[at].path@));
    }
    assert forall|path: Seq<u8>| #[trigger] covered(ordered, path) implies below(parent, path) by {
        let k = choose|k: int|
            0 <= k < ordered.len() && at_or_below((#[trigger] ordered[k]).path@, path);
        assert(is_child(parent, ordered[k].path@));
        assert(at_or_below(ordered[k].path@, path));
    }
}

proof fn lemma_compared_paths(
    trees: TreeStore,
    base: ObjectId,
    head: ObjectId,
    parent: Seq<u8>,
    depth: nat,
)
    requires
        lists_paths(trees),
    ensures
        changes_are_apart(crate::compare::compared(trees, base, head, parent, depth)),
        forall|i: int|
            0 <= i < crate::compare::compared(trees, base, head, parent, depth).len() ==> below(
                parent,
                (#[trigger] crate::compare::compared(trees, base, head, parent, depth)[i]).path,
            ),
    decreases u64::MAX - depth, 1nat, 0nat,
{
    if base != head && depth < u64::MAX {
        let old = trees[(base, parent)];
        let new = trees[(head, parent)];
        lemma_ordered_listing(parent, old);
        lemma_ordered_listing(parent, new);
        lemma_merged_paths(
            trees,
            parent,
            crate::compare::by_path(old),
            crate::compare::by_path(new),
            depth + 1,
        );
    }
}

/// No path is reported twice where no tree repeats a path.
pub proof fn compared_paths_are_apart(trees: TreeStore, base: ObjectId, head: ObjectId)
    requires
        lists_paths(trees),
    ensures
        changes_are_apart(crate::compare::tree_difference(trees, base, head)),
{
    lemma_compared_paths(trees, base, head, Seq::empty(), 0);
}

/// A sorted comparison lists its paths in strictly ascending order where no tree
/// repeats a path.
pub proof fn comparison_is_strictly_ascending(
    trees: TreeStore,
    base: ObjectId,
    head: ObjectId,
    found: Seq<TreeChange>,
    sorted: Seq<TreeChange>,
)
    requires
        lists_paths(trees),
        crate::compare::change_values(found) == crate::compare::tree_difference(
            trees,
            base,
            head,
        ),
        crate::sort::in_path_order(sorted),
        crate::sort::same_at_every_path(sorted, found),
    ensures
        crate::sort::strictly_ascending(sorted),
        forall|i: int, j: int|
            0 <= i < j < sorted.len() ==> crate::path::path_less(
                (#[trigger] sorted[i]).path@,
                (#[trigger] sorted[j]).path@,
            ),
{
    compared_paths_are_apart(trees, base, head);
    let values = crate::compare::change_values(found);
    assert forall|i: int, j: int| 0 <= i < j < found.len() implies (#[trigger] found[i]).at() != (
    #[trigger] found[j]).at() by {
        assert(values[i] == found[i]@ && values[j] == found[j]@);
    }
    crate::sort::distinct_paths_ascend_strictly(sorted, found);
}

proof fn lemma_component_end(path: Seq<u8>, start: int)
    requires
        0 <= start <= path.len(),
    ensures
        start <= crate::path::component_end(path, start) <= path.len(),
        forall|k: int|
            start <= k < crate::path::component_end(path, start) ==> #[trigger] path[k]
                != SEPARATOR,
        crate::path::component_end(path, start) < path.len() ==> path[crate::path::component_end(
            path,
            start,
        )] == SEPARATOR,
    decreases path.len() - start,
{
    if start < path.len() && path[start] != SEPARATOR {
        lemma_component_end(path, start + 1);
    }
}

/// Whether a path begins with what the entries of a directory begin with.
spec fn leads_into(parent: Seq<u8>, path: Seq<u8>) -> bool {
    path.len() >= prefix_of(parent).len() && path.subrange(0, prefix_of(parent).len() as int)
        == prefix_of(parent)
}

/// The part of a path that names the child of a directory.
spec fn child_part(parent: Seq<u8>, path: Seq<u8>) -> Seq<u8> {
    path.subrange(0, crate::path::component_end(path, prefix_of(parent).len() as int))
}

proof fn lemma_child_part(parent: Seq<u8>, path: Seq<u8>)
    requires
        leads_into(parent, path),
    ensures
        ({
            let start = prefix_of(parent).len() as int;
            let end = crate::path::component_end(path, start);
            let child = child_part(parent, path);
            &&& start <= end <= path.len()
            &&& child.len() == end
            &&& end > start ==> is_child(parent, child) && at_or_below(child, path)
            &&& end < path.len() ==> path[end] == SEPARATOR
            &&& forall|other: Seq<u8>|
                is_child(parent, other) && #[trigger] at_or_below(other, path) ==> other == child
        }),
{
    let start = prefix_of(parent).len() as int;
    let end = crate::path::component_end(path, start);
    let child = child_part(parent, path);
    lemma_component_end(path, start);
    if end > start {
        assert(child.subrange(0, start) =~= path.subrange(0, start));
        assert forall|k: int| start <= k < child.len() implies #[trigger] child[k] != SEPARATOR by {
            assert(path[k] != SEPARATOR);
        }
        if end == path.len() {
            assert(child =~= path);
        }
        assert forall|other: Seq<u8>|
            is_child(parent, other) && #[trigger] at_or_below(other, path) implies other
            == child by {
            lemma_one_child(parent, child, other, path);
        }
    } else {
        assert forall|other: Seq<u8>|
            is_child(parent, other) && #[trigger] at_or_below(other, path) implies other
            == child by {
            assert(path.subrange(0, other.len() as int) =~= other);
            assert(other[start] == path[start]);
            assert(other[start] != SEPARATOR);
        }
    }
}

proof fn lemma_name_start(path: Seq<u8>, base: int, end: int)
    requires
        0 <= base <= end <= path.len(),
        base > 0 ==> path[base - 1] == SEPARATOR,
        forall|k: int| base <= k < end ==> #[trigger] path[k] != SEPARATOR,
    ensures
        crate::path::name_start(path, end) == base,
    decreases end,
{
    if end > base {
        lemma_name_start(path, base, end - 1);
    }
}

/// The name of a child is its path without the directory.
proof fn lemma_child_name(parent: Seq<u8>, child: Seq<u8>)
    requires
        is_child(parent, child),
    ensures
        crate::path::file_name(child) == Some(
            child.subrange(prefix_of(parent).len() as int, child.len() as int),
        ),
{
    let base = prefix_of(parent).len() as int;
    if base > 0 {
        assert(child[base - 1] == child.subrange(0, base)[base - 1]);
    }
    lemma_name_start(child, base, child.len() as int);
}

proof fn lemma_named_child(
    parent: Seq<u8>,
    entries: Seq<TreeEntry>,
    path: Seq<u8>,
    from: int,
)
    requires
        is_listing(parent, entries),
        leads_into(parent, path),
        0 <= from <= entries.len(),
    ensures
        ({
            let start = prefix_of(parent).len() as int;
            let end = crate::path::component_end(path, start);
            match crate::entry::named_from(entries, path.subrange(start, end), from) {
                Some(entry) => exists|k: int|
                    from <= k < entries.len() && #[trigger] entries[k] == entry && entry.path@
                        == child_part(parent, path),
                None => forall|k: int|
                    from <= k < entries.len() ==> (#[trigger] entries[k]).path@ != child_part(
                        parent,
                        path,
                    ),
            }
        }),
    decreases entries.len() - from,
{
    let start = prefix_of(parent).len() as int;
    let end = crate::path::component_end(path, start);
    let name = path.subrange(start, end);
    let child = child_part(parent, path);
    lemma_child_part(parent, path);
    if from < entries.len() {
        let other = entries[from].path@;
        lemma_child_name(parent, other);
        if other == child {
            assert(child.subrange(start, end) =~= name);
        }
        if crate::path::file_name(other) == Some(name) {
            assert(other.subrange(start, other.len() as int) == name);
            assert(other.subrange(start, other.len() as int).len() == other.len() - start);
            assert forall|k: int| 0 <= k < other.len() implies other[k] == child[k] by {
                if k < start {
                    assert(other[k] == other.subrange(0, start)[k]);
                    assert(child[k] == path.subrange(0, start)[k]);
                } else {
                    assert(other[k] == other.subrange(start, other.len() as int)[k - start]);
                    assert(name[k - start] == path[k]);
                }
            }
            assert(other.len() == start + name.len());
            assert(other =~= child);
            assert(entries[from] == entries[from]);
        } else {
            lemma_named_child(parent, entries, path, from + 1);
        }
    }
}

/// What is found at a path at or below an entry.
pub open spec fn beneath(trees: TreeStore, entry: TreeEntry, path: Seq<u8>) -> Lookup {
    if path == entry.path@ {
        Lookup::Found(entry)
    } else if entry.kind != EntryKind::Tree {
        Lookup::NotTree(entry.kind)
    } else {
        crate::entry::lookup_from(
            trees,
            entry.oid,
            entry.path@,
            path,
            prefix_of(entry.path@).len() as int,
        )
    }
}

proof fn lemma_leads_below(entry: TreeEntry, path: Seq<u8>)
    requires
        entry.path@.len() > 0,
        at_or_below(entry.path@, path),
        path != entry.path@,
    ensures
        leads_into(entry.path@, path),
{
    assert(path.subrange(0, (entry.path@.len() + 1) as int) =~= entry.path@.push(SEPARATOR));
}

/// A path is followed through the one entry of a tree that stands at it or above it.
proof fn lemma_followed(trees: TreeStore, tree: ObjectId, parent: Seq<u8>, path: Seq<u8>)
    requires
        lists_paths(trees),
        leads_into(parent, path),
    ensures
        ({
            let entries = trees[(tree, parent)];
            let found = crate::entry::lookup_from(
                trees,
                tree,
                parent,
                path,
                prefix_of(parent).len() as int,
            );
            &&& forall|k: int|
                0 <= k < entries.len() && at_or_below((#[trigger] entries[k]).path@, path)
                    ==> found == beneath(trees, entries[k], path)
            &&& !covered(entries, path) ==> found == Lookup::Missing
        }),
{
    let entries = trees[(tree, parent)];
    let start = prefix_of(parent).len() as int;
    let end = crate::path::component_end(path, start);
    let child = child_part(parent, path);
    let found = crate::entry::lookup_from(trees, tree, parent, path, start);
    assert(is_listing(parent, entries));
    lemma_child_part(parent, path);
    lemma_named_child(parent, entries, path, 0);
    assert forall|k: int|
        0 <= k < entries.len() && at_or_below((#[trigger] entries[k]).path@, path) implies found
        == beneath(trees, entries[k], path) by {
        assert(is_child(parent, entries[k].path@));
        assert(entries[k].path@ == child);
        let entry = crate::entry::named(entries, path.subrange(start, end))->0;
        let at = choose|at: int|
            0 <= at < entries.len() && #[trigger] entries[at] == entry && entry.path@ == child;
        if at < k {
            assert(entries[at].path@ != entries[k].path@);
        } else if k < at {
            assert(entries[k].path@ != entries[at].path@);
        }
        if end == path.len() {
            assert(child =~= path);
        } else {
            assert(child.len() < path.len());
            assert(prefix_of(child).len() == end + 1);
        }
    }
    if !covered(entries, path) {
        if crate::entry::named(entries, path.subrange(start, end)) is Some {
            let entry = crate::entry::named(entries, path.subrange(start, end))->0;
            let at = choose|at: int|
                0 <= at < entries.len() && #[trigger] entries[at] == entry && entry.path@
                    == child;
            assert(is_child(parent, entries[at].path@));
            assert(end > start);
            assert(at_or_below(entries[at].path@, path));
        }
    }
}

/// An entry that stands in a tree that is listed under a path, so many trees below it.
pub open spec fn stands_in(
    trees: TreeStore,
    tree: ObjectId,
    parent: Seq<u8>,
    entry: TreeEntry,
    steps: nat,
) -> bool
    decreases steps,
{
    if steps == 0 {
        trees[(tree, parent)].contains(entry)
    } else {
        exists|k: int|
            0 <= k < trees[(tree, parent)].len() && (#[trigger] trees[(tree, parent)][k]).kind
                == EntryKind::Tree && stands_in(
                trees,
                trees[(tree, parent)][k].oid,
                trees[(tree, parent)][k].path@,
                entry,
                (steps - 1) as nat,
            )
    }
}

proof fn lemma_standing_is_found(
    trees: TreeStore,
    tree: ObjectId,
    parent: Seq<u8>,
    entry: TreeEntry,
    steps: nat,
)
    requires
        lists_paths(trees),
        stands_in(trees, tree, parent, entry, steps),
    ensures
        leads_into(parent, entry.path@),
        entry.path@.len() > prefix_of(parent).len(),
        covered(trees[(tree, parent)], entry.path@),
        crate::entry::lookup_from(
            trees,
            tree,
            parent,
            entry.path@,
            prefix_of(parent).len() as int,
        ) == Lookup::Found(entry),
    decreases steps,
{
    let entries = trees[(tree, parent)];
    let path = entry.path@;
    assert(is_listing(parent, entries));
    if steps == 0 {
        let k = choose|k: int| 0 <= k < entries.len() && entries[k] == entry;
        assert(is_child(parent, entries[k].path@));
        assert(at_or_below(entries[k].path@, path));
        lemma_followed(trees, tree, parent, path);
    } else {
        let k = choose|k: int|
            0 <= k < entries.len() && (#[trigger] entries[k]).kind == EntryKind::Tree && stands_in(
                trees,
                entries[k].oid,
                entries[k].path@,
                entry,
                (steps - 1) as nat,
            );
        let dir = entries[k];
        assert(is_child(parent, dir.path@));
        lemma_standing_is_found(trees, dir.oid, dir.path@, entry, (steps - 1) as nat);
        assert(path.subrange(0, dir.path@.len() as int) =~= dir.path@) by {
            let prefix = prefix_of(dir.path@);
            assert forall|i: int| 0 <= i < dir.path@.len() implies path[i] == dir.path@[i] by {
                assert(path[i] == path.subrange(0, prefix.len() as int)[i]);
            }
        }
        assert(path[dir.path@.len() as int] == SEPARATOR) by {
            let prefix = prefix_of(dir.path@);
            assert(path[dir.path@.len() as int] == path.subrange(0, prefix.len() as int)[dir.path@.len() as int]);
        }
        assert(at_or_below(entries[k].path@, path));
        assert(path.subrange(0, prefix_of(parent).len() as int) =~= prefix_of(parent)) by {
            assert forall|i: int| 0 <= i < prefix_of(parent).len() implies path[i]
                == prefix_of(parent)[i] by {
                assert(dir.path@[i] == dir.path@.subrange(0, prefix_of(parent).len() as int)[i]);
                assert(path[i] == path.subrange(0, dir.path@.len() as int)[i]);
            }
        }
        lemma_followed(trees, tree, parent, path);
    }
}

proof fn lemma_found_is_standing(trees: TreeStore, tree: ObjectId, parent: Seq<u8>, path: Seq<u8>)
    requires
        lists_paths(trees),
        leads_into(parent, path),
    ensures
        crate::entry::lookup_from(
            trees,
            tree,
            parent,
            path,
            prefix_of(parent).len() as int,
        ) matches Lookup::Found(entry) ==> entry.path@ == path && exists|steps: nat|
            stands_in(trees, tree, parent, entry, steps),
    decreases path.len() - prefix_of(parent).len(),
{
    let entries = trees[(tree, parent)];
    let start = prefix_of(parent).len() as int;
    let found = crate::entry::lookup_from(trees, tree, parent, path, start);
    lemma_followed(trees, tree, parent, path);
    if let Lookup::Found(entry) = found {
        assert(is_listing(parent, entries));
        let k = choose|k: int|
            0 <= k < entries.len() && at_or_below((#[trigger] entries[k]).path@, path);
        assert(found == beneath(trees, entries[k], path));
        assert(is_child(parent, entries[k].path@));
        if path == entries[k].path@ {
            assert(entries.contains(entry));
            assert(stands_in(trees, tree, parent, entry, 0));
        } else {
            lemma_leads_below(entries[k], path);
            lemma_found_is_standing(trees, entries[k].oid, entries[k].path@, path);
            let steps = choose|steps: nat|
                stands_in(trees, entries[k].oid, entries[k].path@, entry, steps);
            assert(stands_in(trees, entries[k].oid, entries[k].path@, entry, steps));
            assert(stands_in(trees, tree, parent, entry, steps + 1));
        }
    }
}

/// Looking a path up finds exactly the entry that stands there: every entry of the root
/// tree or of a tree in it, however deep, is found at its own path, and what is found
/// stands there under that very path.
pub proof fn every_entry_is_found_at_its_path(trees: TreeStore, root: ObjectId, path: Seq<u8>)
    requires
        lists_paths(trees),
    ensures
        forall|entry: TreeEntry, steps: nat|
            #[trigger] stands_in(trees, root, Seq::empty(), entry, steps) && entry.path@ == path
                ==> crate::entry::lookup(trees, root, path) == Lookup::Found(entry),
        crate::entry::lookup(trees, root, path) matches Lookup::Found(entry) ==> entry.path@ == path
            && exists|steps: nat| stands_in(trees, root, Seq::empty(), entry, steps),
{
    let none = Seq::<u8>::empty();
    assert(path.subrange(0, 0) =~= none);
    assert forall|entry: TreeEntry, steps: nat|
        #[trigger] stands_in(trees, root, none, entry, steps) && entry.path@ == path implies
        crate::entry::lookup(trees, root, path) == Lookup::Found(entry) by {
        lemma_standing_is_found(trees, root, none, entry, steps);
    }
    lemma_found_is_standing(trees, root, none, path);
}

/// A path below a directory is looked up in that directory, and nowhere else: it leads
/// nowhere where the directory is missing, and it is refused where something else stands
/// in the directory's place.
pub proof fn a_path_is_looked_up_in_its_directory(
    trees: TreeStore,
    root: ObjectId,
    directory: Seq<u8>,
    path: Seq<u8>,
)
    requires
        lists_paths(trees),
        is_child(directory, path),
        directory.len() > 0,
    ensures
        match crate::entry::lookup(trees, root, directory) {
            Lookup::Missing => crate::entry::lookup(trees, root, path) == Lookup::Missing,
            Lookup::NotTree(kind) => crate::entry::lookup(trees, root, path) == Lookup::NotTree(
                kind,
            ),
            Lookup::Found(entry) => if entry.kind == EntryKind::Tree {
                match crate::entry::lookup(trees, root, path) {
                    Lookup::Found(child) => trees[(entry.oid, directory)].contains(child)
                        && child.path@ == path,
                    Lookup::Missing => forall|k: int|
                        0 <= k < trees[(entry.oid, directory)].len() ==> (
                        #[trigger] trees[(entry.oid, directory)][k]).path@ != path,
                    Lookup::NotTree(_) => false,
                }
            } else {
                crate::entry::lookup(trees, root, path) == Lookup::NotTree(entry.kind)
            },
        },
{
    let none = Seq::<u8>::empty();
    assert(path.subrange(0, 0) =~= none);
    assert(directory.subrange(0, 0) =~= none);
    lemma_looked_up_below(trees, root, none, directory, path);
}

proof fn lemma_looked_up_below(
    trees: TreeStore,
    tree: ObjectId,
    parent: Seq<u8>,
    directory: Seq<u8>,
    path: Seq<u8>,
)
    requires
        lists_paths(trees),
        leads_into(parent, directory),
        directory.len() > 0,
        is_child(directory, path),
    ensures
        leads_into(parent, path),
        ({
            let start = prefix_of(parent).len() as int;
            let above = crate::entry::lookup_from(trees, tree, parent, directory, start);
            let found = crate::entry::lookup_from(trees, tree, parent, path, start);
            match above {
                Lookup::Missing => found == Lookup::Missing,
                Lookup::NotTree(kind) => found == Lookup::NotTree(kind),
                Lookup::Found(entry) => if entry.kind == EntryKind::Tree {
                    match found {
                        Lookup::Found(child) => trees[(entry.oid, directory)].contains(child)
                            && child.path@ == path,
                        Lookup::Missing => forall|k: int|
                            0 <= k < trees[(entry.oid, directory)].len() ==> (
                            #[trigger] trees[(entry.oid, directory)][k]).path@ != path,
                        Lookup::NotTree(_) => false,
                    }
                } else {
                    found == Lookup::NotTree(entry.kind)
                },
            }
        }),
    decreases directory.len() - prefix_of(parent).len(),
{
    let start = prefix_of(parent).len() as int;
    let entries = trees[(tree, parent)];
    let size = directory.len() as int;
    assert(is_listing(parent, entries));
    assert forall|i: int| 0 <= i < size implies path[i] == directory[i] by {
        assert(path[i] == path.subrange(0, prefix_of(directory).len() as int)[i]);
    }
    assert(path[size] == SEPARATOR) by {
        assert(path[size] == path.subrange(0, prefix_of(directory).len() as int)[size]);
    }
    assert(path.subrange(0, size) =~= directory);
    assert(at_or_below(directory, path));
    assert(path.subrange(0, start) =~= prefix_of(parent)) by {
        assert forall|i: int| 0 <= i < start implies path[i] == prefix_of(parent)[i] by {
            assert(directory[i] == directory.subrange(0, start)[i]);
        }
    }
    lemma_followed(trees, tree, parent, directory);
    lemma_followed(trees, tree, parent, path);
    if covered(entries, directory) {
        let k = choose|k: int|
            0 <= k < entries.len() && at_or_below((#[trigger] entries[k]).path@, directory);
        let entry = entries[k];
        assert(is_child(parent, entry.path@));
        assert(at_or_below(entry.path@, path)) by {
            assert(path.subrange(0, entry.path@.len() as int) =~= directory.subrange(
                0,
                entry.path@.len() as int,
            ));
            if entry.path@ == directory {
            } else {
                assert(path[entry.path@.len() as int] == directory[entry.path@.len() as int]);
            }
        }
        assert(path != entry.path@);
        if entry.path@ == directory {
            if entry.kind == EntryKind::Tree {
                let inner = trees[(entry.oid, directory)];
                assert(is_listing(directory, inner));
                lemma_leads_below(entry, path);
                lemma_followed(trees, entry.oid, directory, path);
                assert forall|other: Seq<u8>|
                    is_child(directory, other) && #[trigger] at_or_below(other, path) implies other
                    == path by {
                    lemma_one_child(directory, other, path, path);
                }
                if covered(inner, path) {
                    let l = choose|l: int|
                        0 <= l < inner.len() && at_or_below((#[trigger] inner[l]).path@, path);
                    assert(is_child(directory, inner[l].path@));
                    assert(inner[l].path@ == path);
                    assert(inner.contains(inner[l]));
                } else {
                    assert forall|l: int| 0 <= l < inner.len() implies (#[trigger] inner[l]).path@
                        != path by {
                        assert(!at_or_below(inner[l].path@, path));
                    }
                }
            }
        } else if entry.kind == EntryKind::Tree {
            lemma_leads_below(entry, directory);
            lemma_looked_up_below(trees, entry.oid, entry.path@, directory, path);
        }
    } else {
        if covered(entries, path) {
            let k = choose|k: int|
                0 <= k < entries.len() && at_or_below((#[trigger] entries[k]).path@, path);
            let other = entries[k].path@;
            assert(is_child(parent, other));
            lemma_child_part(parent, directory);
            lemma_child_part(parent, path);
            assert(other == child_part(parent, path));
            assert(path.subrange(0, other.len() as int) =~= other);
            if other.len() <= size {
                assert(directory.subrange(0, other.len() as int) =~= other);
                if other.len() == size {
                    assert(directory =~= other);
                } else {
                    assert(directory[other.len() as int] == path[other.len() as int]);
                }
                assert(at_or_below(other, directory));
            } else {
                assert(other[size] == path[size]);
            }
            assert(covered(entries, directory));
        }
    }
}

proof fn lemma_outputs_hold(
    trees: TreeStore,
    entries: Seq<TreeEntry>,
    depth: nat,
    entry: TreeEntry,
)
    ensures
        crate::archive::entries_output(trees, entries, depth).contains(entry) <==> exists|k: int|
            0 <= k < entries.len() && crate::archive::entry_output(
                trees,
                #[trigger] entries[k],
                depth,
            ).contains(entry),
    decreases entries.len(),
{
    if entries.len() > 0 {
        let first = crate::archive::entry_output(trees, entries[0], depth);
        let rest = entries.drop_first();
        let others = crate::archive::entries_output(trees, rest, depth);
        let all = first + others;
        lemma_outputs_hold(trees, rest, depth, entry);
        if all.contains(entry) {
            let i = choose|i: int| 0 <= i < all.len() && all[i] == entry;
            if i < first.len() {
                assert(first[i] == entry);
                assert(crate::archive::entry_output(trees, entries[0], depth).contains(entry));
            } else {
                assert(others[i - first.len()] == entry);
                let k = choose|k: int|
                    0 <= k < rest.len() && crate::archive::entry_output(
                        trees,
                        #[trigger] rest[k],
                        depth,
                    ).contains(entry);
                assert(rest[k] == entries[k + 1]);
            }
        }
        if exists|k: int|
            0 <= k < entries.len() && crate::archive::entry_output(
                trees,
                #[trigger] entries[k],
                depth,
            ).contains(entry) {
            let k = choose|k: int|
                0 <= k < entries.len() && crate::archive::entry_output(
                    trees,
                    #[trigger] entries[k],
                    depth,
                ).contains(entry);
            if k == 0 {
                let i = choose|i: int| 0 <= i < first.len() && first[i] == entry;
                assert(all[i] == entry);
            } else {
                assert(rest[k - 1] == entries[k]);
                assert(others.contains(entry));
                let i = choose|i: int| 0 <= i < others.len() && others[i] == entry;
                assert(all[first.len() + i] == entry);
            }
        }
    }
}

proof fn lemma_output_holds(trees: TreeStore, entry: TreeEntry, depth: nat, wanted: TreeEntry)
    requires
        lists_paths(trees),
        entry.path@.len() > 0,
        at_or_below(entry.path@, wanted.path@),
        depth + (wanted.path@.len() - entry.path@.len()) < u64::MAX,
    ensures
        crate::archive::entry_output(trees, entry, depth).contains(wanted) <==> beneath(
            trees,
            entry,
            wanted.path@,
        ) == Lookup::Found(wanted),
    decreases wanted.path@.len() - entry.path@.len(), 1nat,
{
    let all = crate::archive::entry_output(trees, entry, depth);
    let path = wanted.path@;
    if entry.kind == EntryKind::Tree {
        let list = trees[(entry.oid, entry.path@)];
        let inner = crate::archive::entries_output(trees, list, depth + 1);
        assert(all == seq![entry] + inner);
        assert(is_listing(entry.path@, list));
        lemma_entries_paths(trees, entry.path@, list, depth + 1);
        if path == entry.path@ {
            if inner.contains(wanted) {
                let i = choose|i: int| 0 <= i < inner.len() && inner[i] == wanted;
                lemma_covered_is_below(entry.path@, list, inner[i].path@);
                lemma_below_directory(entry.path@, path);
            }
            assert(all[0] == entry);
            assert(all.contains(wanted) <==> wanted == entry) by {
                if all.contains(wanted) {
                    let i = choose|i: int| 0 <= i < all.len() && all[i] == wanted;
                    if i > 0 {
                        assert(inner[i - 1] == wanted);
                    }
                }
            }
        } else {
            lemma_leads_below(entry, path);
            lemma_followed(trees, entry.oid, entry.path@, path);
            lemma_outputs_hold(trees, list, depth + 1, wanted);
            assert(all.contains(wanted) <==> inner.contains(wanted)) by {
                if all.contains(wanted) {
                    let i = choose|i: int| 0 <= i < all.len() && all[i] == wanted;
                    assert(inner[i - 1] == wanted);
                }
                if inner.contains(wanted) {
                    let i = choose|i: int| 0 <= i < inner.len() && inner[i] == wanted;
                    assert(all[i + 1] == wanted);
                }
            }
            lemma_list_holds(trees, entry.path@, list, depth + 1, wanted);
        }
    } else {
        assert(all =~= seq![entry]);
        assert(all[0] == entry);
    }
}

proof fn lemma_list_holds(
    trees: TreeStore,
    parent: Seq<u8>,
    list: Seq<TreeEntry>,
    depth: nat,
    wanted: TreeEntry,
)
    requires
        lists_paths(trees),
        is_listing(parent, list),
        leads_into(parent, wanted.path@),
        depth + (wanted.path@.len() - parent.len()) <= u64::MAX,
    ensures
        crate::archive::entries_output(trees, list, depth).contains(wanted) <==> exists|k: int|
            0 <= k < list.len() && at_or_below((#[trigger] list[k]).path@, wanted.path@) && beneath(
                trees,
                list[k],
                wanted.path@,
            ) == Lookup::Found(wanted),
    decreases wanted.path@.len() - parent.len(), 0nat,
{
    let path = wanted.path@;
    lemma_outputs_hold(trees, list, depth, wanted);
    assert forall|k: int| 0 <= k < list.len() implies crate::archive::entry_output(
        trees,
        #[trigger] list[k],
        depth,
    ).contains(wanted) == (at_or_below(list[k].path@, path) && beneath(trees, list[k], path)
        == Lookup::Found(wanted)) by {
        let one = crate::archive::entry_output(trees, list[k], depth);
        assert(is_child(parent, list[k].path@));
        lemma_entry_paths(trees, list[k], depth);
        if at_or_below(list[k].path@, path) {
            lemma_output_holds(trees, list[k], depth, wanted);
        } else if one.contains(wanted) {
            let i = choose|i: int| 0 <= i < one.len() && one[i] == wanted;
            assert(at_or_below(list[k].path@, one[i].path@));
        }
    }
    if crate::archive::entries_output(trees, list, depth).contains(wanted) {
        let k = choose|k: int|
            0 <= k < list.len() && crate::archive::entry_output(
                trees,
                #[trigger] list[k],
                depth,
            ).contains(wanted);
        assert(at_or_below(list[k].path@, path));
    }
}

/// An archive holds an entry exactly where looking its path up finds it: nothing of the
/// snapshot is left out, at whatever depth and of whatever kind, and nothing else is in.
pub proof fn an_archive_holds_what_stands_at_each_path(
    trees: TreeStore,
    root: ObjectId,
    entry: TreeEntry,
)
    requires
        lists_paths(trees),
        entry.path@.len() < u64::MAX,
    ensures
        crate::archive::archive_order(trees, root).contains(entry) <==> crate::entry::lookup(
            trees,
            root,
            entry.path@,
        ) == Lookup::Found(entry),
{
    let none = Seq::<u8>::empty();
    let list = trees[(root, none)];
    let path = entry.path@;
    assert(path.subrange(0, 0) =~= none);
    lemma_followed(trees, root, none, path);
    lemma_list_holds(trees, none, list, 1, entry);
    if crate::entry::lookup(trees, root, path) == Lookup::Found(entry) {
        let k = choose|k: int|
            0 <= k < list.len() && at_or_below((#[trigger] list[k]).path@, path);
        assert(beneath(trees, list[k], path) == Lookup::Found(entry));
    }
}

proof fn lemma_parts_hold(here: Seq<ChangeModel>, there: Seq<ChangeModel>, change: ChangeModel)
    ensures
        (here + there).contains(change) <==> here.contains(change) || there.contains(change),
{
    let all = here + there;
    if all.contains(change) {
        let i = choose|i: int| 0 <= i < all.len() && all[i] == change;
        if i < here.len() {
            assert(here[i] == change);
        } else {
            assert(there[i - here.len()] == change);
        }
    }
    if here.contains(change) {
        let i = choose|i: int| 0 <= i < here.len() && here[i] == change;
        assert(all[i] == change);
    }
    if there.contains(change) {
        let i = choose|i: int| 0 <= i < there.len() && there[i] == change;
        assert(all[here.len() + i] == change);
    }
}

proof fn lemma_all_collected_hold(
    trees: TreeStore,
    entries: Seq<TreeEntry>,
    side: Side,
    depth: nat,
    change: ChangeModel,
)
    ensures
        crate::compare::collected_all(trees, entries, side, depth).contains(change) <==> exists|
            k: int,
        |
            0 <= k < entries.len() && crate::compare::collected(
                trees,
                #[trigger] entries[k],
                side,
                depth,
            ).contains(change),
    decreases entries.len(),
{
    if entries.len() > 0 {
        let rest = entries.drop_first();
        let here = crate::compare::collected(trees, entries[0], side, depth);
        let there = crate::compare::collected_all(trees, rest, side, depth);
        lemma_all_collected_hold(trees, rest, side, depth, change);
        lemma_parts_hold(here, there, change);
        if there.contains(change) {
            let k = choose|k: int|
                0 <= k < rest.len() && crate::compare::collected(
                    trees,
                    #[trigger] rest[k],
                    side,
                    depth,
                ).contains(change);
            assert(rest[k] == entries[k + 1]);
        }
        if here.contains(change) {
            assert(crate::compare::collected(trees, entries[0], side, depth).contains(change));
        }
        if exists|k: int|
            0 <= k < entries.len() && crate::compare::collected(
                trees,
                #[trigger] entries[k],
                side,
                depth,
            ).contains(change) {
            let k = choose|k: int|
                0 <= k < entries.len() && crate::compare::collected(
                    trees,
                    #[trigger] entries[k],
                    side,
                    depth,
                ).contains(change);
            if k > 0 {
                assert(rest[k - 1] == entries[k]);
            }
        }
    }
}

/// What one side alone holds at a path is told as its deletion or its addition.
spec fn told_alone(found: Lookup, side: Side, change: ChangeModel) -> bool {
    found matches Lookup::Found(entry) && entry.kind != EntryKind::Tree && change == (ChangeModel {
        path: entry.path@,
        kind: if side == Side::Base {
            ChangeKind::Deleted
        } else {
            ChangeKind::Added
        },
        before: if side == Side::Base {
            Some(entry)
        } else {
            None
        },
        after: if side == Side::Base {
            None
        } else {
            Some(entry)
        },
    })
}

proof fn lemma_collected_holds(
    trees: TreeStore,
    entry: TreeEntry,
    side: Side,
    depth: nat,
    change: ChangeModel,
)
    requires
        lists_paths(trees),
        entry.path@.len() > 0,
        at_or_below(entry.path@, change.path),
        depth + (change.path.len() - entry.path@.len()) < u64::MAX,
    ensures
        crate::compare::collected(trees, entry, side, depth).contains(change) <==> told_alone(
            beneath(trees, entry, change.path),
            side,
            change,
        ),
    decreases change.path.len() - entry.path@.len(),
{
    let all = crate::compare::collected(trees, entry, side, depth);
    let path = change.path;
    if entry.kind != EntryKind::Tree {
        assert(all[0] == crate::compare::one_sided(entry, side));
    } else {
        let list = trees[(entry.oid, entry.path@)];
        assert(is_listing(entry.path@, list));
        lemma_all_collected_hold(trees, list, side, depth + 1, change);
        if path == entry.path@ {
            if all.contains(change) {
                let k = choose|k: int|
                    0 <= k < list.len() && crate::compare::collected(
                        trees,
                        #[trigger] list[k],
                        side,
                        depth + 1,
                    ).contains(change);
                let one = crate::compare::collected(trees, list[k], side, depth + 1);
                assert(is_child(entry.path@, list[k].path@));
                lemma_collected_paths(trees, list[k], side, depth + 1);
                let i = choose|i: int| 0 <= i < one.len() && one[i] == change;
                assert(at_or_below(list[k].path@, one[i].path));
                assert(below(entry.path@, path));
                lemma_below_directory(entry.path@, path);
            }
        } else {
            lemma_leads_below(entry, path);
            lemma_followed(trees, entry.oid, entry.path@, path);
            assert forall|k: int| 0 <= k < list.len() implies crate::compare::collected(
                trees,
                #[trigger] list[k],
                side,
                depth + 1,
            ).contains(change) == (at_or_below(list[k].path@, path) && told_alone(
                beneath(trees, list[k], path),
                side,
                change,
            )) by {
                let one = crate::compare::collected(trees, list[k], side, depth + 1);
                assert(is_child(entry.path@, list[k].path@));
                lemma_collected_paths(trees, list[k], side, depth + 1);
                if at_or_below(list[k].path@, path) {
                    lemma_collected_holds(trees, list[k], side, depth + 1, change);
                } else if one.contains(change) {
                    let i = choose|i: int| 0 <= i < one.len() && one[i] == change;
                    assert(at_or_below(list[k].path@, one[i].path));
                }
            }
            if covered(list, path) {
                let k = choose|k: int|
                    0 <= k < list.len() && at_or_below((#[trigger] list[k]).path@, path);
                assert(beneath(trees, entry, path) == beneath(trees, list[k], path));
            } else {
                assert forall|k: int| 0 <= k < list.len() implies !crate::compare::collected(
                    trees,
                    #[trigger] list[k],
                    side,
                    depth + 1,
                ).contains(change) by {
                    assert(!at_or_below(list[k].path@, path));
                }
            }
        }
    }
}

/// Whether two lookups of one path make a change of it.
spec fn told(base: Lookup, head: Lookup, change: ChangeModel) -> bool {
    match (base, head) {
        (Lookup::Found(old), Lookup::Found(new)) => {
            &&& old.kind != new.kind || (old.kind != EntryKind::Tree && (old.oid != new.oid
                || old.mode != new.mode))
            &&& change == (ChangeModel {
                path: old.path@,
                kind: if old.kind != new.kind {
                    ChangeKind::TypeChanged
                } else if old.oid != new.oid {
                    ChangeKind::Modified
                } else {
                    ChangeKind::ModeChanged
                },
                before: Some(old),
                after: Some(new),
            })
        },
        (_, Lookup::Missing) => told_alone(base, Side::Base, change),
        (Lookup::Missing, _) => told_alone(head, Side::Head, change),
        _ => false,
    }
}

proof fn lemma_entry_at(entries: Seq<TreeEntry>, path: Seq<u8>)
    ensures
        match crate::compare::entry_at(entries, path) {
            Some(entry) => entries.contains(entry) && entry.path@ == path,
            None => forall|k: int|
                0 <= k < entries.len() ==> (#[trigger] entries[k]).path@ != path,
        },
    decreases entries.len(),
{
    if entries.len() > 0 {
        let rest = entries.drop_first();
        lemma_entry_at(rest, path);
        if entries[0].path@ == path {
            assert(entries.contains(entries[0]));
        } else if let Some(entry) = crate::compare::entry_at(rest, path) {
            let k = choose|k: int| 0 <= k < rest.len() && rest[k] == entry;
            assert(entries[k + 1] == entry);
        } else {
            assert forall|k: int| 0 <= k < entries.len() implies (#[trigger] entries[k]).path@
                != path by {
                if k > 0 {
                    assert(rest[k - 1] == entries[k]);
                }
            }
        }
    }
}

/// What the entries at one child's path contribute to a comparison.
spec fn contribution(
    trees: TreeStore,
    base: Seq<TreeEntry>,
    head: Seq<TreeEntry>,
    depth: nat,
    child: Seq<u8>,
) -> Seq<ChangeModel> {
    match (crate::compare::entry_at(base, child), crate::compare::entry_at(head, child)) {
        (Some(old), Some(new)) => crate::compare::paired(trees, old, new, depth),
        (Some(old), None) => crate::compare::collected(trees, old, Side::Base, depth),
        (None, Some(new)) => crate::compare::collected(trees, new, Side::Head, depth),
        (None, None) => Seq::empty(),
    }
}

proof fn lemma_elsewhere_is_absent(entries: Seq<TreeEntry>, path: Seq<u8>)
    requires
        stands_elsewhere(path, entries),
    ensures
        crate::compare::entry_at(entries, path) is None,
{
    lemma_entry_at(entries, path);
    if let Some(entry) = crate::compare::entry_at(entries, path) {
        let k = choose|k: int| 0 <= k < entries.len() && entries[k] == entry;
        assert(entries[k].path@ != path);
    }
}

proof fn lemma_step_holds(
    parent: Seq<u8>,
    child: Seq<u8>,
    first: Seq<u8>,
    here: Seq<ChangeModel>,
    base: Seq<TreeEntry>,
    head: Seq<TreeEntry>,
    there: Seq<ChangeModel>,
    change: ChangeModel,
)
    requires
        is_child(parent, child),
        is_child(parent, first),
        at_or_below(child, change.path),
        are_children(parent, base),
        are_children(parent, head),
        stands_elsewhere(first, base),
        stands_elsewhere(first, head),
        all_at_or_below(first, here),
        all_covered(base, head, there),
    ensures
        first == child ==> ((here + there).contains(change) <==> here.contains(change)),
        first != child ==> ((here + there).contains(change) <==> there.contains(change)),
{
    lemma_parts_hold(here, there, change);
    if first == child && there.contains(change) {
        let i = choose|i: int| 0 <= i < there.len() && there[i] == change;
        if covered(base, there[i].path) {
            lemma_covered_elsewhere(parent, child, base, change.path);
        } else {
            lemma_covered_elsewhere(parent, child, head, change.path);
        }
    }
    if first != child && here.contains(change) {
        let i = choose|i: int| 0 <= i < here.len() && here[i] == change;
        assert(at_or_below(first, here[i].path));
        lemma_one_child(parent, first, child, change.path);
    }
}

proof fn lemma_merged_holds(
    trees: TreeStore,
    parent: Seq<u8>,
    base: Seq<TreeEntry>,
    head: Seq<TreeEntry>,
    depth: nat,
    child: Seq<u8>,
    change: ChangeModel,
)
    requires
        lists_paths(trees),
        are_children(parent, base),
        are_children(parent, head),
        crate::compare::strictly_ordered(base),
        crate::compare::strictly_ordered(head),
        is_child(parent, child),
        at_or_below(child, change.path),
    ensures
        crate::compare::merged(trees, base, head, depth).contains(change) <==> contribution(
            trees,
            base,
            head,
            depth,
            child,
        ).contains(change),
    decreases base.len() + head.len(),
{
    if base.len() == 0 && head.len() == 0 {
    } else if head.len() == 0 || (base.len() > 0 && crate::path::path_less(
        base[0].path@,
        head[0].path@,
    )) {
        let first = base[0].path@;
        let rest = base.drop_first();
        lemma_rest_is_ordered(parent, base);
        lemma_rest_stands_elsewhere(base, first);
        if head.len() > 0 {
            lemma_rest_stands_elsewhere(head, first);
        }
        lemma_collected_paths(trees, base[0], Side::Base, depth);
        lemma_merged_paths(trees, parent, rest, head, depth);
        lemma_step_holds(
            parent,
            child,
            first,
            crate::compare::collected(trees, base[0], Side::Base, depth),
            rest,
            head,
            crate::compare::merged(trees, rest, head, depth),
            change,
        );
        if first == child {
            lemma_elsewhere_is_absent(head, child);
        } else {
            lemma_merged_holds(trees, parent, rest, head, depth, child, change);
        }
    } else if base.len() == 0 || crate::path::path_less(head[0].path@, base[0].path@) {
        let first = head[0].path@;
        let rest = head.drop_first();
        lemma_rest_is_ordered(parent, head);
        lemma_rest_stands_elsewhere(head, first);
        if base.len() > 0 {
            lemma_rest_stands_elsewhere(base, first);
        }
        lemma_collected_paths(trees, head[0], Side::Head, depth);
        lemma_merged_paths(trees, parent, base, rest, depth);
        lemma_step_holds(
            parent,
            child,
            first,
            crate::compare::collected(trees, head[0], Side::Head, depth),
            base,
            rest,
            crate::compare::merged(trees, base, rest, depth),
            change,
        );
        if first == child {
            lemma_elsewhere_is_absent(base, child);
        } else {
            lemma_merged_holds(trees, parent, base, rest, depth, child, change);
        }
    } else {
        let first = base[0].path@;
        crate::path::path_order_is_total(base[0].path@, head[0].path@);
        lemma_rest_is_ordered(parent, base);
        lemma_rest_is_ordered(parent, head);
        lemma_rest_stands_elsewhere(base, first);
        lemma_rest_stands_elsewhere(head, first);
        lemma_paired_paths(trees, base[0], head[0], depth);
        lemma_merged_paths(trees, parent, base.drop_first(), head.drop_first(), depth);
        lemma_step_holds(
            parent,
            child,
            first,
            crate::compare::paired(trees, base[0], head[0], depth),
            base.drop_first(),
            head.drop_first(),
            crate::compare::merged(trees, base.drop_first(), head.drop_first(), depth),
            change,
        );
        if first != child {
            lemma_merged_holds(
                trees,
                parent,
                base.drop_first(),
                head.drop_first(),
                depth,
                child,
                change,
            );
        }
    }
}

/// The entry of a listing at a path is still there once the listing is ordered.
proof fn lemma_ordered_entry(parent: Seq<u8>, entries: Seq<TreeEntry>, k: int)
    requires
        is_listing(parent, entries),
        0 <= k < entries.len(),
    ensures
        crate::compare::entry_at(crate::compare::by_path(entries), entries[k].path@) == Some(
            entries[k],
        ),
{
    broadcast use vstd::seq_lib::group_to_multiset_ensures;

    let ordered = crate::compare::by_path(entries);
    crate::compare::ordering_keeps_every_entry(entries);
    crate::compare::distinct_paths_order_strictly(entries);
    lemma_entry_at(ordered, entries[k].path@);
    assert(entries.contains(entries[k]));
    assert(entries.to_multiset().contains(entries[k]));
    assert(ordered.to_multiset().contains(entries[k]));
    assert(ordered.contains(entries[k]));
    let at = choose|at: int| 0 <= at < ordered.len() && ordered[at] == entries[k];
    assert(ordered[at].path@ == entries[k].path@);
    let found = crate::compare::entry_at(ordered, entries[k].path@)->0;
    let l = choose|l: int| 0 <= l < ordered.len() && ordered[l] == found;
    if l < at {
        assert(crate::path::path_less(ordered[l].path@, ordered[at].path@));
        crate::path::path_order_is_total(ordered[l].path@, ordered[l].path@);
    } else if at < l {
        assert(crate::path::path_less(ordered[at].path@, ordered[l].path@));
        crate::path::path_order_is_total(ordered[l].path@, ordered[l].path@);
    }
}

proof fn lemma_ordered_absent(parent: Seq<u8>, entries: Seq<TreeEntry>, path: Seq<u8>)
    requires
        is_listing(parent, entries),
        forall|k: int| 0 <= k < entries.len() ==> (#[trigger] entries[k]).path@ != path,
    ensures
        crate::compare::entry_at(crate::compare::by_path(entries), path) is None,
{
    let ordered = crate::compare::by_path(entries);
    crate::compare::distinct_paths_order_strictly(entries);
    lemma_entry_at(ordered, path);
    if let Some(entry) = crate::compare::entry_at(ordered, path) {
        let at = choose|at: int| 0 <= at < ordered.len() && ordered[at] == entry;
        assert(entries.contains(ordered[at]));
        let k = choose|k: int| 0 <= k < entries.len() && entries[k] == entry;
        assert(entries[k].path@ != path);
    }
}

proof fn lemma_paired_holds(
    trees: TreeStore,
    old: TreeEntry,
    new: TreeEntry,
    depth: nat,
    change: ChangeModel,
)
    requires
        lists_paths(trees),
        old.path@.len() > 0,
        old.path@ == new.path@,
        at_or_below(old.path@, change.path),
        depth + (change.path.len() - old.path@.len()) < u64::MAX,
    ensures
        crate::compare::paired(trees, old, new, depth).contains(change) <==> told(
            beneath(trees, old, change.path),
            beneath(trees, new, change.path),
            change,
        ),
    decreases change.path.len() - old.path@.len(), 1nat,
{
    let all = crate::compare::paired(trees, old, new, depth);
    let path = change.path;
    if old.kind == new.kind && old.kind == EntryKind::Tree {
        lemma_compared_paths(trees, old.oid, new.oid, old.path@, depth);
        if path == old.path@ {
            if all.contains(change) {
                let i = choose|i: int| 0 <= i < all.len() && all[i] == change;
                assert(below(old.path@, all[i].path));
                lemma_below_directory(old.path@, path);
            }
        } else {
            lemma_leads_below(old, path);
            lemma_compared_holds(trees, old.oid, new.oid, old.path@, depth, change);
        }
    } else {
        if all.len() > 0 {
            assert(all[0].path == old.path@);
            if all.contains(change) {
                let i = choose|i: int| 0 <= i < all.len() && all[i] == change;
            }
            assert(all.contains(all[0]));
        }
    }
}

proof fn lemma_compared_holds(
    trees: TreeStore,
    base: ObjectId,
    head: ObjectId,
    parent: Seq<u8>,
    depth: nat,
    change: ChangeModel,
)
    requires
        lists_paths(trees),
        leads_into(parent, change.path),
        depth + (change.path.len() - parent.len()) < u64::MAX,
    ensures
        ({
            let start = prefix_of(parent).len() as int;
            crate::compare::compared(trees, base, head, parent, depth).contains(change) <==> told(
                crate::entry::lookup_from(trees, base, parent, change.path, start),
                crate::entry::lookup_from(trees, head, parent, change.path, start),
                change,
            )
        }),
    decreases change.path.len() - parent.len(), 0nat,
{
    let start = prefix_of(parent).len() as int;
    let path = change.path;
    let olds = trees[(base, parent)];
    let news = trees[(head, parent)];
    let child = child_part(parent, path);
    let all = crate::compare::compared(trees, base, head, parent, depth);
    assert(is_listing(parent, olds));
    assert(is_listing(parent, news));
    lemma_child_part(parent, path);
    lemma_followed(trees, base, parent, path);
    lemma_followed(trees, head, parent, path);
    if base == head {
    } else if child.len() <= start {
        lemma_compared_paths(trees, base, head, parent, depth);
        if all.contains(change) {
            let i = choose|i: int| 0 <= i < all.len() && all[i] == change;
            assert(below(parent, all[i].path));
            let other = choose|other: Seq<u8>|
                is_child(parent, other) && #[trigger] at_or_below(other, path);
            assert(other == child);
        }
        assert forall|k: int| 0 <= k < olds.len() implies !at_or_below(
            (#[trigger] olds[k]).path@,
            path,
        ) by {
            assert(is_child(parent, olds[k].path@));
        }
        assert(!covered(olds, path));
        assert forall|k: int| 0 <= k < news.len() implies !at_or_below(
            (#[trigger] news[k]).path@,
            path,
        ) by {
            assert(is_child(parent, news[k].path@));
        }
        assert(!covered(news, path));
    } else {
        let old_ordered = crate::compare::by_path(olds);
        let new_ordered = crate::compare::by_path(news);
        lemma_ordered_listing(parent, olds);
        lemma_ordered_listing(parent, news);
        lemma_merged_holds(trees, parent, old_ordered, new_ordered, depth + 1, child, change);
        let a = crate::entry::lookup_from(trees, base, parent, path, start);
        let b = crate::entry::lookup_from(trees, head, parent, path, start);
        if covered(olds, path) {
            let k = choose|k: int|
                0 <= k < olds.len() && at_or_below((#[trigger] olds[k]).path@, path);
            assert(is_child(parent, olds[k].path@));
            assert(olds[k].path@ == child);
            lemma_ordered_entry(parent, olds, k);
            assert(a == beneath(trees, olds[k], path));
            if covered(news, path) {
                let l = choose|l: int|
                    0 <= l < news.len() && at_or_below((#[trigger] news[l]).path@, path);
                assert(is_child(parent, news[l].path@));
                assert(news[l].path@ == child);
                lemma_ordered_entry(parent, news, l);
                assert(b == beneath(trees, news[l], path));
                lemma_paired_holds(trees, olds[k], news[l], depth + 1, change);
            } else {
                lemma_uncovered(parent, news, path);
                lemma_ordered_absent(parent, news, child);
                lemma_collected_holds(trees, olds[k], Side::Base, depth + 1, change);
            }
        } else {
            lemma_uncovered(parent, olds, path);
            lemma_ordered_absent(parent, olds, child);
            if covered(news, path) {
                let l = choose|l: int|
                    0 <= l < news.len() && at_or_below((#[trigger] news[l]).path@, path);
                assert(is_child(parent, news[l].path@));
                assert(news[l].path@ == child);
                lemma_ordered_entry(parent, news, l);
                assert(b == beneath(trees, news[l], path));
                lemma_collected_holds(trees, news[l], Side::Head, depth + 1, change);
            } else {
                lemma_uncovered(parent, news, path);
                lemma_ordered_absent(parent, news, child);
            }
        }
    }
}

proof fn lemma_uncovered(parent: Seq<u8>, entries: Seq<TreeEntry>, path: Seq<u8>)
    requires
        leads_into(parent, path),
        child_part(parent, path).len() > prefix_of(parent).len(),
        !covered(entries, path),
    ensures
        forall|k: int|
            0 <= k < entries.len() ==> (#[trigger] entries[k]).path@ != child_part(parent, path),
{
    lemma_child_part(parent, path);
    assert forall|k: int| 0 <= k < entries.len() implies (#[trigger] entries[k]).path@
        != child_part(parent, path) by {
        assert(!at_or_below(entries[k].path@, path));
    }
}

/// A comparison tells exactly what differs at each path, whatever stands there: two
/// entries of different kinds have changed their type; two of one kind that are no trees
/// are modified where their objects differ and changed in mode where only their modes do;
/// what is no tree and stands on one side alone is deleted or added, unless something
/// other than a directory stands on the other side in the place of one of its
/// directories. Every such difference is told, and nothing else is.
pub proof fn a_comparison_tells_what_differs_at_each_path(
    trees: TreeStore,
    base: ObjectId,
    head: ObjectId,
    change: ChangeModel,
)
    requires
        lists_paths(trees),
        change.path.len() < u64::MAX,
    ensures
        crate::compare::tree_difference(trees, base, head).contains(change) <==> match (
            crate::entry::lookup(trees, base, change.path),
            crate::entry::lookup(trees, head, change.path),
        ) {
            (Lookup::Found(old), Lookup::Found(new)) => {
                &&& change.before == Some(old) && change.after == Some(new)
                &&& match change.kind {
                    ChangeKind::TypeChanged => old.kind != new.kind,
                    ChangeKind::Modified => old.kind == new.kind && old.kind != EntryKind::Tree
                        && old.oid != new.oid,
                    ChangeKind::ModeChanged => old.kind == new.kind && old.kind != EntryKind::Tree
                        && old.oid == new.oid && old.mode != new.mode,
                    ChangeKind::Added => false,
                    ChangeKind::Deleted => false,
                }
            },
            (Lookup::Found(old), Lookup::Missing) => old.kind != EntryKind::Tree && change.before
                == Some(old) && change.after is None && change.kind == ChangeKind::Deleted,
            (Lookup::Missing, Lookup::Found(new)) => new.kind != EntryKind::Tree && change.before
                is None && change.after == Some(new) && change.kind == ChangeKind::Added,
            _ => false,
        },
{
    let none = Seq::<u8>::empty();
    assert(change.path.subrange(0, 0) =~= none);
    lemma_compared_holds(trees, base, head, none, 0, change);
    every_entry_is_found_at_its_path(trees, base, change.path);
    every_entry_is_found_at_its_path(trees, head, change.path);
}

/// What a finished comparison shows is what differs: of every path that is not as long as
/// can be counted, it holds the one change that the two snapshots make there, and none
/// where they make none.
pub proof fn a_finished_comparison_tells_every_difference(
    walk: CompareWalk,
    trees: TreeStore,
    path: Seq<u8>,
)
    requires
        lists_paths(trees),
        walk.complete(),
        crate::replies::answers(walk.log(), trees),
        path.len() < u64::MAX,
    ensures
        ({
            let old = crate::entry::lookup(trees, walk.base(), path);
            let new = crate::entry::lookup(trees, walk.head(), path);
            let differs = match (old, new) {
                (Lookup::Found(old), Lookup::Found(new)) => old.kind != new.kind || (old.kind
                    != EntryKind::Tree && (old.oid != new.oid || old.mode != new.mode)),
                (Lookup::Found(old), Lookup::Missing) => old.kind != EntryKind::Tree,
                (Lookup::Missing, Lookup::Found(new)) => new.kind != EntryKind::Tree,
                _ => false,
            };
            &&& differs <==> exists|i: int|
                0 <= i < walk.changes().len() && (#[trigger] walk.changes()[i]).path@ == path
            &&& forall|i: int|
                0 <= i < walk.changes().len() && (#[trigger] walk.changes()[i]).path@ == path ==> {
                    let change = walk.changes()[i];
                    &&& change.old == (match old {
                        Lookup::Found(entry) => Some(entry),
                        _ => None,
                    })
                    &&& change.new == (match new {
                        Lookup::Found(entry) => Some(entry),
                        _ => None,
                    })
                }
            &&& forall|i: int, j: int|
                0 <= i < j < walk.changes().len() ==> (#[trigger] walk.changes()[i]).path@ != (
                #[trigger] walk.changes()[j]).path@
        }),
{
    let all = crate::compare::tree_difference(trees, walk.base(), walk.head());
    let values = crate::compare::change_values(walk.changes());
    assert(values == all);
    let old = crate::entry::lookup(trees, walk.base(), path);
    let new = crate::entry::lookup(trees, walk.head(), path);
    assert forall|i: int|
        0 <= i < walk.changes().len() && (#[trigger] walk.changes()[i]).path@ == path implies told(
        old,
        new,
        values[i],
    ) by {
        assert(values[i] == walk.changes()[i]@);
        assert(all.contains(values[i]));
        a_comparison_tells_what_differs_at_each_path(trees, walk.base(), walk.head(), values[i]);
        every_entry_is_found_at_its_path(trees, walk.base(), path);
        every_entry_is_found_at_its_path(trees, walk.head(), path);
    }
    every_entry_is_found_at_its_path(trees, walk.base(), path);
    every_entry_is_found_at_its_path(trees, walk.head(), path);
    let change = match (old, new) {
        (Lookup::Found(o), Lookup::Found(n)) => ChangeModel {
            path,
            kind: if o.kind != n.kind {
                ChangeKind::TypeChanged
            } else if o.oid != n.oid {
                ChangeKind::Modified
            } else {
                ChangeKind::ModeChanged
            },
            before: Some(o),
            after: Some(n),
        },
        (Lookup::Found(o), _) => ChangeModel {
            path,
            kind: ChangeKind::Deleted,
            before: Some(o),
            after: None,
        },
        (_, Lookup::Found(n)) => ChangeModel {
            path,
            kind: ChangeKind::Added,
            before: None,
            after: Some(n),
        },
        _ => ChangeModel { path, kind: ChangeKind::Added, before: None, after: None },
    };
    a_comparison_tells_what_differs_at_each_path(trees, walk.base(), walk.head(), change);
    if all.contains(change) {
        let i = choose|i: int| 0 <= i < all.len() && all[i] == change;
        assert(values[i] == walk.changes()[i]@);
        assert(walk.changes()[i].path@ == path);
    }
    compared_paths_are_apart(trees, walk.base(), walk.head());
    assert forall|i: int, j: int| 0 <= i < j < walk.changes().len() implies (
    #[trigger] walk.changes()[i]).path@ != (#[trigger] walk.changes()[j]).path@ by {
        assert(values[i] == walk.changes()[i]@ && values[j] == walk.changes()[j]@);
    }
}

} // verus!
