use vstd::prelude::*;

use crate::entry::{TreeLog, TreeStore};
use crate::error::Error;
use crate::model::{ChangeKind, TreeEntry};
use crate::oid::{EntryKind, ObjectId};
use crate::path::{next_depth, GitPath, PathOrder};
use crate::sort::{sort_by_path, Pathed};

verus! {

/// How one path differs between two snapshots.
#[derive(Debug, PartialEq, Eq)]
pub struct TreeChange {
    pub path: GitPath,
    pub kind: ChangeKind,
    pub old: Option<TreeEntry>,
    pub new: Option<TreeEntry>,
}

/// The content of a [`TreeChange`].
pub struct ChangeModel {
    pub path: Seq<u8>,
    pub kind: ChangeKind,
    pub before: Option<TreeEntry>,
    pub after: Option<TreeEntry>,
}

impl View for TreeChange {
    type V = ChangeModel;

    open spec fn view(&self) -> ChangeModel {
        ChangeModel { path: self.path@, kind: self.kind, before: self.old, after: self.new }
    }
}

impl Pathed for TreeChange {
    open spec fn at(&self) -> Seq<u8> {
        self.path@
    }

    fn path_ref(&self) -> (result: &GitPath) {
        &self.path
    }
}

/// The differences between two snapshots.
#[derive(Debug, PartialEq, Eq)]
pub struct Comparison {
    pub base: ObjectId,
    pub head: ObjectId,
    pub changes: Vec<TreeChange>,
}

/// Which snapshot alone holds something.
#[derive(Debug, Clone, Copy, PartialEq, Eq, Structural)]
pub enum Side {
    Base,
    Head,
}

/// Put one entry into its place among ordered ones, behind equal paths.
pub open spec fn place_entry(ordered: Seq<TreeEntry>, entry: TreeEntry) -> Seq<TreeEntry>
    decreases ordered.len(),
{
    if ordered.len() > 0 && crate::path::path_less(entry.path@, ordered.last().path@) {
        place_entry(ordered.drop_last(), entry).push(ordered.last())
    } else {
        ordered.push(entry)
    }
}

/// The entries of a tree in the order of their raw paths.
pub open spec fn by_path(entries: Seq<TreeEntry>) -> Seq<TreeEntry>
    decreases entries.len(),
{
    if entries.len() == 0 {
        entries
    } else {
        place_entry(by_path(entries.drop_last()), entries.last())
    }
}

/// The change that a file on one side alone means.
pub open spec fn one_sided(entry: TreeEntry, side: Side) -> ChangeModel {
    match side {
        Side::Base => ChangeModel {
            path: entry.path@,
            kind: ChangeKind::Deleted,
            before: Some(entry),
            after: None,
        },
        Side::Head => ChangeModel {
            path: entry.path@,
            kind: ChangeKind::Added,
            before: None,
            after: Some(entry),
        },
    }
}

/// Every file at or below an entry that one side alone holds.
pub open spec fn collected(trees: TreeStore, entry: TreeEntry, side: Side, depth: nat) -> Seq<
    ChangeModel,
>
    decreases u64::MAX - depth, 1nat, 0nat,
{
    if entry.kind != EntryKind::Tree {
        seq![one_sided(entry, side)]
    } else if depth < u64::MAX {
        collected_all(trees, trees[(entry.oid, entry.path@)], side, depth + 1)
    } else {
        Seq::empty()
    }
}

/// Every file at or below entries that one side alone holds.
pub open spec fn collected_all(
    trees: TreeStore,
    entries: Seq<TreeEntry>,
    side: Side,
    depth: nat,
) -> Seq<ChangeModel>
    decreases u64::MAX - depth, 2nat, entries.len(),
{
    if entries.len() == 0 {
        Seq::empty()
    } else {
        collected(trees, entries[0], side, depth) + collected_all(
            trees,
            entries.drop_first(),
            side,
            depth,
        )
    }
}

pub open spec fn two_sided(old: TreeEntry, new: TreeEntry, kind: ChangeKind) -> ChangeModel {
    ChangeModel { path: old.path@, kind, before: Some(old), after: Some(new) }
}

/// The differences at and below a path that both sides hold.
pub open spec fn paired(trees: TreeStore, old: TreeEntry, new: TreeEntry, depth: nat) -> Seq<
    ChangeModel,
>
    decreases u64::MAX - depth, 2nat, 0nat,
{
    if old.kind != new.kind {
        seq![two_sided(old, new, ChangeKind::TypeChanged)]
    } else if old.kind == EntryKind::Tree {
        compared(trees, old.oid, new.oid, old.path@, depth)
    } else if old.oid != new.oid {
        seq![two_sided(old, new, ChangeKind::Modified)]
    } else if old.mode != new.mode {
        seq![two_sided(old, new, ChangeKind::ModeChanged)]
    } else {
        Seq::empty()
    }
}

/// The differences of two lists of entries that are ordered by path.
pub open spec fn merged(
    trees: TreeStore,
    base: Seq<TreeEntry>,
    head: Seq<TreeEntry>,
    depth: nat,
) -> Seq<ChangeModel>
    decreases u64::MAX - depth, 3nat, base.len() + head.len(),
{
    if base.len() == 0 && head.len() == 0 {
        Seq::empty()
    } else if head.len() == 0 || (base.len() > 0 && crate::path::path_less(
        base[0].path@,
        head[0].path@,
    )) {
        collected(trees, base[0], Side::Base, depth) + merged(
            trees,
            base.drop_first(),
            head,
            depth,
        )
    } else if base.len() == 0 || crate::path::path_less(head[0].path@, base[0].path@) {
        collected(trees, head[0], Side::Head, depth) + merged(
            trees,
            base,
            head.drop_first(),
            depth,
        )
    } else {
        paired(trees, base[0], head[0], depth) + merged(
            trees,
            base.drop_first(),
            head.drop_first(),
            depth,
        )
    }
}

/// The differences of two trees that stand at the same path and depth; equal
/// identities mean that there are none.
pub open spec fn compared(
    trees: TreeStore,
    base: ObjectId,
    head: ObjectId,
    parent: Seq<u8>,
    depth: nat,
) -> Seq<ChangeModel>
    decreases u64::MAX - depth, 1nat, 0nat,
{
    if base == head || depth >= u64::MAX {
        Seq::empty()
    } else {
        merged(
            trees,
            by_path(trees[(base, parent)]),
            by_path(trees[(head, parent)]),
            depth + 1,
        )
    }
}

/// The differences of two snapshots.
pub open spec fn tree_difference(trees: TreeStore, base: ObjectId, head: ObjectId) -> Seq<
    ChangeModel,
> {
    compared(trees, base, head, Seq::empty(), 0)
}

/// Equal trees have no difference, whatever they contain.
pub proof fn equal_trees_are_pruned(trees: TreeStore, tree: ObjectId)
    ensures
        tree_difference(trees, tree, tree) == Seq::<ChangeModel>::empty(),
{
}

/// Whether a change says what it is: a file on one side alone, or two entries of
/// its path that differ as its kind tells.
pub open spec fn is_change(change: ChangeModel) -> bool {
    &&& change.before matches Some(entry) ==> entry.path@ == change.path
    &&& change.after matches Some(entry) ==> entry.path@ == change.path
    &&& match change.kind {
        ChangeKind::Added => change.before is None && change.after is Some && (
        change.after->0).kind != EntryKind::Tree,
        ChangeKind::Deleted => change.before is Some && change.after is None && (
        change.before->0).kind != EntryKind::Tree,
        _ => {
            let before = change.before->0;
            let after = change.after->0;
            &&& change.before is Some
            &&& change.after is Some
            &&& match change.kind {
                ChangeKind::TypeChanged => before.kind != after.kind,
                ChangeKind::Modified => before.kind == after.kind && before.kind
                    != EntryKind::Tree && before.oid != after.oid,
                _ => before.kind == after.kind && before.kind != EntryKind::Tree && before.oid
                    == after.oid && before.mode != after.mode,
            }
        },
    }
}

pub open spec fn all_are_changes(changes: Seq<ChangeModel>) -> bool {
    forall|i: int| 0 <= i < changes.len() ==> is_change(#[trigger] changes[i])
}

proof fn lemma_changes_join(a: Seq<ChangeModel>, b: Seq<ChangeModel>)
    requires
        all_are_changes(a),
        all_are_changes(b),
    ensures
        all_are_changes(a + b),
{
    assert forall|i: int| 0 <= i < (a + b).len() implies is_change(#[trigger] (a + b)[i]) by {
        if i < a.len() {
            assert((a + b)[i] == a[i]);
        } else {
            assert((a + b)[i] == b[i - a.len()]);
        }
    }
}

proof fn lemma_collected_are_changes(trees: TreeStore, entry: TreeEntry, side: Side, depth: nat)
    ensures
        all_are_changes(collected(trees, entry, side, depth)),
    decreases u64::MAX - depth, 1nat, 0nat,
{
    if entry.kind == EntryKind::Tree && depth < u64::MAX {
        lemma_all_collected_are_changes(
            trees,
            trees[(entry.oid, entry.path@)],
            side,
            depth + 1,
        );
    }
}

proof fn lemma_all_collected_are_changes(
    trees: TreeStore,
    entries: Seq<TreeEntry>,
    side: Side,
    depth: nat,
)
    ensures
        all_are_changes(collected_all(trees, entries, side, depth)),
    decreases u64::MAX - depth, 2nat, entries.len(),
{
    if entries.len() > 0 {
        lemma_collected_are_changes(trees, entries[0], side, depth);
        lemma_all_collected_are_changes(trees, entries.drop_first(), side, depth);
        lemma_changes_join(
            collected(trees, entries[0], side, depth),
            collected_all(trees, entries.drop_first(), side, depth),
        );
    }
}

proof fn lemma_merged_are_changes(
    trees: TreeStore,
    base: Seq<TreeEntry>,
    head: Seq<TreeEntry>,
    depth: nat,
)
    ensures
        all_are_changes(merged(trees, base, head, depth)),
    decreases u64::MAX - depth, 3nat, base.len() + head.len(),
{
    if base.len() == 0 && head.len() == 0 {
    } else if head.len() == 0 || (base.len() > 0 && crate::path::path_less(
        base[0].path@,
        head[0].path@,
    )) {
        lemma_collected_are_changes(trees, base[0], Side::Base, depth);
        lemma_merged_are_changes(trees, base.drop_first(), head, depth);
        lemma_changes_join(
            collected(trees, base[0], Side::Base, depth),
            merged(trees, base.drop_first(), head, depth),
        );
    } else if base.len() == 0 || crate::path::path_less(head[0].path@, base[0].path@) {
        lemma_collected_are_changes(trees, head[0], Side::Head, depth);
        lemma_merged_are_changes(trees, base, head.drop_first(), depth);
        lemma_changes_join(
            collected(trees, head[0], Side::Head, depth),
            merged(trees, base, head.drop_first(), depth),
        );
    } else {
        let old = base[0];
        let new = head[0];
        crate::path::path_order_is_total(old.path@, new.path@);
        if old.kind == new.kind && old.kind == EntryKind::Tree {
            lemma_compared_are_changes(trees, old.oid, new.oid, old.path@, depth);
        }
        lemma_merged_are_changes(trees, base.drop_first(), head.drop_first(), depth);
        lemma_changes_join(
            paired(trees, old, new, depth),
            merged(trees, base.drop_first(), head.drop_first(), depth),
        );
    }
}

proof fn lemma_compared_are_changes(
    trees: TreeStore,
    base: ObjectId,
    head: ObjectId,
    parent: Seq<u8>,
    depth: nat,
)
    ensures
        all_are_changes(compared(trees, base, head, parent, depth)),
    decreases u64::MAX - depth, 1nat, 0nat,
{
    if base != head && depth < u64::MAX {
        lemma_merged_are_changes(
            trees,
            by_path(trees[(base, parent)]),
            by_path(trees[(head, parent)]),
            depth + 1,
        );
    }
}

/// Nothing that is equal on both sides is ever reported: a change names a file that
/// one side alone has, or two entries of one path that differ in type, in content,
/// or in nothing but their mode.
pub proof fn only_differences_are_reported(trees: TreeStore, base: ObjectId, head: ObjectId)
    ensures
        all_are_changes(tree_difference(trees, base, head)),
{
    lemma_compared_are_changes(trees, base, head, Seq::empty(), 0);
}

/// The change seen from the other side.
pub open spec fn mirror(change: ChangeModel) -> ChangeModel {
    ChangeModel {
        path: change.path,
        kind: match change.kind {
            ChangeKind::Added => ChangeKind::Deleted,
            ChangeKind::Deleted => ChangeKind::Added,
            kind => kind,
        },
        before: change.after,
        after: change.before,
    }
}

pub open spec fn mirrored(changes: Seq<ChangeModel>) -> Seq<ChangeModel> {
    changes.map_values(|change: ChangeModel| mirror(change))
}

pub open spec fn other_side(side: Side) -> Side {
    match side {
        Side::Base => Side::Head,
        Side::Head => Side::Base,
    }
}

proof fn lemma_mirror_joins(a: Seq<ChangeModel>, b: Seq<ChangeModel>)
    ensures
        mirrored(a + b) == mirrored(a) + mirrored(b),
{
    assert(mirrored(a + b) =~= mirrored(a) + mirrored(b));
}

proof fn lemma_collected_mirror(trees: TreeStore, entry: TreeEntry, side: Side, depth: nat)
    ensures
        collected(trees, entry, other_side(side), depth) == mirrored(
            collected(trees, entry, side, depth),
        ),
    decreases u64::MAX - depth, 1nat, 0nat,
{
    if entry.kind != EntryKind::Tree {
        assert(collected(trees, entry, other_side(side), depth) =~= mirrored(
            collected(trees, entry, side, depth),
        ));
    } else if depth < u64::MAX {
        lemma_all_collected_mirror(trees, trees[(entry.oid, entry.path@)], side, depth + 1);
    } else {
        assert(mirrored(Seq::empty()) =~= Seq::empty());
    }
}

proof fn lemma_all_collected_mirror(
    trees: TreeStore,
    entries: Seq<TreeEntry>,
    side: Side,
    depth: nat,
)
    ensures
        collected_all(trees, entries, other_side(side), depth) == mirrored(
            collected_all(trees, entries, side, depth),
        ),
    decreases u64::MAX - depth, 2nat, entries.len(),
{
    if entries.len() == 0 {
        assert(mirrored(Seq::empty()) =~= Seq::empty());
    } else {
        lemma_collected_mirror(trees, entries[0], side, depth);
        lemma_all_collected_mirror(trees, entries.drop_first(), side, depth);
        lemma_mirror_joins(
            collected(trees, entries[0], side, depth),
            collected_all(trees, entries.drop_first(), side, depth),
        );
    }
}

proof fn lemma_merged_mirror(
    trees: TreeStore,
    base: Seq<TreeEntry>,
    head: Seq<TreeEntry>,
    depth: nat,
)
    ensures
        merged(trees, head, base, depth) == mirrored(merged(trees, base, head, depth)),
    decreases u64::MAX - depth, 3nat, base.len() + head.len(),
{
    if base.len() == 0 && head.len() == 0 {
        assert(mirrored(Seq::empty()) =~= Seq::empty());
    } else {
        if base.len() > 0 && head.len() > 0 {
            crate::path::path_order_is_total(base[0].path@, head[0].path@);
        }
        if head.len() == 0 || (base.len() > 0 && crate::path::path_less(
            base[0].path@,
            head[0].path@,
        )) {
            lemma_collected_mirror(trees, base[0], Side::Base, depth);
            lemma_merged_mirror(trees, base.drop_first(), head, depth);
            lemma_mirror_joins(
                collected(trees, base[0], Side::Base, depth),
                merged(trees, base.drop_first(), head, depth),
            );
        } else if base.len() == 0 || crate::path::path_less(head[0].path@, base[0].path@) {
            lemma_collected_mirror(trees, head[0], Side::Head, depth);
            lemma_merged_mirror(trees, base, head.drop_first(), depth);
            lemma_mirror_joins(
                collected(trees, head[0], Side::Head, depth),
                merged(trees, base, head.drop_first(), depth),
            );
        } else {
            let old = base[0];
            let new = head[0];
            assert(paired(trees, new, old, depth) == mirrored(paired(trees, old, new, depth))) by {
                if old.kind == new.kind && old.kind == EntryKind::Tree {
                    lemma_compared_mirror(trees, old.oid, new.oid, old.path@, depth);
                } else {
                    assert(paired(trees, new, old, depth) =~= mirrored(
                        paired(trees, old, new, depth),
                    ));
                }
            }
            lemma_merged_mirror(trees, base.drop_first(), head.drop_first(), depth);
            lemma_mirror_joins(
                paired(trees, old, new, depth),
                merged(trees, base.drop_first(), head.drop_first(), depth),
            );
        }
    }
}

proof fn lemma_compared_mirror(
    trees: TreeStore,
    base: ObjectId,
    head: ObjectId,
    parent: Seq<u8>,
    depth: nat,
)
    ensures
        compared(trees, head, base, parent, depth) == mirrored(
            compared(trees, base, head, parent, depth),
        ),
    decreases u64::MAX - depth, 1nat, 0nat,
{
    if base == head || depth >= u64::MAX {
        assert(mirrored(Seq::empty()) =~= Seq::empty());
    } else {
        lemma_merged_mirror(
            trees,
            by_path(trees[(base, parent)]),
            by_path(trees[(head, parent)]),
            depth + 1,
        );
    }
}

/// Comparing the other way round reports the same changes seen from the other
/// side: what was added is deleted, and every pair of entries is exchanged.
pub proof fn comparison_is_symmetric(trees: TreeStore, base: ObjectId, head: ObjectId)
    ensures
        tree_difference(trees, head, base) == mirrored(tree_difference(trees, base, head)),
{
    lemma_compared_mirror(trees, base, head, Seq::empty(), 0);
}

/// No two entries share a path, and each sorts before those behind it.
pub open spec fn strictly_ordered(entries: Seq<TreeEntry>) -> bool {
    forall|i: int, j: int|
        0 <= i < j < entries.len() ==> crate::path::path_less(
            (#[trigger] entries[i]).path@,
            (#[trigger] entries[j]).path@,
        )
}

/// The entry at a path.
pub open spec fn entry_at(entries: Seq<TreeEntry>, path: Seq<u8>) -> Option<TreeEntry>
    decreases entries.len(),
{
    if entries.len() == 0 {
        None
    } else if entries[0].path@ == path {
        Some(entries[0])
    } else {
        entry_at(entries.drop_first(), path)
    }
}

/// What each base entry contributes: the difference from the head entry at the
/// same path, or its deletion.
pub open spec fn base_side(
    trees: TreeStore,
    base: Seq<TreeEntry>,
    head: Seq<TreeEntry>,
    depth: nat,
) -> vstd::multiset::Multiset<ChangeModel>
    decreases base.len(),
{
    if base.len() == 0 {
        vstd::multiset::Multiset::empty()
    } else {
        (match entry_at(head, base[0].path@) {
            Some(new) => paired(trees, base[0], new, depth),
            None => collected(trees, base[0], Side::Base, depth),
        }).to_multiset().add(base_side(trees, base.drop_first(), head, depth))
    }
}

/// What each head entry without a base entry at its path contributes: its
/// addition.
pub open spec fn head_side(
    trees: TreeStore,
    base: Seq<TreeEntry>,
    head: Seq<TreeEntry>,
    depth: nat,
) -> vstd::multiset::Multiset<ChangeModel>
    decreases head.len(),
{
    if head.len() == 0 {
        vstd::multiset::Multiset::empty()
    } else {
        (match entry_at(base, head[0].path@) {
            Some(_) => Seq::empty(),
            None => collected(trees, head[0], Side::Head, depth),
        }).to_multiset().add(head_side(trees, base, head.drop_first(), depth))
    }
}

proof fn lemma_entry_absent(entries: Seq<TreeEntry>, path: Seq<u8>)
    requires
        forall|i: int|
            0 <= i < entries.len() ==> crate::path::path_less(path, (#[trigger] entries[i]).path@),
    ensures
        entry_at(entries, path) is None,
    decreases entries.len(),
{
    if entries.len() > 0 {
        crate::path::path_order_is_total(path, entries[0].path@);
        let rest = entries.drop_first();
        assert forall|i: int| 0 <= i < rest.len() implies crate::path::path_less(
            path,
            (#[trigger] rest[i]).path@,
        ) by {
            assert(rest[i] == entries[i + 1]);
        }
        lemma_entry_absent(rest, path);
    }
}

proof fn lemma_base_side_unaffected(
    trees: TreeStore,
    base: Seq<TreeEntry>,
    head: Seq<TreeEntry>,
    depth: nat,
)
    requires
        head.len() > 0,
        forall|i: int|
            0 <= i < base.len() ==> crate::path::path_less(
                head[0].path@,
                (#[trigger] base[i]).path@,
            ),
    ensures
        base_side(trees, base, head, depth) == base_side(trees, base, head.drop_first(), depth),
    decreases base.len(),
{
    if base.len() > 0 {
        crate::path::path_order_is_total(head[0].path@, base[0].path@);
        let rest = base.drop_first();
        assert forall|i: int| 0 <= i < rest.len() implies crate::path::path_less(
            head[0].path@,
            (#[trigger] rest[i]).path@,
        ) by {
            assert(rest[i] == base[i + 1]);
        }
        lemma_base_side_unaffected(trees, rest, head, depth);
    }
}

proof fn lemma_head_side_unaffected(
    trees: TreeStore,
    base: Seq<TreeEntry>,
    head: Seq<TreeEntry>,
    depth: nat,
)
    requires
        base.len() > 0,
        forall|i: int|
            0 <= i < head.len() ==> crate::path::path_less(
                base[0].path@,
                (#[trigger] head[i]).path@,
            ),
    ensures
        head_side(trees, base, head, depth) == head_side(trees, base.drop_first(), head, depth),
    decreases head.len(),
{
    if head.len() > 0 {
        crate::path::path_order_is_total(base[0].path@, head[0].path@);
        let rest = head.drop_first();
        assert forall|i: int| 0 <= i < rest.len() implies crate::path::path_less(
            base[0].path@,
            (#[trigger] rest[i]).path@,
        ) by {
            assert(rest[i] == head[i + 1]);
        }
        lemma_head_side_unaffected(trees, base, rest, depth);
    }
}

proof fn lemma_first_is_least(entries: Seq<TreeEntry>, path: Seq<u8>)
    requires
        strictly_ordered(entries),
        entries.len() > 0,
        crate::path::path_less(path, entries[0].path@) || path == entries[0].path@,
    ensures
        forall|i: int|
            0 < i < entries.len() ==> crate::path::path_less(path, (#[trigger] entries[i]).path@),
        crate::path::path_less(path, entries[0].path@) ==> forall|i: int|
            0 <= i < entries.len() ==> crate::path::path_less(path, (#[trigger] entries[i]).path@),
{
    assert forall|i: int| 0 < i < entries.len() implies crate::path::path_less(
        path,
        (#[trigger] entries[i]).path@,
    ) by {
        assert(crate::path::path_less(entries[0].path@, entries[i].path@));
        if path != entries[0].path@ {
            crate::path::path_order_is_transitive(path, entries[0].path@, entries[i].path@);
        }
    }
}

/// Entries are compared exactly with the entry at the same path on the other
/// side, whatever other names stand around them: one that stands on both sides
/// is never reported as deleted and added.
pub proof fn entries_are_compared_by_path(
    trees: TreeStore,
    base: Seq<TreeEntry>,
    head: Seq<TreeEntry>,
    depth: nat,
)
    requires
        strictly_ordered(base),
        strictly_ordered(head),
    ensures
        merged(trees, base, head, depth).to_multiset() == base_side(trees, base, head, depth).add(
            head_side(trees, base, head, depth),
        ),
    decreases base.len() + head.len(),
{
    broadcast use vstd::seq_lib::group_to_multiset_ensures;

    let none = Seq::<ChangeModel>::empty();
    let base_rest = base.drop_first();
    let head_rest = head.drop_first();
    if base.len() > 0 {
        assert forall|i: int, j: int| 0 <= i < j < base_rest.len() implies crate::path::path_less(
            (#[trigger] base_rest[i]).path@,
            (#[trigger] base_rest[j]).path@,
        ) by {
            assert(base_rest[i] == base[i + 1]);
            assert(base_rest[j] == base[j + 1]);
        }
    }
    if head.len() > 0 {
        assert forall|i: int, j: int| 0 <= i < j < head_rest.len() implies crate::path::path_less(
            (#[trigger] head_rest[i]).path@,
            (#[trigger] head_rest[j]).path@,
        ) by {
            assert(head_rest[i] == head[i + 1]);
            assert(head_rest[j] == head[j + 1]);
        }
    }
    if base.len() == 0 && head.len() == 0 {
        assert(merged(trees, base, head, depth).to_multiset() =~= base_side(
            trees,
            base,
            head,
            depth,
        ).add(head_side(trees, base, head, depth)));
    } else if head.len() == 0 || (base.len() > 0 && crate::path::path_less(
        base[0].path@,
        head[0].path@,
    )) {
        let first = collected(trees, base[0], Side::Base, depth);
        entries_are_compared_by_path(trees, base_rest, head, depth);
        if head.len() > 0 {
            lemma_first_is_least(head, base[0].path@);
        }
        lemma_entry_absent(head, base[0].path@);
        lemma_head_side_unaffected(trees, base, head, depth);
        vstd::seq_lib::lemma_multiset_commutative(first, merged(trees, base_rest, head, depth));
        assert(merged(trees, base, head, depth).to_multiset() =~= base_side(
            trees,
            base,
            head,
            depth,
        ).add(head_side(trees, base, head, depth)));
    } else if base.len() == 0 || crate::path::path_less(head[0].path@, base[0].path@) {
        let first = collected(trees, head[0], Side::Head, depth);
        entries_are_compared_by_path(trees, base, head_rest, depth);
        if base.len() > 0 {
            lemma_first_is_least(base, head[0].path@);
        }
        lemma_entry_absent(base, head[0].path@);
        lemma_base_side_unaffected(trees, base, head, depth);
        vstd::seq_lib::lemma_multiset_commutative(first, merged(trees, base, head_rest, depth));
        assert(merged(trees, base, head, depth).to_multiset() =~= base_side(
            trees,
            base,
            head,
            depth,
        ).add(head_side(trees, base, head, depth)));
    } else {
        let first = paired(trees, base[0], head[0], depth);
        crate::path::path_order_is_total(base[0].path@, head[0].path@);
        assert(base[0].path@ == head[0].path@);
        entries_are_compared_by_path(trees, base_rest, head_rest, depth);
        lemma_first_is_least(head, base[0].path@);
        lemma_first_is_least(base, head[0].path@);
        assert forall|i: int| 0 <= i < head_rest.len() implies crate::path::path_less(
            base[0].path@,
            (#[trigger] head_rest[i]).path@,
        ) by {
            assert(head_rest[i] == head[i + 1]);
        }
        assert forall|i: int| 0 <= i < base_rest.len() implies crate::path::path_less(
            head[0].path@,
            (#[trigger] base_rest[i]).path@,
        ) by {
            assert(base_rest[i] == base[i + 1]);
        }
        lemma_base_side_unaffected(trees, base_rest, head, depth);
        lemma_head_side_unaffected(trees, base, head_rest, depth);
        vstd::seq_lib::lemma_multiset_commutative(
            first,
            merged(trees, base_rest, head_rest, depth),
        );
        assert(none.to_multiset() =~= vstd::multiset::Multiset::empty());
        assert(merged(trees, base, head, depth).to_multiset() =~= base_side(
            trees,
            base,
            head,
            depth,
        ).add(head_side(trees, base, head, depth)));
    }
}

proof fn lemma_place_entry(ordered: Seq<TreeEntry>, entry: TreeEntry)
    requires
        crate::sort::in_path_order(ordered),
    ensures
        crate::sort::in_path_order(place_entry(ordered, entry)),
        place_entry(ordered, entry).to_multiset() == ordered.to_multiset().insert(entry),
        forall|i: int|
            0 <= i < place_entry(ordered, entry).len() ==> (#[trigger] place_entry(
                ordered,
                entry,
            )[i]) == entry || ordered.contains(place_entry(ordered, entry)[i]),
    decreases ordered.len(),
{
    broadcast use vstd::seq_lib::group_to_multiset_ensures;

    let placed = place_entry(ordered, entry);
    if ordered.len() > 0 && crate::path::path_less(entry.path@, ordered.last().path@) {
        let rest = ordered.drop_last();
        let last = ordered.last();
        let inner = place_entry(rest, entry);
        assert forall|i: int, j: int| 0 <= i < j < rest.len() implies !crate::path::path_less(
            (#[trigger] rest[j]).at(),
            (#[trigger] rest[i]).at(),
        ) by {
            assert(rest[i] == ordered[i]);
            assert(rest[j] == ordered[j]);
        }
        lemma_place_entry(rest, entry);
        assert(ordered =~= rest.push(last));
        assert(placed.to_multiset() =~= ordered.to_multiset().insert(entry));
        assert forall|i: int| 0 <= i < placed.len() implies (#[trigger] placed[i]) == entry
            || ordered.contains(placed[i]) by {
            if i < inner.len() {
                assert(placed[i] == inner[i]);
                if inner[i] != entry {
                    let k = choose|k: int| 0 <= k < rest.len() && rest[k] == inner[i];
                    assert(ordered[k] == placed[i]);
                }
            } else {
                assert(ordered[ordered.len() - 1] == placed[i]);
            }
        }
        assert forall|i: int, j: int| 0 <= i < j < placed.len() implies !crate::path::path_less(
            (#[trigger] placed[j]).at(),
            (#[trigger] placed[i]).at(),
        ) by {
            if j == placed.len() - 1 {
                assert(placed[i] == inner[i]);
                if inner[i] == entry {
                    crate::path::path_order_is_total(entry.path@, last.path@);
                } else {
                    let k = choose|k: int| 0 <= k < rest.len() && rest[k] == inner[i];
                    assert(ordered[k] == inner[i]);
                    assert(!crate::path::path_less(
                        ordered[ordered.len() - 1].at(),
                        ordered[k].at(),
                    ));
                }
            } else {
                assert(placed[i] == inner[i]);
                assert(placed[j] == inner[j]);
            }
        }
    } else {
        assert forall|i: int| 0 <= i < placed.len() implies (#[trigger] placed[i]) == entry
            || ordered.contains(placed[i]) by {
            if i < ordered.len() {
                assert(ordered[i] == placed[i]);
            }
        }
        assert forall|i: int, j: int| 0 <= i < j < placed.len() implies !crate::path::path_less(
            (#[trigger] placed[j]).at(),
            (#[trigger] placed[i]).at(),
        ) by {
            assert(placed[i] == ordered[i]);
            if j == placed.len() - 1 {
                let last = ordered.last();
                if crate::path::path_less(entry.path@, ordered[i].path@) {
                    if i == ordered.len() - 1 {
                    } else {
                        assert(!crate::path::path_less(
                            ordered[ordered.len() - 1].at(),
                            ordered[i].at(),
                        ));
                        crate::path::path_order_is_total(last.path@, ordered[i].path@);
                        if last.path@ == ordered[i].path@ {
                        } else {
                            crate::path::path_order_is_transitive(
                                entry.path@,
                                ordered[i].path@,
                                last.path@,
                            );
                        }
                    }
                }
            } else {
                assert(placed[j] == ordered[j]);
            }
        }
    }
}

/// Entries ordered by path are the same entries, in the order of their paths.
pub proof fn ordering_keeps_every_entry(entries: Seq<TreeEntry>)
    ensures
        crate::sort::in_path_order(by_path(entries)),
        by_path(entries).to_multiset() == entries.to_multiset(),
    decreases entries.len(),
{
    broadcast use vstd::seq_lib::group_to_multiset_ensures;

    if entries.len() > 0 {
        ordering_keeps_every_entry(entries.drop_last());
        lemma_place_entry(by_path(entries.drop_last()), entries.last());
        assert(entries =~= entries.drop_last().push(entries.last()));
    }
}

proof fn lemma_filtered_push(
    entries: Seq<TreeEntry>,
    entry: TreeEntry,
    keep: spec_fn(TreeEntry) -> bool,
)
    ensures
        entries.push(entry).filter(keep) == (if keep(entry) {
            entries.filter(keep).push(entry)
        } else {
            entries.filter(keep)
        }),
{
    reveal(Seq::filter);
    assert(entries.push(entry).drop_last() =~= entries);
}

proof fn lemma_placed_at_path(
    ordered: Seq<TreeEntry>,
    entry: TreeEntry,
    path: Seq<u8>,
    keep: spec_fn(TreeEntry) -> bool,
)
    requires
        forall|e: TreeEntry| #[trigger] keep(e) == (e.path@ == path),
    ensures
        place_entry(ordered, entry).filter(keep) == ordered.push(entry).filter(keep),
    decreases ordered.len(),
{
    if ordered.len() > 0 && crate::path::path_less(entry.path@, ordered.last().path@) {
        let rest = ordered.drop_last();
        let last = ordered.last();
        lemma_placed_at_path(rest, entry, path, keep);
        crate::path::path_order_is_total(entry.path@, last.path@);
        lemma_filtered_push(place_entry(rest, entry), last, keep);
        lemma_filtered_push(rest, entry, keep);
        lemma_filtered_push(rest, last, keep);
        lemma_filtered_push(ordered, entry, keep);
        assert(rest.push(last) =~= ordered);
    }
}

/// Entries that share a path keep their order when a tree's entries are ordered by path.
pub proof fn ordering_keeps_the_order_at_a_path(entries: Seq<TreeEntry>, path: Seq<u8>)
    ensures
        by_path(entries).filter(|entry: TreeEntry| entry.path@ == path) == entries.filter(
            |entry: TreeEntry| entry.path@ == path,
        ),
    decreases entries.len(),
{
    let keep = |entry: TreeEntry| entry.path@ == path;
    if entries.len() > 0 {
        let rest = entries.drop_last();
        ordering_keeps_the_order_at_a_path(rest, path);
        lemma_placed_at_path(by_path(rest), entries.last(), path, keep);
        lemma_filtered_push(by_path(rest), entries.last(), keep);
        lemma_filtered_push(rest, entries.last(), keep);
        assert(rest.push(entries.last()) =~= entries);
    }
}

/// No two entries share a path.
pub open spec fn paths_are_distinct(entries: Seq<TreeEntry>) -> bool {
    forall|i: int, j: int|
        0 <= i < j < entries.len() ==> (#[trigger] entries[i]).path@ != (
        #[trigger] entries[j]).path@
}

/// Entries that share no path are ordered strictly, and none is made up.
pub proof fn distinct_paths_order_strictly(entries: Seq<TreeEntry>)
    requires
        paths_are_distinct(entries),
    ensures
        strictly_ordered(by_path(entries)),
        forall|i: int|
            0 <= i < by_path(entries).len() ==> entries.contains(#[trigger] by_path(entries)[i]),
    decreases entries.len(),
{
    if entries.len() > 0 {
        let rest = entries.drop_last();
        let entry = entries.last();
        let ordered = by_path(rest);
        let placed = by_path(entries);
        assert forall|i: int, j: int| 0 <= i < j < rest.len() implies (#[trigger] rest[i]).path@
            != (#[trigger] rest[j]).path@ by {
            assert(rest[i] == entries[i]);
            assert(rest[j] == entries[j]);
        }
        distinct_paths_order_strictly(rest);
        ordering_keeps_every_entry(rest);
        ordering_keeps_every_entry(entries);
        assert forall|i: int| 0 <= i < ordered.len() implies entries.contains(
            #[trigger] ordered[i],
        ) && ordered[i].path@ != entry.path@ by {
            let k = choose|k: int| 0 <= k < rest.len() && rest[k] == ordered[i];
            assert(entries[k] == ordered[i]);
            assert(entries[k].path@ != entries[entries.len() - 1].path@);
        }
        lemma_place_strict(ordered, entry);
        assert forall|i: int| 0 <= i < placed.len() implies entries.contains(
            #[trigger] placed[i],
        ) by {
            if placed[i] == entry {
                assert(entries[entries.len() - 1] == entry);
            } else {
                let k = choose|k: int| 0 <= k < ordered.len() && ordered[k] == placed[i];
                assert(entries.contains(ordered[k]));
            }
        }
    }
}

proof fn lemma_place_strict(ordered: Seq<TreeEntry>, entry: TreeEntry)
    requires
        strictly_ordered(ordered),
        forall|i: int| 0 <= i < ordered.len() ==> (#[trigger] ordered[i]).path@ != entry.path@,
    ensures
        strictly_ordered(place_entry(ordered, entry)),
        forall|i: int|
            0 <= i < place_entry(ordered, entry).len() ==> (#[trigger] place_entry(
                ordered,
                entry,
            )[i]) == entry || ordered.contains(place_entry(ordered, entry)[i]),
    decreases ordered.len(),
{
    let placed = place_entry(ordered, entry);
    if ordered.len() > 0 && crate::path::path_less(entry.path@, ordered.last().path@) {
        let rest = ordered.drop_last();
        let last = ordered.last();
        let inner = place_entry(rest, entry);
        assert forall|i: int, j: int| 0 <= i < j < rest.len() implies crate::path::path_less(
            (#[trigger] rest[i]).path@,
            (#[trigger] rest[j]).path@,
        ) by {
            assert(rest[i] == ordered[i]);
            assert(rest[j] == ordered[j]);
        }
        assert forall|i: int| 0 <= i < rest.len() implies (#[trigger] rest[i]).path@
            != entry.path@ by {
            assert(rest[i] == ordered[i]);
        }
        lemma_place_strict(rest, entry);
        assert forall|i: int| 0 <= i < inner.len() implies (#[trigger] inner[i] == entry
            || ordered.contains(inner[i])) && crate::path::path_less(inner[i].path@, last.path@) by {
            if inner[i] != entry {
                let k = choose|k: int| 0 <= k < rest.len() && rest[k] == inner[i];
                assert(ordered[k] == inner[i]);
                assert(crate::path::path_less(
                    ordered[k].path@,
                    ordered[ordered.len() - 1].path@,
                ));
            }
        }
        assert forall|i: int| 0 <= i < placed.len() implies (#[trigger] placed[i]) == entry
            || ordered.contains(placed[i]) by {
            if i < inner.len() {
                assert(placed[i] == inner[i]);
            } else {
                assert(ordered[ordered.len() - 1] == placed[i]);
            }
        }
        assert forall|i: int, j: int| 0 <= i < j < placed.len() implies crate::path::path_less(
            (#[trigger] placed[i]).path@,
            (#[trigger] placed[j]).path@,
        ) by {
            assert(placed[i] == inner[i]);
            if j < inner.len() {
                assert(placed[j] == inner[j]);
            }
        }
    } else {
        assert forall|i: int| 0 <= i < placed.len() implies (#[trigger] placed[i]) == entry
            || ordered.contains(placed[i]) by {
            if i < ordered.len() {
                assert(ordered[i] == placed[i]);
            }
        }
        assert forall|i: int, j: int| 0 <= i < j < placed.len() implies crate::path::path_less(
            (#[trigger] placed[i]).path@,
            (#[trigger] placed[j]).path@,
        ) by {
            assert(placed[i] == ordered[i]);
            if j == ordered.len() {
                let last = ordered.last();
                crate::path::path_order_is_total(entry.path@, last.path@);
                assert(ordered[ordered.len() - 1].path@ != entry.path@);
                assert(crate::path::path_less(last.path@, entry.path@));
                if i < ordered.len() - 1 {
                    assert(crate::path::path_less(
                        ordered[i].path@,
                        ordered[ordered.len() - 1].path@,
                    ));
                    crate::path::path_order_is_transitive(
                        ordered[i].path@,
                        last.path@,
                        entry.path@,
                    );
                }
            } else {
                assert(placed[j] == ordered[j]);
            }
        }
    }
}

/// Two trees without repeated paths are compared path by path, in whatever order
/// they list their entries: each entry with the one at its path on the other
/// side, deleted or added only where there is none.
pub proof fn trees_are_compared_by_path(
    trees: TreeStore,
    base: ObjectId,
    head: ObjectId,
    parent: Seq<u8>,
    depth: nat,
)
    requires
        base != head,
        depth < u64::MAX,
        paths_are_distinct(trees[(base, parent)]),
        paths_are_distinct(trees[(head, parent)]),
    ensures
        ({
            let before = by_path(trees[(base, parent)]);
            let after = by_path(trees[(head, parent)]);
            &&& before.to_multiset() == trees[(base, parent)].to_multiset()
            &&& after.to_multiset() == trees[(head, parent)].to_multiset()
            &&& compared(trees, base, head, parent, depth).to_multiset() == base_side(
                trees,
                before,
                after,
                depth + 1,
            ).add(head_side(trees, before, after, depth + 1))
        }),
{
    ordering_keeps_every_entry(trees[(base, parent)]);
    ordering_keeps_every_entry(trees[(head, parent)]);
    distinct_paths_order_strictly(trees[(base, parent)]);
    distinct_paths_order_strictly(trees[(head, parent)]);
    entries_are_compared_by_path(
        trees,
        by_path(trees[(base, parent)]),
        by_path(trees[(head, parent)]),
        depth + 1,
    );
}

proof fn lemma_place_entry_at(ordered: Seq<TreeEntry>, entry: TreeEntry, at: int)
    requires
        0 <= at <= ordered.len(),
        forall|k: int|
            at <= k < ordered.len() ==> crate::path::path_less(
                entry.path@,
                (#[trigger] ordered[k]).path@,
            ),
        at > 0 ==> !crate::path::path_less(entry.path@, ordered[at - 1].path@),
    ensures
        place_entry(ordered, entry) == ordered.insert(at, entry),
    decreases ordered.len(),
{
    if ordered.len() > at {
        let rest = ordered.drop_last();
        assert forall|k: int| at <= k < rest.len() implies crate::path::path_less(
            entry.path@,
            (#[trigger] rest[k]).path@,
        ) by {
            assert(rest[k] == ordered[k]);
        }
        lemma_place_entry_at(rest, entry, at);
        assert(crate::path::path_less(entry.path@, ordered[ordered.len() - 1].path@));
    }
    assert(place_entry(ordered, entry) =~= ordered.insert(at, entry));
}

/// Reverse a list of entries.
fn reversed(entries: Vec<TreeEntry>) -> (result: Vec<TreeEntry>)
    ensures
        result@ == entries@.reverse(),
{
    let ghost all = entries@;
    let mut rest = entries;
    let mut result: Vec<TreeEntry> = Vec::new();
    assert(result@ =~= all.reverse().subrange(0, 0));
    while rest.len() > 0
        invariant
            rest@.len() <= all.len(),
            rest@ == all.subrange(0, rest@.len() as int),
            result@ == all.reverse().subrange(0, all.len() - rest@.len()),
        decreases rest@.len(),
    {
        if let Some(entry) = rest.pop() {
            result.push(entry);
            assert(rest@ =~= all.subrange(0, rest@.len() as int));
            assert(result@ =~= all.reverse().subrange(0, all.len() - rest@.len()));
        }
    }
    assert(all.reverse().subrange(0, all.len() as int) =~= all.reverse());
    result
}

/// Order the entries of a tree by their raw paths. A tree lists directories as if
/// their names ended in a separator, so few entries have to move.
pub fn order_by_path(entries: Vec<TreeEntry>) -> (ordered: Vec<TreeEntry>)
    ensures
        ordered@ == by_path(entries@),
{
    let ghost all = entries@;
    let mut rest = reversed(entries);
    let mut ordered: Vec<TreeEntry> = Vec::new();
    assert(all.subrange(0, 0) =~= Seq::empty());
    while rest.len() > 0
        invariant
            rest@.len() <= all.len(),
            rest@ == all.reverse().subrange(0, rest@.len() as int),
            ordered@ == by_path(all.subrange(0, all.len() - rest@.len())),
        decreases rest@.len(),
    {
        if let Some(entry) = rest.pop() {
            let ghost taken = all.len() - rest@.len();
            let mut place: usize = ordered.len();
            while place > 0 && is_less(&entry.path, &ordered[place - 1].path)
                invariant
                    place <= ordered@.len(),
                    forall|k: int|
                        place <= k < ordered@.len() ==> crate::path::path_less(
                            entry.path@,
                            (#[trigger] ordered@[k]).path@,
                        ),
                decreases place,
            {
                place -= 1;
            }
            proof {
                lemma_place_entry_at(ordered@, entry, place as int);
                assert(all.subrange(0, taken).drop_last() =~= all.subrange(0, taken - 1));
                assert(all.subrange(0, taken).last() == entry);
                assert(rest@ =~= all.reverse().subrange(0, rest@.len() as int));
            }
            ordered.insert(place, entry);
        }
    }
    assert(all.subrange(0, all.len() as int) =~= all);
    ordered
}

fn is_less(left: &GitPath, right: &GitPath) -> (result: bool)
    ensures
        result == crate::path::path_less(left@, right@),
{
    match left.order(right) {
        PathOrder::Less => true,
        _ => false,
    }
}

/// What a comparison has still to do.
pub enum CompareWork {
    Trees { base: ObjectId, head: ObjectId, parent: GitPath, depth: u64 },
    Collect { entry: TreeEntry, side: Side, depth: u64 },
    Report { change: TreeChange },
}

/// The content of a piece of work.
pub enum WorkModel {
    Trees { base: ObjectId, head: ObjectId, parent: Seq<u8>, depth: u64 },
    Collect { entry: TreeEntry, side: Side, depth: u64 },
    Report { change: ChangeModel },
}

impl View for CompareWork {
    type V = WorkModel;

    open spec fn view(&self) -> WorkModel {
        match *self {
            CompareWork::Trees { base, head, parent, depth } => WorkModel::Trees {
                base,
                head,
                parent: parent@,
                depth,
            },
            CompareWork::Collect { entry, side, depth } => WorkModel::Collect {
                entry,
                side,
                depth,
            },
            CompareWork::Report { change } => WorkModel::Report { change: change@ },
        }
    }
}

/// The contents of a list of works.
pub open spec fn work_values(works: Seq<CompareWork>) -> Seq<WorkModel> {
    works.map_values(|work: CompareWork| work@)
}

/// The work at a path that both sides hold: trees are compared further, other entries
/// are reported where they differ.
pub open spec fn paired_work(old: TreeEntry, new: TreeEntry, depth: u64) -> Seq<WorkModel> {
    if old.kind != new.kind {
        seq![WorkModel::Report { change: two_sided(old, new, ChangeKind::TypeChanged) }]
    } else if old.kind == EntryKind::Tree {
        seq![WorkModel::Trees { base: old.oid, head: new.oid, parent: old.path@, depth }]
    } else if old.oid != new.oid {
        seq![WorkModel::Report { change: two_sided(old, new, ChangeKind::Modified) }]
    } else if old.mode != new.mode {
        seq![WorkModel::Report { change: two_sided(old, new, ChangeKind::ModeChanged) }]
    } else {
        Seq::empty()
    }
}

/// The work that two lists of entries, ordered by path, stand for: an entry that one
/// side alone holds is collected there.
pub open spec fn merged_work(base: Seq<TreeEntry>, head: Seq<TreeEntry>, depth: u64) -> Seq<
    WorkModel,
>
    decreases base.len() + head.len(),
{
    if base.len() == 0 && head.len() == 0 {
        Seq::empty()
    } else if head.len() == 0 || (base.len() > 0 && crate::path::path_less(
        base[0].path@,
        head[0].path@,
    )) {
        seq![WorkModel::Collect { entry: base[0], side: Side::Base, depth }] + merged_work(
            base.drop_first(),
            head,
            depth,
        )
    } else if base.len() == 0 || crate::path::path_less(head[0].path@, base[0].path@) {
        seq![WorkModel::Collect { entry: head[0], side: Side::Head, depth }] + merged_work(
            base,
            head.drop_first(),
            depth,
        )
    } else {
        paired_work(base[0], head[0], depth) + merged_work(
            base.drop_first(),
            head.drop_first(),
            depth,
        )
    }
}

/// The work of two lists stands at one depth: trees that both hold at a path are compared
/// under it, and an entry is collected on the side that lists it.
pub proof fn where_the_work_of_two_trees_stands(
    base: Seq<TreeEntry>,
    head: Seq<TreeEntry>,
    depth: u64,
    at: int,
)
    requires
        0 <= at < merged_work(base, head, depth).len(),
    ensures
        merged_work(base, head, depth)[at] matches WorkModel::Trees {
            base: older,
            head: newer,
            parent,
            depth: d,
        } ==> d == depth && exists|i: int, j: int|
            #![trigger base[i], head[j]]
            0 <= i < base.len() && 0 <= j < head.len() && base[i].kind == EntryKind::Tree
                && head[j].kind == EntryKind::Tree && base[i].oid == older && head[j].oid == newer
                && base[i].path@ == parent && head[j].path@ == parent,
        merged_work(base, head, depth)[at] matches WorkModel::Collect { entry, side, depth: d }
            ==> d == depth && (if side == Side::Base {
            base.contains(entry)
        } else {
            head.contains(entry)
        }),
    decreases base.len() + head.len(),
{
    let all = merged_work(base, head, depth);
    let work = all[at];
    if head.len() == 0 || (base.len() > 0 && crate::path::path_less(base[0].path@, head[0].path@)) {
        let rest = merged_work(base.drop_first(), head, depth);
        if at == 0 {
            assert(base.contains(base[0]));
        } else {
            assert(work == rest[at - 1]);
            where_the_work_of_two_trees_stands(base.drop_first(), head, depth, at - 1);
            lemma_work_of_more(base.drop_first(), head, base, head, work);
        }
    } else if base.len() == 0 || crate::path::path_less(head[0].path@, base[0].path@) {
        let rest = merged_work(base, head.drop_first(), depth);
        if at == 0 {
            assert(head.contains(head[0]));
        } else {
            assert(work == rest[at - 1]);
            where_the_work_of_two_trees_stands(base, head.drop_first(), depth, at - 1);
            lemma_work_of_more(base, head.drop_first(), base, head, work);
        }
    } else {
        let first = paired_work(base[0], head[0], depth);
        let rest = merged_work(base.drop_first(), head.drop_first(), depth);
        crate::path::path_order_is_total(base[0].path@, head[0].path@);
        if at < first.len() {
            assert(work == first[at]);
        } else {
            assert(work == rest[at - first.len()]);
            where_the_work_of_two_trees_stands(
                base.drop_first(),
                head.drop_first(),
                depth,
                at - first.len(),
            );
            lemma_work_of_more(base.drop_first(), head.drop_first(), base, head, work);
        }
    }
}

proof fn lemma_work_of_more(
    few_base: Seq<TreeEntry>,
    few_head: Seq<TreeEntry>,
    base: Seq<TreeEntry>,
    head: Seq<TreeEntry>,
    work: WorkModel,
)
    requires
        few_base == base || (base.len() > 0 && few_base == base.drop_first()),
        few_head == head || (head.len() > 0 && few_head == head.drop_first()),
    ensures
        forall|entry: TreeEntry| few_base.contains(entry) ==> #[trigger] base.contains(entry),
        forall|entry: TreeEntry| few_head.contains(entry) ==> #[trigger] head.contains(entry),
        work matches WorkModel::Trees { base: older, head: newer, parent, .. } ==> (exists|
            i: int,
            j: int,
        |
            #![trigger few_base[i], few_head[j]]
            0 <= i < few_base.len() && 0 <= j < few_head.len() && few_base[i].kind
                == EntryKind::Tree && few_head[j].kind == EntryKind::Tree && few_base[i].oid
                == older && few_head[j].oid == newer && few_base[i].path@ == parent
                && few_head[j].path@ == parent) ==> exists|i: int, j: int|
            #![trigger base[i], head[j]]
            0 <= i < base.len() && 0 <= j < head.len() && base[i].kind == EntryKind::Tree
                && head[j].kind == EntryKind::Tree && base[i].oid == older && head[j].oid == newer
                && base[i].path@ == parent && head[j].path@ == parent,
{
    let p: int = if few_base == base {
        0
    } else {
        1
    };
    let q: int = if few_head == head {
        0
    } else {
        1
    };
    assert forall|i: int| 0 <= i < few_base.len() implies #[trigger] few_base[i] == base[i + p] by {}
    assert forall|j: int| 0 <= j < few_head.len() implies #[trigger] few_head[j] == head[j + q] by {}
    assert forall|entry: TreeEntry| few_base.contains(entry) implies #[trigger] base.contains(
        entry,
    ) by {
        let i = choose|i: int| 0 <= i < few_base.len() && few_base[i] == entry;
        assert(base[i + p] == entry);
    }
    assert forall|entry: TreeEntry| few_head.contains(entry) implies #[trigger] head.contains(
        entry,
    ) by {
        let j = choose|j: int| 0 <= j < few_head.len() && few_head[j] == entry;
        assert(head[j + q] == entry);
    }
    if let WorkModel::Trees { base: older, head: newer, parent, .. } = work {
        if exists|i: int, j: int|
            #![trigger few_base[i], few_head[j]]
            0 <= i < few_base.len() && 0 <= j < few_head.len() && few_base[i].kind
                == EntryKind::Tree && few_head[j].kind == EntryKind::Tree && few_base[i].oid
                == older && few_head[j].oid == newer && few_base[i].path@ == parent
                && few_head[j].path@ == parent {
            let (i, j) = choose|i: int, j: int|
                #![trigger few_base[i], few_head[j]]
                0 <= i < few_base.len() && 0 <= j < few_head.len() && few_base[i].kind
                    == EntryKind::Tree && few_head[j].kind == EntryKind::Tree && few_base[i].oid
                    == older && few_head[j].oid == newer && few_base[i].path@ == parent
                    && few_head[j].path@ == parent;
            assert(few_base[i] == base[i + p] && few_head[j] == head[j + q]);
        }
    }
}

/// The work of collecting entries that one side alone holds.
pub open spec fn collected_work(entries: Seq<TreeEntry>, side: Side, depth: u64) -> Seq<
    CompareWork,
> {
    entries.map_values(|entry: TreeEntry| CompareWork::Collect { entry, side, depth })
}

pub open spec fn work_changes(trees: TreeStore, work: CompareWork) -> Seq<ChangeModel> {
    match work {
        CompareWork::Trees { base, head, parent, depth } => compared(
            trees,
            base,
            head,
            parent@,
            depth as nat,
        ),
        CompareWork::Collect { entry, side, depth } => collected(trees, entry, side, depth as nat),
        CompareWork::Report { change } => seq![change@],
    }
}

/// What a list of works reports, the first piece first.
pub open spec fn queue_changes(trees: TreeStore, works: Seq<CompareWork>) -> Seq<ChangeModel>
    decreases works.len(),
{
    if works.len() == 0 {
        Seq::empty()
    } else {
        queue_changes(trees, works.drop_last()) + work_changes(trees, works.last())
    }
}

/// What a stack of works reports, the last piece first.
pub open spec fn stack_changes(trees: TreeStore, stack: Seq<CompareWork>) -> Seq<ChangeModel>
    decreases stack.len(),
{
    if stack.len() == 0 {
        Seq::empty()
    } else {
        work_changes(trees, stack.last()) + stack_changes(trees, stack.drop_last())
    }
}

proof fn lemma_queue_stacked(
    trees: TreeStore,
    stack: Seq<CompareWork>,
    works: Seq<CompareWork>,
)
    ensures
        stack_changes(trees, stack + works.reverse()) == queue_changes(trees, works)
            + stack_changes(trees, stack),
    decreases works.len(),
{
    if works.len() == 0 {
        assert(stack + works.reverse() =~= stack);
        assert(queue_changes(trees, works) + stack_changes(trees, stack) =~= stack_changes(
            trees,
            stack,
        ));
    } else {
        let rest = works.drop_last();
        let last = works.last();
        lemma_queue_stacked(trees, stack.push(last), rest);
        assert(stack.push(last) + rest.reverse() =~= stack + works.reverse());
        assert(stack.push(last).drop_last() =~= stack);
        assert(queue_changes(trees, rest) + (work_changes(trees, last) + stack_changes(
            trees,
            stack,
        )) =~= queue_changes(trees, works) + stack_changes(trees, stack));
    }
}

fn pair_work(before: TreeEntry, after: TreeEntry, depth: u64) -> (result: Option<CompareWork>)
    ensures
        forall|trees: TreeStore| #[trigger]
            paired(trees, before, after, depth as nat) == (match result {
                Some(work) => work_changes(trees, work),
                None => Seq::empty(),
            }),
        paired_work(before, after, depth) == (match result {
            Some(work) => seq![work@],
            None => Seq::empty(),
        }),
{
    let kind = if before.kind != after.kind {
        ChangeKind::TypeChanged
    } else if before.kind == EntryKind::Tree {
        return Some(
            CompareWork::Trees { base: before.oid, head: after.oid, parent: before.path, depth },
        );
    } else if before.oid != after.oid {
        ChangeKind::Modified
    } else if before.mode != after.mode {
        ChangeKind::ModeChanged
    } else {
        return None;
    };
    Some(
        CompareWork::Report {
            change: TreeChange {
                path: before.path.duplicate(),
                kind,
                old: Some(before),
                new: Some(after),
            },
        },
    )
}

/// How the next entries of two ordered lists, kept in reverse, compare.
spec fn next_order(base: Seq<TreeEntry>, head: Seq<TreeEntry>) -> PathOrder {
    if head.len() == 0 {
        PathOrder::Less
    } else if base.len() == 0 {
        PathOrder::Greater
    } else {
        crate::path::path_order(base.last().path@, head.last().path@)
    }
}

proof fn lemma_merge_step(
    trees: TreeStore,
    base: Seq<TreeEntry>,
    head: Seq<TreeEntry>,
    depth: nat,
)
    requires
        base.len() > 0 || head.len() > 0,
    ensures
        merged(trees, base.reverse(), head.reverse(), depth) == (match next_order(base, head) {
            PathOrder::Less => collected(trees, base.last(), Side::Base, depth) + merged(
                trees,
                base.drop_last().reverse(),
                head.reverse(),
                depth,
            ),
            PathOrder::Greater => collected(trees, head.last(), Side::Head, depth) + merged(
                trees,
                base.reverse(),
                head.drop_last().reverse(),
                depth,
            ),
            PathOrder::Equal => paired(trees, base.last(), head.last(), depth) + merged(
                trees,
                base.drop_last().reverse(),
                head.drop_last().reverse(),
                depth,
            ),
        }),
        forall|at: u64| #[trigger]
            merged_work(base.reverse(), head.reverse(), at) == (match next_order(base, head) {
                PathOrder::Less => seq![
                    WorkModel::Collect { entry: base.last(), side: Side::Base, depth: at },
                ] + merged_work(base.drop_last().reverse(), head.reverse(), at),
                PathOrder::Greater => seq![
                    WorkModel::Collect { entry: head.last(), side: Side::Head, depth: at },
                ] + merged_work(base.reverse(), head.drop_last().reverse(), at),
                PathOrder::Equal => paired_work(base.last(), head.last(), at) + merged_work(
                    base.drop_last().reverse(),
                    head.drop_last().reverse(),
                    at,
                ),
            }),
{
    if base.len() > 0 {
        assert(base.reverse()[0] == base.last());
        assert(base.drop_last().reverse() =~= base.reverse().drop_first());
    }
    if head.len() > 0 {
        assert(head.reverse()[0] == head.last());
        assert(head.drop_last().reverse() =~= head.reverse().drop_first());
    }
    if base.len() > 0 && head.len() > 0 {
        crate::path::path_order_is_total(base.last().path@, head.last().path@);
    }
}

/// The work that the difference of two trees consists of, in order.
fn merge_work(base: Vec<TreeEntry>, head: Vec<TreeEntry>, depth: u64) -> (works: Vec<CompareWork>)
    ensures
        forall|trees: TreeStore| #[trigger]
            queue_changes(trees, works@) == merged(trees, base@, head@, depth as nat),
        work_values(works@) == merged_work(base@, head@, depth),
{
    let ghost all_base = base@;
    let ghost all_head = head@;
    let mut base = reversed(base);
    let mut head = reversed(head);
    let mut works: Vec<CompareWork> = Vec::new();
    assert(base@.reverse() =~= all_base);
    assert(head@.reverse() =~= all_head);
    assert forall|trees: TreeStore| #[trigger]
        queue_changes(trees, works@) + merged(
        trees,
        base@.reverse(),
        head@.reverse(),
        depth as nat,
    ) == merged(trees, all_base, all_head, depth as nat) by {
        assert(queue_changes(trees, works@) + merged(trees, all_base, all_head, depth as nat)
            =~= merged(trees, all_base, all_head, depth as nat));
    }
    assert(work_values(works@) + merged_work(all_base, all_head, depth) =~= merged_work(
        all_base,
        all_head,
        depth,
    ));
    while base.len() > 0 || head.len() > 0
        invariant
            work_values(works@) + merged_work(base@.reverse(), head@.reverse(), depth)
                == merged_work(all_base, all_head, depth),
            forall|trees: TreeStore| #[trigger]
                queue_changes(trees, works@) + merged(
                    trees,
                    base@.reverse(),
                    head@.reverse(),
                    depth as nat,
                ) == merged(trees, all_base, all_head, depth as nat),
        decreases base@.len() + head@.len(),
    {
        let order = if head.len() == 0 {
            PathOrder::Less
        } else if base.len() == 0 {
            PathOrder::Greater
        } else {
            base[base.len() - 1].path.order(&head[head.len() - 1].path)
        };
        let ghost base_before = base@;
        let ghost head_before = head@;
        let ghost works_before = works@;
        let next: Option<CompareWork> = match order {
            PathOrder::Less => match base.pop() {
                Some(entry) => Some(CompareWork::Collect { entry, side: Side::Base, depth }),
                None => None,
            },
            PathOrder::Greater => match head.pop() {
                Some(entry) => Some(CompareWork::Collect { entry, side: Side::Head, depth }),
                None => None,
            },
            PathOrder::Equal => match (base.pop(), head.pop()) {
                (Some(before), Some(after)) => pair_work(before, after, depth),
                _ => None,
            },
        };
        let ghost step = next;
        if let Some(work) = next {
            works.push(work);
        }
        proof {
            let none = Map::<(ObjectId, Seq<u8>), Seq<TreeEntry>>::empty();
            lemma_merge_step(none, base_before, head_before, depth as nat);
            let made = match step {
                Some(work) => seq![work@],
                None => Seq::empty(),
            };
            if order == PathOrder::Less {
                assert(base@ =~= base_before.drop_last());
            } else if order == PathOrder::Greater {
                assert(head@ =~= head_before.drop_last());
            } else {
                assert(base@ =~= base_before.drop_last());
                assert(head@ =~= head_before.drop_last());
            }
            assert(work_values(works@) =~= work_values(works_before) + made);
            let left = merged_work(base@.reverse(), head@.reverse(), depth);
            assert(merged_work(base_before.reverse(), head_before.reverse(), depth) == made + left);
            assert(work_values(works_before) + (made + left) =~= work_values(works@) + left);
            assert forall|trees: TreeStore| #[trigger]
                queue_changes(trees, works@) + merged(
                trees,
                base@.reverse(),
                head@.reverse(),
                depth as nat,
            ) == merged(trees, all_base, all_head, depth as nat) by {
                assert(queue_changes(trees, works_before) + merged(
                    trees,
                    base_before.reverse(),
                    head_before.reverse(),
                    depth as nat,
                ) == merged(trees, all_base, all_head, depth as nat));
                lemma_merge_step(trees, base_before, head_before, depth as nat);
                if step is Some {
                    assert(works@ == works_before.push(step->0));
                    assert(works@.drop_last() =~= works_before);
                }
                let gained = match step {
                    Some(work) => work_changes(trees, work),
                    None => Seq::empty(),
                };
                let rest = merged(trees, base@.reverse(), head@.reverse(), depth as nat);
                if order == PathOrder::Less {
                    assert(base@ =~= base_before.drop_last());
                } else if order == PathOrder::Greater {
                    assert(head@ =~= head_before.drop_last());
                } else {
                    assert(base@ =~= base_before.drop_last());
                    assert(head@ =~= head_before.drop_last());
                    assert(paired(
                        trees,
                        base_before.last(),
                        head_before.last(),
                        depth as nat,
                    ) == gained);
                }
                assert(queue_changes(trees, works@) =~= queue_changes(trees, works_before)
                    + gained);
                assert(queue_changes(trees, works_before) + (gained + rest) =~= queue_changes(
                    trees,
                    works@,
                ) + rest);
            }
        }
    }
    proof {
        assert forall|trees: TreeStore| #[trigger]
            queue_changes(trees, works@) == merged(trees, all_base, all_head, depth as nat) by {
            assert(queue_changes(trees, works@) + merged(
                trees,
                base@.reverse(),
                head@.reverse(),
                depth as nat,
            ) =~= queue_changes(trees, works@));
        }
    }
    assert(work_values(works@) + merged_work(base@.reverse(), head@.reverse(), depth)
        =~= work_values(works@));
    works
}

/// The work of collecting entries that one side alone holds, in order.
fn collect_work(entries: Vec<TreeEntry>, side: Side, depth: u64) -> (works: Vec<CompareWork>)
    ensures
        forall|trees: TreeStore| #[trigger]
            queue_changes(trees, works@) == collected_all(trees, entries@, side, depth as nat),
        works@ == collected_work(entries@, side, depth),
{
    let ghost all = entries@;
    let mut rest = reversed(entries);
    let mut works: Vec<CompareWork> = Vec::new();
    assert(rest@.reverse() =~= all);
    assert(rest@ =~= all.reverse().subrange(0, rest@.len() as int));
    assert(works@ =~= collected_work(all.subrange(0, 0), side, depth));
    assert forall|trees: TreeStore| #[trigger]
        queue_changes(trees, works@) + collected_all(trees, rest@.reverse(), side, depth as nat)
        == collected_all(trees, all, side, depth as nat) by {
        assert(queue_changes(trees, works@) + collected_all(trees, all, side, depth as nat)
            =~= collected_all(trees, all, side, depth as nat));
    }
    while rest.len() > 0
        invariant
            rest@.len() <= all.len(),
            rest@ == all.reverse().subrange(0, rest@.len() as int),
            works@ == collected_work(all.subrange(0, all.len() - rest@.len()), side, depth),
            forall|trees: TreeStore| #[trigger]
                queue_changes(trees, works@) + collected_all(
                    trees,
                    rest@.reverse(),
                    side,
                    depth as nat,
                ) == collected_all(trees, all, side, depth as nat),
        decreases rest@.len(),
    {
        let ghost rest_before = rest@;
        let ghost works_before = works@;
        if let Some(entry) = rest.pop() {
            works.push(CompareWork::Collect { entry, side, depth });
            proof {
                let taken = all.len() - rest@.len();
                assert(rest@ =~= all.reverse().subrange(0, rest@.len() as int));
                assert(entry == all[taken - 1]);
                assert(works@ =~= collected_work(all.subrange(0, taken), side, depth));
                assert(rest@ =~= rest_before.drop_last());
                assert(rest_before.reverse()[0] == entry);
                assert(rest@.reverse() =~= rest_before.reverse().drop_first());
                assert(works@.drop_last() =~= works_before);
                assert forall|trees: TreeStore| #[trigger]
                    queue_changes(trees, works@) + collected_all(
                    trees,
                    rest@.reverse(),
                    side,
                    depth as nat,
                ) == collected_all(trees, all, side, depth as nat) by {
                    let tail = collected_all(trees, rest@.reverse(), side, depth as nat);
                    let gained = collected(trees, entry, side, depth as nat);
                    assert(queue_changes(trees, works_before) + (gained + tail) =~= queue_changes(
                        trees,
                        works@,
                    ) + tail);
                    assert(queue_changes(trees, works_before) + collected_all(
                        trees,
                        rest_before.reverse(),
                        side,
                        depth as nat,
                    ) == collected_all(trees, all, side, depth as nat));
                }
            }
        }
    }
    proof {
        assert forall|trees: TreeStore| #[trigger]
            queue_changes(trees, works@) == collected_all(trees, all, side, depth as nat) by {
            assert(queue_changes(trees, works@) + collected_all(
                trees,
                rest@.reverse(),
                side,
                depth as nat,
            ) =~= queue_changes(trees, works@));
        }
    }
    assert(all.subrange(0, all.len() as int) =~= all);
    works
}

/// What a comparison needs next.
#[allow(inconsistent_fields)]
#[derive(Debug, PartialEq, Eq)]
pub enum CompareRequest {
    /// Read two trees that stand at one path and depth.
    Trees { base: ObjectId, head: ObjectId, parent: GitPath, depth: u64 },
    /// Read a tree that one side alone holds.
    Tree { oid: ObjectId, parent: GitPath, depth: u64 },
    /// Account for a change, at a depth where it was collected, and for its size.
    Change { depth: Option<u64>, response_bytes: u64 },
    /// Everything has been reported.
    Done,
}

/// The contents of a list of changes.
pub open spec fn change_values(changes: Seq<TreeChange>) -> Seq<ChangeModel> {
    changes.map_values(|change: TreeChange| change@)
}

/// The size charged for reporting a change.
pub open spec fn change_bytes(path: Seq<u8>) -> int {
    (path.len() + vstd::layout::size_of::<TreeChange>()) as int
}

/// A change is charged its fixed part and its path.
pub proof fn what_a_change_is_charged(path: Seq<u8>)
    ensures
        change_bytes(path) == vstd::layout::size_of::<TreeChange>() + path.len(),
{
}

spec fn change_value() -> spec_fn(TreeChange) -> ChangeModel {
    |change: TreeChange| change@
}

spec fn mirror_value() -> spec_fn(TreeChange) -> ChangeModel {
    |change: TreeChange| mirror(change@)
}

proof fn lemma_mirrored_at_path(found: Seq<TreeChange>, back: Seq<TreeChange>, path: Seq<u8>)
    requires
        change_values(back) == mirrored(change_values(found)),
    ensures
        crate::sort::at_path(back, path).map_values(change_value()) == crate::sort::at_path(
            found,
            path,
        ).map_values(mirror_value()),
    decreases found.len(),
{
    let f = change_value();
    let g = mirror_value();
    assert(change_values(back).len() == back.len());
    assert(mirrored(change_values(found)).len() == found.len());
    if found.len() > 0 {
        let c = back.drop_last();
        let d = found.drop_last();
        assert(change_values(c) =~= change_values(back).drop_last());
        assert(mirrored(change_values(d)) =~= mirrored(change_values(found)).drop_last());
        lemma_mirrored_at_path(d, c, path);
        assert(change_values(back)[back.len() - 1] == back.last()@);
        assert(mirrored(change_values(found))[found.len() - 1] == mirror(found.last()@));
        assert(back.last()@ == mirror(found.last()@));
        assert(back.last()@.path == found.last()@.path);
        let x = crate::sort::at_path(c, path);
        let y = crate::sort::at_path(d, path);
        assert(x.push(back.last()).map_values(f) =~= x.map_values(f).push(back.last()@));
        assert(y.push(found.last()).map_values(g) =~= y.map_values(g).push(
            mirror(found.last()@),
        ));
    } else {
        assert(crate::sort::at_path(back, path).map_values(f) =~= crate::sort::at_path(
            found,
            path,
        ).map_values(g));
    }
}

/// The sorted changes of two comparisons that differ only in which side is which have
/// the same paths in the same order, and each change is the other seen from the other
/// side.
pub proof fn sorted_comparison_is_symmetric(
    trees: TreeStore,
    base: ObjectId,
    head: ObjectId,
    found: Seq<TreeChange>,
    sorted: Seq<TreeChange>,
    found_back: Seq<TreeChange>,
    sorted_back: Seq<TreeChange>,
)
    requires
        change_values(found) == tree_difference(trees, base, head),
        crate::sort::in_path_order(sorted),
        crate::sort::same_at_every_path(sorted, found),
        change_values(found_back) == tree_difference(trees, head, base),
        crate::sort::in_path_order(sorted_back),
        crate::sort::same_at_every_path(sorted_back, found_back),
    ensures
        change_values(sorted_back) == mirrored(change_values(sorted)),
{
    comparison_is_symmetric(trees, base, head);
    let f = change_value();
    let g = mirror_value();
    assert forall|path: Seq<u8>| #[trigger]
        crate::sort::at_path(sorted_back, path).map_values(f) == crate::sort::at_path(
        sorted,
        path,
    ).map_values(g) by {
        lemma_mirrored_at_path(found, found_back, path);
        assert(crate::sort::at_path(sorted_back, path) == crate::sort::at_path(found_back, path));
        assert(crate::sort::at_path(sorted, path) == crate::sort::at_path(found, path));
    }
    crate::sort::path_order_keeps_relations(sorted_back, sorted, f, g);
    assert(change_values(sorted_back) =~= sorted_back.map_values(f));
    assert(sorted.map_values(g) =~= mirrored(change_values(sorted)));
}

/// A snapshot compared with itself has no changes.
pub proof fn a_snapshot_equals_itself(trees: TreeStore, tree: ObjectId, found: Seq<TreeChange>)
    requires
        change_values(found) == tree_difference(trees, tree, tree),
    ensures
        found == Seq::<TreeChange>::empty(),
{
    equal_trees_are_pruned(trees, tree);
    assert(change_values(found).len() == found.len());
    assert(found =~= Seq::empty());
}

/// Whether work needs nothing: the two trees are one.
pub open spec fn is_settled(work: CompareWork) -> bool {
    work matches CompareWork::Trees { base, head, .. } && base == head
}

/// Pending work without the settled work on top of it.
pub open spec fn unsettled(works: Seq<CompareWork>) -> Seq<CompareWork>
    decreases works.len(),
{
    if works.len() > 0 && is_settled(works.last()) {
        unsettled(works.drop_last())
    } else {
        works
    }
}

/// The comparison of two root trees.
pub struct CompareWalk {
    pending: Vec<CompareWork>,
    current: Option<CompareWork>,
    changes: Vec<TreeChange>,
    base: Ghost<ObjectId>,
    head: Ghost<ObjectId>,
    log: Ghost<TreeLog>,
}

impl CompareWalk {
    pub closed spec fn base(self) -> ObjectId {
        self.base@
    }

    pub closed spec fn head(self) -> ObjectId {
        self.head@
    }

    /// The changes reported so far.
    pub closed spec fn changes(self) -> Seq<TreeChange> {
        self.changes@
    }

    /// The trees read so far.
    pub closed spec fn log(self) -> TreeLog {
        self.log@
    }

    /// The work that the last request belongs to.
    pub closed spec fn current(self) -> Option<CompareWork> {
        self.current
    }

    /// The work that is put off until the current work is done, the next piece last.
    pub closed spec fn waiting(self) -> Seq<CompareWork> {
        self.pending@
    }

    spec fn stack(self) -> Seq<CompareWork> {
        match self.current {
            Some(work) => self.pending@.push(work),
            None => self.pending@,
        }
    }

    /// Whatever else the store holds, what was reported and what is pending are
    /// the whole difference in order.
    pub closed spec fn wf(self) -> bool {
        &&& self.current matches Some(CompareWork::Trees { base, head, .. }) ==> base != head
        &&& forall|trees: TreeStore| #[trigger]
            crate::replies::answers(self.log@, trees) ==> tree_difference(
                trees,
                self.base@,
                self.head@,
            ) == change_values(self.changes@) + stack_changes(trees, self.stack())
    }

    /// The whole difference has been reported.
    pub open spec fn complete(self) -> bool {
        forall|trees: TreeStore| #[trigger]
            crate::replies::answers(self.log(), trees) ==> tree_difference(
                trees,
                self.base(),
                self.head(),
            ) == change_values(self.changes())
    }

    /// Nothing has been asked for yet; the two roots are waiting.
    pub open spec fn is_new(self) -> bool {
        &&& self.changes() == Seq::<TreeChange>::empty()
        &&& self.log() == TreeLog::empty()
        &&& self.current() is None
        &&& self.waiting().len() == 1
        &&& self.waiting()[0] matches CompareWork::Trees { base, head, parent, depth } && base
            == self.base() && head == self.head() && parent@ == Seq::<u8>::empty() && depth == 0
    }

    /// Begin with two root trees.
    pub fn new(base: ObjectId, head: ObjectId) -> (result: CompareWalk)
        ensures
            result.wf(),
            result.base() == base,
            result.head() == head,
            result.is_new(),
    {
        let mut pending: Vec<CompareWork> = Vec::new();
        pending.push(CompareWork::Trees { base, head, parent: GitPath::root(), depth: 0 });
        let walk = CompareWalk {
            pending,
            current: None,
            changes: Vec::new(),
            base: Ghost(base),
            head: Ghost(head),
            log: Ghost(Seq::empty()),
        };
        proof {
            assert forall|trees: TreeStore| #[trigger]
                crate::replies::answers(walk.log@, trees) implies tree_difference(
                trees,
                base,
                head,
            ) == change_values(walk.changes@) + stack_changes(trees, walk.stack()) by {
                reveal_with_fuel(stack_changes, 2);
                assert(walk.stack().drop_last().len() == 0);
                assert(change_values(walk.changes@) + stack_changes(trees, walk.stack())
                    =~= tree_difference(trees, base, head));
            }
        }
        walk
    }

    /// What the comparison needs next. Trees of equal identity need nothing.
    /// Asking again before it is handed back names the same need.
    pub fn next(&mut self) -> (result: CompareRequest)
        requires
            old(self).wf(),
        ensures
            final(self).wf(),
            final(self).base() == old(self).base(),
            final(self).head() == old(self).head(),
            final(self).changes() == old(self).changes(),
            final(self).log() == old(self).log(),
            match old(self).current() {
                Some(work) => final(self).current() == Some(work) && final(self).waiting() == old(
                    self,
                ).waiting(),
                None => {
                    let left = unsettled(old(self).waiting());
                    if left.len() > 0 {
                        final(self).current() == Some(left.last()) && final(self).waiting()
                            == left.drop_last()
                    } else {
                        final(self).current() is None && final(self).waiting() == left
                    }
                },
            },
            match final(self).current() {
                Some(CompareWork::Trees { base, head, parent, depth }) => match result {
                    CompareRequest::Trees { base: b, head: h, parent: under, depth: d } => b == base
                        && h == head && under@ == parent@ && d == depth && base != head,
                    _ => false,
                },
                Some(CompareWork::Collect { entry, side, depth }) => if entry.kind
                    == EntryKind::Tree {
                    match result {
                        CompareRequest::Tree { oid, parent, depth: d } => oid == entry.oid
                            && parent@ == entry.path@ && d == depth,
                        _ => false,
                    }
                } else {
                    result == (CompareRequest::Change {
                        depth: Some(depth),
                        response_bytes: crate::memory::clamp_u64(change_bytes(entry.path@)),
                    })
                },
                Some(CompareWork::Report { change }) => result == (CompareRequest::Change {
                    depth: None,
                    response_bytes: crate::memory::clamp_u64(change_bytes(change.path@)),
                }),
                None => result == CompareRequest::Done && final(self).complete(),
            },
    {
        if self.current.is_none() {
            self.take_work();
        }
        match &self.current {
            Some(CompareWork::Trees { base, head, parent, depth }) => CompareRequest::Trees {
                base: *base,
                head: *head,
                parent: parent.duplicate(),
                depth: *depth,
            },
            Some(CompareWork::Collect { entry, depth, .. }) => if entry.kind == EntryKind::Tree {
                CompareRequest::Tree {
                    oid: entry.oid,
                    parent: entry.path.duplicate(),
                    depth: *depth,
                }
            } else {
                CompareRequest::Change {
                    depth: Some(*depth),
                    response_bytes: (entry.path.as_bytes().len() as u64).saturating_add(
                        core::mem::size_of::<TreeChange>() as u64,
                    ),
                }
            },
            Some(CompareWork::Report { change }) => CompareRequest::Change {
                depth: None,
                response_bytes: (change.path.as_bytes().len() as u64).saturating_add(
                    core::mem::size_of::<TreeChange>() as u64,
                ),
            },
            None => {
                proof {
                    assert forall|trees: TreeStore| #[trigger]
                        crate::replies::answers(self.log(), trees) implies tree_difference(
                        trees,
                        self.base(),
                        self.head(),
                    ) == change_values(self.changes()) by {
                        assert(change_values(self.changes@) + Seq::<ChangeModel>::empty()
                            =~= change_values(self.changes@));
                    }
                }
                CompareRequest::Done
            },
        }
    }

    /// Take the next piece of work that is not settled by equal identities.
    fn take_work(&mut self)
        requires
            old(self).wf(),
            old(self).current is None,
        ensures
            final(self).wf(),
            final(self).base == old(self).base,
            final(self).head == old(self).head,
            final(self).changes == old(self).changes,
            final(self).log == old(self).log,
            final(self).stack() == unsettled(old(self).pending@),
            final(self).current is None ==> final(self).pending@.len() == 0,
            final(self).current matches Some(CompareWork::Trees { base, head, .. }) ==> base
                != head,
    {
        while self.pending.len() > 0
            invariant_except_break
                self.current is None,
            invariant
                self.wf(),
                self.base == old(self).base,
                self.head == old(self).head,
                self.changes == old(self).changes,
                self.log == old(self).log,
                unsettled(self.stack()) == unsettled(old(self).pending@),
            ensures
                self.stack() == unsettled(old(self).pending@),
                self.current is None ==> self.pending@.len() == 0,
                self.current matches Some(CompareWork::Trees { base, head, .. }) ==> base != head,
            decreases self.pending@.len(),
        {
            let ghost before = *self;
            if let Some(work) = self.pending.pop() {
                let settled = match &work {
                    CompareWork::Trees { base, head, .. } => *base == *head,
                    _ => false,
                };
                proof {
                    assert(before.stack().last() == work);
                    assert(before.stack().drop_last() =~= self.pending@);
                }
                if !settled {
                    self.current = Some(work);
                    assert(self.stack() =~= before.stack());
                    break;
                }
                proof {
                    assert forall|trees: TreeStore| #[trigger]
                        crate::replies::answers(self.log@, trees) implies tree_difference(
                        trees,
                        self.base@,
                        self.head@,
                    ) == change_values(self.changes@) + stack_changes(trees, self.stack()) by {
                        assert(stack_changes(trees, before.stack()) =~= stack_changes(
                            trees,
                            self.stack(),
                        ));
                    }
                }
            }
        }
    }

    /// Put work on top of what is pending, so that its first piece is next.
    fn push_work(&mut self, works: Vec<CompareWork>)
        ensures
            final(self).pending@ == old(self).pending@ + works@.reverse(),
            *final(self) == (CompareWalk { pending: final(self).pending, ..*old(self) }),
    {
        let ghost before = *self;
        let ghost all = works@;
        let mut rest = works;
        assert(self.pending@ =~= before.pending@ + all.reverse().subrange(0, 0));
        while rest.len() > 0
            invariant
                rest@.len() <= all.len(),
                rest@ == all.subrange(0, rest@.len() as int),
                self.pending@ == before.pending@ + all.reverse().subrange(
                    0,
                    all.len() - rest@.len(),
                ),
                *self == (CompareWalk { pending: self.pending, ..before }),
            decreases rest@.len(),
        {
            if let Some(work) = rest.pop() {
                self.pending.push(work);
                assert(rest@ =~= all.subrange(0, rest@.len() as int));
                assert(self.pending@ =~= before.pending@ + all.reverse().subrange(
                    0,
                    all.len() - rest@.len(),
                ));
            }
        }
        assert(all.reverse().subrange(0, all.len() as int) =~= all.reverse());
    }

    /// Hand back the entries of the two trees that were asked for.
    pub fn accept_trees(
        &mut self,
        base_entries: Vec<TreeEntry>,
        head_entries: Vec<TreeEntry>,
    ) -> (result: Result<(), Error>)
        requires
            old(self).wf(),
            old(self).current() matches Some(work) && work is Trees,
        ensures
            match old(self).current() {
                Some(CompareWork::Trees { base, head, parent, depth }) => if depth == u64::MAX {
                    result == Err::<(), Error>(crate::path::too_deep())
                } else {
                    &&& result == Ok::<(), Error>(())
                    &&& final(self).wf()
                    &&& final(self).base() == old(self).base()
                    &&& final(self).head() == old(self).head()
                    &&& final(self).changes() == old(self).changes()
                    &&& final(self).log() == old(self).log().push(
                        ((base, parent@), base_entries@),
                    ).push(((head, parent@), head_entries@))
                    &&& final(self).current() is None
                    &&& exists|works: Seq<CompareWork>|
                        #![trigger works.reverse()]
                        final(self).waiting() == old(self).waiting() + works.reverse()
                            && work_values(works) == merged_work(
                            by_path(base_entries@),
                            by_path(head_entries@),
                            (depth + 1) as u64,
                        ) && forall|trees: TreeStore| #[trigger]
                            queue_changes(trees, works) == merged(
                                trees,
                                by_path(base_entries@),
                                by_path(head_entries@),
                                (depth + 1) as nat,
                            )
                },
                _ => false,
            },
    {
        let ghost before = *self;
        if let Some(CompareWork::Trees { base, head, parent, depth }) = self.current.take() {
            let child_depth: u64 = next_depth(depth)?;
            let ghost base_key = (base, parent@);
            let ghost head_key = (head, parent@);
            let ghost base_list = base_entries@;
            let ghost head_list = head_entries@;
            let ghost first = before.log@.push((base_key, base_list));
            let works = merge_work(
                order_by_path(base_entries),
                order_by_path(head_entries),
                child_depth,
            );
            let ghost queued = works@;
            self.push_work(works);
            self.log = Ghost(first.push((head_key, head_list)));
            proof {
                assert forall|trees: TreeStore| #[trigger]
                    crate::replies::answers(self.log@, trees) implies tree_difference(
                    trees,
                    self.base@,
                    self.head@,
                ) == change_values(self.changes@) + stack_changes(trees, self.stack()) by {
                    crate::replies::answers_earlier_questions(first, head_key, head_list, trees);
                    crate::replies::answers_earlier_questions(
                        before.log@,
                        base_key,
                        base_list,
                        trees,
                    );
                    lemma_queue_stacked(trees, before.pending@, queued);
                    assert(before.stack().drop_last() =~= before.pending@);
                    assert(queue_changes(trees, queued) == merged(
                        trees,
                        by_path(base_list),
                        by_path(head_list),
                        child_depth as nat,
                    ));
                }
            }
        }
        Ok(())
    }

    /// Hand back the entries of the tree that one side alone holds.
    pub fn accept_tree(&mut self, entries: Vec<TreeEntry>) -> (result: Result<(), Error>)
        requires
            old(self).wf(),
            old(self).current() matches Some(CompareWork::Collect { entry, .. }) && entry.kind
                == EntryKind::Tree,
        ensures
            match old(self).current() {
                Some(CompareWork::Collect { entry, side, depth }) => if depth == u64::MAX
                    && entries@.len() > 0 {
                    result == Err::<(), Error>(crate::path::too_deep())
                } else {
                    &&& result == Ok::<(), Error>(())
                    &&& final(self).wf()
                    &&& final(self).base() == old(self).base()
                    &&& final(self).head() == old(self).head()
                    &&& final(self).changes() == old(self).changes()
                    &&& final(self).log() == old(self).log().push(
                        ((entry.oid, entry.path@), entries@),
                    )
                    &&& final(self).current() is None
                    &&& final(self).waiting() == old(self).waiting() + collected_work(
                        entries@,
                        side,
                        (depth + 1) as u64,
                    ).reverse()
                    &&& final(self).waiting() == old(self).waiting() + entries@.reverse().map_values(
                        |entry: TreeEntry|
                            CompareWork::Collect { entry, side, depth: (depth + 1) as u64 },
                    )
                },
                _ => false,
            },
    {
        let ghost before = *self;
        if let Some(CompareWork::Collect { entry, side, depth }) = self.current.take() {
            let ghost key = (entry.oid, entry.path@);
            let ghost list = entries@;
            let mut works: Vec<CompareWork> = Vec::new();
            if entries.len() > 0 {
                works = collect_work(entries, side, next_depth(depth)?);
            }
            let ghost queued = works@;
            self.push_work(works);
            self.log = Ghost(before.log@.push((key, list)));
            proof {
                assert(queued =~= collected_work(list, side, (depth + 1) as u64));
                assert(self.waiting() == before.waiting() + queued.reverse());
                assert forall|trees: TreeStore| #[trigger]
                    crate::replies::answers(self.log@, trees) implies tree_difference(
                    trees,
                    self.base@,
                    self.head@,
                ) == change_values(self.changes@) + stack_changes(trees, self.stack()) by {
                    crate::replies::answers_earlier_questions(before.log@, key, list, trees);
                    lemma_queue_stacked(trees, before.pending@, queued);
                    assert(before.stack().drop_last() =~= before.pending@);
                    assert(queue_changes(trees, queued) == collected(
                        trees,
                        entry,
                        side,
                        depth as nat,
                    ));
                }
            }
        }
        Ok(())
    }

    /// Make room for one more change.
    pub fn reserve(&mut self) -> (result: Result<(), Error>)
        requires
            old(self).wf(),
        ensures
            final(self).wf(),
            final(self).base() == old(self).base(),
            final(self).head() == old(self).head(),
            final(self).changes() == old(self).changes(),
            final(self).log() == old(self).log(),
            final(self).current() == old(self).current(),
            final(self).waiting() == old(self).waiting(),
            crate::memory::is_reservation(old(self).changes(), 1, result),
    {
        let result = crate::memory::reserve(&mut self.changes, 1);
        assert(self.stack() == old(self).stack());
        result
    }

    /// Report the change that was accounted for.
    pub fn accept_change(&mut self)
        requires
            old(self).wf(),
            match old(self).current() {
                Some(CompareWork::Collect { entry, .. }) => entry.kind != EntryKind::Tree,
                Some(CompareWork::Report { .. }) => true,
                _ => false,
            },
        ensures
            final(self).wf(),
            final(self).base() == old(self).base(),
            final(self).head() == old(self).head(),
            final(self).log() == old(self).log(),
            final(self).current() is None,
            final(self).waiting() == old(self).waiting(),
            change_values(final(self).changes()) == change_values(old(self).changes()).push(
                match old(self).current() {
                    Some(CompareWork::Report { change }) => change@,
                    Some(CompareWork::Collect { entry, side, .. }) => one_sided(entry, side),
                    _ => arbitrary(),
                },
            ),
    {
        let ghost before = *self;
        let change: Option<TreeChange> = match self.current.take() {
            Some(CompareWork::Report { change }) => Some(change),
            Some(CompareWork::Collect { entry, side, .. }) => {
                let path = entry.path.duplicate();
                match side {
                    Side::Base => Some(
                        TreeChange {
                            path,
                            kind: ChangeKind::Deleted,
                            old: Some(entry),
                            new: None,
                        },
                    ),
                    Side::Head => Some(
                        TreeChange { path, kind: ChangeKind::Added, old: None, new: Some(entry) },
                    ),
                }
            },
            _ => None,
        };
        if let Some(change) = change {
            let ghost added = change@;
            self.changes.push(change);
            proof {
                assert(change_values(self.changes@) =~= change_values(before.changes@).push(added));
                assert forall|trees: TreeStore| #[trigger]
                    crate::replies::answers(self.log@, trees) implies tree_difference(
                    trees,
                    self.base@,
                    self.head@,
                ) == change_values(self.changes@) + stack_changes(trees, self.stack()) by {
                    assert(before.stack().drop_last() =~= before.pending@);
                    assert(work_changes(trees, before.current->0) =~= seq![added]);
                    assert(change_values(before.changes@) + stack_changes(trees, before.stack())
                        =~= change_values(self.changes@) + stack_changes(trees, self.stack()));
                }
            }
        }
    }

    /// Take the changes in the order of their paths.
    pub fn into_comparison(self, base: ObjectId, head: ObjectId) -> (result: Comparison)
        requires
            self.wf(),
        ensures
            result.base == base,
            result.head == head,
            crate::sort::in_path_order(result.changes@),
            crate::sort::same_at_every_path(result.changes@, self.changes()),
            result.changes@.to_multiset() == self.changes().to_multiset(),
    {
        Comparison { base, head, changes: sort_by_path(self.changes) }
    }
}

} // verus!
