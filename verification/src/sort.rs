use vstd::prelude::*;

use crate::path::{GitPath, PathOrder};

verus! {

/// A value that belongs to one path.
pub trait Pathed: Sized {
    spec fn at(&self) -> Seq<u8>;

    fn path_ref(&self) -> (result: &GitPath)
        ensures
            result@ == self.at(),
    ;
}

/// Values in the order of their paths.
pub open spec fn in_path_order<T: Pathed>(items: Seq<T>) -> bool {
    forall|i: int, j: int|
        0 <= i < j < items.len() ==> !crate::path::path_less(
            (#[trigger] items[j]).at(),
            (#[trigger] items[i]).at(),
        )
}

proof fn lemma_not_less_transitive(a: Seq<u8>, b: Seq<u8>, c: Seq<u8>)
    requires
        !crate::path::path_less(b, a),
        !crate::path::path_less(c, b),
    ensures
        !crate::path::path_less(c, a),
{
    if crate::path::path_less(c, a) {
        crate::path::path_order_is_total(b, c);
        crate::path::path_order_is_total(a, b);
        if b == c {
        } else {
            crate::path::path_order_is_transitive(b, c, a);
        }
    }
}

/// The values that belong to one path, in the order in which they are listed.
pub open spec fn at_path<T: Pathed>(items: Seq<T>, path: Seq<u8>) -> Seq<T>
    decreases items.len(),
{
    if items.len() == 0 {
        Seq::empty()
    } else if items.last().at() == path {
        at_path(items.drop_last(), path).push(items.last())
    } else {
        at_path(items.drop_last(), path)
    }
}

/// Two lists give every path the same values in the same order.
pub open spec fn same_at_every_path<T: Pathed>(a: Seq<T>, b: Seq<T>) -> bool {
    forall|path: Seq<u8>| #[trigger] at_path(a, path) == at_path(b, path)
}

proof fn lemma_at_path_push<T: Pathed>(items: Seq<T>, item: T, path: Seq<u8>)
    ensures
        at_path(items.push(item), path) == (if item.at() == path {
            at_path(items, path).push(item)
        } else {
            at_path(items, path)
        }),
{
    assert(items.push(item).drop_last() =~= items);
}

proof fn lemma_at_path_append<T: Pathed>(a: Seq<T>, b: Seq<T>, path: Seq<u8>)
    ensures
        at_path(a + b, path) == at_path(a, path) + at_path(b, path),
    decreases b.len(),
{
    if b.len() == 0 {
        assert(a + b =~= a);
        assert(at_path(a, path) + at_path(b, path) =~= at_path(a, path));
    } else {
        assert((a + b).drop_last() =~= a + b.drop_last());
        lemma_at_path_append(a, b.drop_last(), path);
        assert(at_path(a + b, path) =~= at_path(a, path) + at_path(b, path));
    }
}

proof fn lemma_at_no_path<T: Pathed>(items: Seq<T>, path: Seq<u8>)
    requires
        forall|i: int| 0 <= i < items.len() ==> (#[trigger] items[i]).at() != path,
    ensures
        at_path(items, path) == Seq::<T>::empty(),
    decreases items.len(),
{
    if items.len() > 0 {
        assert(items[items.len() - 1].at() != path);
        assert forall|i: int| 0 <= i < items.drop_last().len() implies (
        #[trigger] items.drop_last()[i]).at() != path by {
            assert(items.drop_last()[i] == items[i]);
        }
        lemma_at_no_path(items.drop_last(), path);
    }
}

proof fn lemma_last_is_in_order<T: Pathed>(a: Seq<T>, b: Seq<T>)
    requires
        in_path_order(a),
        same_at_every_path(a, b),
        b.len() > 0,
    ensures
        a.len() > 0,
        !crate::path::path_less(a.last().at(), b.last().at()),
{
    let path = b.last().at();
    assert(at_path(b, path).len() > 0);
    assert(at_path(a, path).len() > 0);
    if forall|i: int| 0 <= i < a.len() ==> (#[trigger] a[i]).at() != path {
        lemma_at_no_path(a, path);
    }
    let i = choose|i: int| 0 <= i < a.len() && (#[trigger] a[i]).at() == path;
    if i < a.len() - 1 {
        assert(!crate::path::path_less(a[a.len() - 1].at(), a[i].at()));
    } else {
        crate::path::path_order_is_total(path, path);
    }
}

/// Values in the order of their paths never go down, and two lists that give every path
/// the same values have the same ones left of each path when all others are left out.
pub proof fn what_path_order_means<T: Pathed>(sorted: Seq<T>, items: Seq<T>, path: Seq<u8>)
    requires
        in_path_order(sorted),
        same_at_every_path(sorted, items),
    ensures
        forall|i: int, j: int|
            0 <= i < j < sorted.len() ==> (#[trigger] sorted[i]).at() == (
            #[trigger] sorted[j]).at() || crate::path::path_less(sorted[i].at(), sorted[j].at()),
        sorted.filter(|item: T| item.at() == path) == items.filter(|item: T| item.at() == path),
{
    assert forall|i: int, j: int| 0 <= i < j < sorted.len() implies (#[trigger] sorted[i]).at() == (
    #[trigger] sorted[j]).at() || crate::path::path_less(sorted[i].at(), sorted[j].at()) by {
        crate::path::path_order_is_total(sorted[i].at(), sorted[j].at());
    }
    lemma_at_path_filters(sorted, path);
    lemma_at_path_filters(items, path);
    assert(at_path(sorted, path) == at_path(items, path));
}

proof fn lemma_at_path_filters<T: Pathed>(items: Seq<T>, path: Seq<u8>)
    ensures
        at_path(items, path) == items.filter(|item: T| item.at() == path),
    decreases items.len(),
{
    reveal(Seq::filter);
    if items.len() > 0 {
        lemma_at_path_filters(items.drop_last(), path);
    }
}

/// There is only one way to put values in the order of their paths while values of
/// one path keep their order.
pub proof fn path_order_is_unique<T: Pathed>(a: Seq<T>, b: Seq<T>)
    requires
        in_path_order(a),
        in_path_order(b),
        same_at_every_path(a, b),
    ensures
        a == b,
    decreases b.len(),
{
    if b.len() == 0 {
        if a.len() > 0 {
            lemma_last_is_in_order(b, a);
        }
        assert(a =~= b);
    } else {
        lemma_last_is_in_order(a, b);
        lemma_last_is_in_order(b, a);
        let path = a.last().at();
        crate::path::path_order_is_total(path, b.last().at());
        assert(at_path(a, path).last() == a.last());
        assert(at_path(b, path).last() == b.last());
        let c = a.drop_last();
        let d = b.drop_last();
        assert forall|other: Seq<u8>| #[trigger] at_path(c, other) == at_path(d, other) by {
            assert(at_path(a, other) == at_path(b, other));
            if other == path {
                assert(at_path(a, other).drop_last() =~= at_path(c, other));
                assert(at_path(b, other).drop_last() =~= at_path(d, other));
            }
        }
        assert(in_path_order(c)) by {
            assert forall|i: int, j: int| 0 <= i < j < c.len() implies !crate::path::path_less(
                (#[trigger] c[j]).at(),
                (#[trigger] c[i]).at(),
            ) by {
                assert(c[i] == a[i] && c[j] == a[j]);
            }
        }
        assert(in_path_order(d)) by {
            assert forall|i: int, j: int| 0 <= i < j < d.len() implies !crate::path::path_less(
                (#[trigger] d[j]).at(),
                (#[trigger] d[i]).at(),
            ) by {
                assert(d[i] == b[i] && d[j] == b[j]);
            }
        }
        path_order_is_unique(c, d);
        assert(a =~= c.push(a.last()));
        assert(b =~= d.push(b.last()));
    }
}

/// Values in the order of their paths, no path twice.
pub open spec fn strictly_ascending<T: Pathed>(items: Seq<T>) -> bool {
    forall|i: int, j: int|
        0 <= i < j < items.len() ==> crate::path::path_less(
            (#[trigger] items[i]).at(),
            (#[trigger] items[j]).at(),
        )
}

proof fn lemma_at_distinct_path<T: Pathed>(items: Seq<T>, path: Seq<u8>)
    requires
        forall|i: int, j: int|
            0 <= i < j < items.len() ==> (#[trigger] items[i]).at() != (#[trigger] items[j]).at(),
    ensures
        at_path(items, path).len() <= 1,
    decreases items.len(),
{
    if items.len() > 0 {
        let rest = items.drop_last();
        assert forall|i: int, j: int| 0 <= i < j < rest.len() implies (#[trigger] rest[i]).at() != (
        #[trigger] rest[j]).at() by {
            assert(rest[i] == items[i] && rest[j] == items[j]);
        }
        lemma_at_distinct_path(rest, path);
        if items.last().at() == path {
            assert forall|i: int| 0 <= i < rest.len() implies (#[trigger] rest[i]).at() != path by {
                assert(rest[i] == items[i]);
                assert(items[i].at() != items[items.len() - 1].at());
            }
            lemma_at_no_path(rest, path);
        }
    }
}

proof fn lemma_two_at_a_path<T: Pathed>(items: Seq<T>, i: int, j: int)
    requires
        0 <= i < j < items.len(),
        items[i].at() == items[j].at(),
    ensures
        at_path(items, items[j].at()).len() >= 2,
{
    let path = items[j].at();
    let first = items.subrange(0, i + 1);
    let middle = items.subrange(i + 1, j + 1);
    let last = items.subrange(j + 1, items.len() as int);
    assert(items =~= first + middle + last);
    lemma_at_path_append(first + middle, last, path);
    lemma_at_path_append(first, middle, path);
    assert(first.last() == items[i]);
    assert(middle.last() == items[j]);
    assert(at_path(first, path).len() >= 1);
    assert(at_path(middle, path).len() >= 1);
}

/// Values in the order of their paths ascend strictly where they are those of a list
/// that repeats no path.
pub proof fn distinct_paths_ascend_strictly<T: Pathed>(sorted: Seq<T>, items: Seq<T>)
    requires
        in_path_order(sorted),
        same_at_every_path(sorted, items),
        forall|i: int, j: int|
            0 <= i < j < items.len() ==> (#[trigger] items[i]).at() != (#[trigger] items[j]).at(),
    ensures
        strictly_ascending(sorted),
{
    assert forall|i: int, j: int| 0 <= i < j < sorted.len() implies crate::path::path_less(
        (#[trigger] sorted[i]).at(),
        (#[trigger] sorted[j]).at(),
    ) by {
        crate::path::path_order_is_total(sorted[i].at(), sorted[j].at());
        if sorted[i].at() == sorted[j].at() {
            lemma_two_at_a_path(sorted, i, j);
            lemma_at_distinct_path(items, sorted[j].at());
            assert(at_path(sorted, sorted[j].at()) == at_path(items, sorted[j].at()));
        }
    }
}

proof fn lemma_last_is_in_related_order<T: Pathed, V>(
    a: Seq<T>,
    b: Seq<T>,
    f: spec_fn(T) -> V,
    g: spec_fn(T) -> V,
)
    requires
        in_path_order(a),
        forall|path: Seq<u8>| #[trigger]
            at_path(a, path).map_values(f) == at_path(b, path).map_values(g),
        b.len() > 0,
    ensures
        a.len() > 0,
        !crate::path::path_less(a.last().at(), b.last().at()),
{
    let path = b.last().at();
    assert(at_path(b, path).map_values(g).len() > 0);
    assert(at_path(a, path).map_values(f).len() > 0);
    if forall|i: int| 0 <= i < a.len() ==> (#[trigger] a[i]).at() != path {
        lemma_at_no_path(a, path);
    }
    let i = choose|i: int| 0 <= i < a.len() && (#[trigger] a[i]).at() == path;
    if i < a.len() - 1 {
        assert(!crate::path::path_less(a[a.len() - 1].at(), a[i].at()));
    } else {
        crate::path::path_order_is_total(path, path);
    }
}

proof fn lemma_shorter_is_in_order<T: Pathed>(items: Seq<T>)
    requires
        in_path_order(items),
        items.len() > 0,
    ensures
        in_path_order(items.drop_last()),
{
    let rest = items.drop_last();
    assert forall|i: int, j: int| 0 <= i < j < rest.len() implies !crate::path::path_less(
        (#[trigger] rest[j]).at(),
        (#[trigger] rest[i]).at(),
    ) by {
        assert(rest[i] == items[i] && rest[j] == items[j]);
    }
}

/// Two lists in the order of their paths that have related values at every path, in
/// the same order there, have related values at every index.
pub proof fn path_order_keeps_relations<T: Pathed, V>(
    a: Seq<T>,
    b: Seq<T>,
    f: spec_fn(T) -> V,
    g: spec_fn(T) -> V,
)
    requires
        in_path_order(a),
        in_path_order(b),
        forall|path: Seq<u8>| #[trigger]
            at_path(a, path).map_values(f) == at_path(b, path).map_values(g),
    ensures
        a.map_values(f) == b.map_values(g),
    decreases b.len(),
{
    assert forall|path: Seq<u8>| #[trigger]
        at_path(b, path).map_values(g) == at_path(a, path).map_values(f) by {
        assert(at_path(a, path).map_values(f) == at_path(b, path).map_values(g));
    }
    if b.len() == 0 {
        if a.len() > 0 {
            lemma_last_is_in_related_order(b, a, g, f);
        }
        assert(a.map_values(f) =~= b.map_values(g));
    } else {
        lemma_last_is_in_related_order(a, b, f, g);
        lemma_last_is_in_related_order(b, a, g, f);
        let path = a.last().at();
        crate::path::path_order_is_total(path, b.last().at());
        assert(at_path(a, path).last() == a.last());
        assert(at_path(b, path).last() == b.last());
        assert(at_path(a, path).map_values(f).last() == f(a.last()));
        assert(at_path(b, path).map_values(g).last() == g(b.last()));
        let c = a.drop_last();
        let d = b.drop_last();
        assert forall|other: Seq<u8>| #[trigger]
            at_path(c, other).map_values(f) == at_path(d, other).map_values(g) by {
            assert(at_path(a, other).map_values(f) == at_path(b, other).map_values(g));
            if other == path {
                assert(at_path(a, other).map_values(f).drop_last() =~= at_path(
                    c,
                    other,
                ).map_values(f));
                assert(at_path(b, other).map_values(g).drop_last() =~= at_path(
                    d,
                    other,
                ).map_values(g));
            }
        }
        lemma_shorter_is_in_order(a);
        lemma_shorter_is_in_order(b);
        path_order_keeps_relations(c, d, f, g);
        assert(a.map_values(f) =~= c.map_values(f).push(f(a.last())));
        assert(b.map_values(g) =~= d.map_values(g).push(g(b.last())));
    }
}

/// Sort values by their paths. Values of one path keep their order.
pub fn sort_by_path<T: Pathed>(items: Vec<T>) -> (sorted: Vec<T>)
    ensures
        in_path_order(sorted@),
        same_at_every_path(sorted@, items@),
        sorted@.to_multiset() == items@.to_multiset(),
    decreases items@.len(),
{
    if items.len() < 2 {
        return items;
    }
    let mut left = items;
    let half: usize = left.len() / 2;
    let ghost whole = left@;
    let right = left.split_off(half);
    proof {
        assert(whole =~= left@ + right@);
        vstd::seq_lib::lemma_multiset_commutative(left@, right@);
    }
    let ghost first = left@;
    let ghost second = right@;
    let left = sort_by_path(left);
    let right = sort_by_path(right);
    let sorted = merge_by_path(left, right);
    proof {
        assert forall|path: Seq<u8>| #[trigger] at_path(sorted@, path) == at_path(
            items@,
            path,
        ) by {
            assert(items@ =~= first + second);
            lemma_at_path_append(first, second, path);
            lemma_at_path_append(left@, right@, path);
            assert(at_path(left@, path) == at_path(first, path));
            assert(at_path(right@, path) == at_path(second, path));
        }
    }
    sorted
}

/// What two lists and a third one, read backwards, give a path.
spec fn parts_at<T: Pathed>(left: Seq<T>, right: Seq<T>, backwards: Seq<T>, path: Seq<u8>) -> Seq<
    T,
> {
    at_path(left, path) + at_path(right, path) + at_path(backwards, path).reverse()
}

proof fn lemma_moved<T: Pathed>(
    left: Seq<T>,
    right: Seq<T>,
    backwards: Seq<T>,
    from_left: bool,
    path: Seq<u8>,
)
    requires
        from_left ==> left.len() > 0 && forall|i: int|
            0 <= i < right.len() ==> (#[trigger] right[i]).at() != left.last().at(),
        !from_left ==> right.len() > 0,
    ensures
        from_left ==> parts_at(left.drop_last(), right, backwards.push(left.last()), path)
            == parts_at(left, right, backwards, path),
        !from_left ==> parts_at(left, right.drop_last(), backwards.push(right.last()), path)
            == parts_at(left, right, backwards, path),
{
    if from_left {
        let item = left.last();
        lemma_at_path_push(backwards, item, path);
        if item.at() == path {
            lemma_at_no_path(right, path);
        }
        assert(parts_at(left.drop_last(), right, backwards.push(item), path) =~= parts_at(
            left,
            right,
            backwards,
            path,
        ));
    } else {
        let item = right.last();
        lemma_at_path_push(backwards, item, path);
        assert(parts_at(left, right.drop_last(), backwards.push(item), path) =~= parts_at(
            left,
            right,
            backwards,
            path,
        ));
    }
}

proof fn lemma_pop<T>(items: Seq<T>)
    requires
        items.len() > 0,
    ensures
        items.to_multiset() == items.drop_last().to_multiset().insert(items.last()),
{
    broadcast use vstd::seq_lib::group_to_multiset_ensures;

    assert(items =~= items.drop_last().push(items.last()));
}

proof fn lemma_push<T>(items: Seq<T>, item: T)
    ensures
        items.push(item).to_multiset() == items.to_multiset().insert(item),
{
    broadcast use vstd::seq_lib::group_to_multiset_ensures;

}

/// Merge two sorted lists, the first before the second where paths are equal.
fn merge_by_path<T: Pathed>(left: Vec<T>, right: Vec<T>) -> (merged: Vec<T>)
    requires
        in_path_order(left@),
        in_path_order(right@),
    ensures
        in_path_order(merged@),
        same_at_every_path(merged@, left@ + right@),
        merged@.to_multiset() == left@.to_multiset().add(right@.to_multiset()),
{
    broadcast use vstd::seq_lib::group_to_multiset_ensures;

    let mut left = left;
    let mut right = right;
    let mut backwards: Vec<T> = Vec::new();
    let ghost all = left@.to_multiset().add(right@.to_multiset());
    let ghost whole = left@ + right@;
    proof {
        assert forall|path: Seq<u8>| #[trigger] at_path(whole, path) == parts_at(
            left@,
            right@,
            backwards@,
            path,
        ) by {
            lemma_at_path_append(left@, right@, path);
            assert(parts_at(left@, right@, backwards@, path) =~= at_path(left@, path) + at_path(
                right@,
                path,
            ));
        }
    }
    assert(backwards@.to_multiset() =~= vstd::multiset::Multiset::empty());
    assert(all =~= left@.to_multiset().add(right@.to_multiset()).add(backwards@.to_multiset()));
    while left.len() > 0 || right.len() > 0
        invariant
            in_path_order(left@),
            in_path_order(right@),
            all == left@.to_multiset().add(right@.to_multiset()).add(backwards@.to_multiset()),
            forall|path: Seq<u8>| #[trigger]
                at_path(whole, path) == parts_at(left@, right@, backwards@, path),
            forall|i: int, j: int|
                0 <= i < j < backwards@.len() ==> !crate::path::path_less(
                    (#[trigger] backwards@[i]).at(),
                    (#[trigger] backwards@[j]).at(),
                ),
            forall|i: int, j: int|
                0 <= i < left@.len() && 0 <= j < backwards@.len() ==> !crate::path::path_less(
                    (#[trigger] backwards@[j]).at(),
                    (#[trigger] left@[i]).at(),
                ),
            forall|i: int, j: int|
                0 <= i < right@.len() && 0 <= j < backwards@.len() ==> !crate::path::path_less(
                    (#[trigger] backwards@[j]).at(),
                    (#[trigger] right@[i]).at(),
                ),
        decreases left@.len() + right@.len(),
    {
        let from_left = if left.len() == 0 {
            false
        } else if right.len() == 0 {
            true
        } else {
            match left[left.len() - 1].path_ref().order(right[right.len() - 1].path_ref()) {
                PathOrder::Greater => true,
                _ => false,
            }
        };
        let ghost old_left = left@;
        let ghost old_right = right@;
        let ghost old_backwards = backwards@;
        proof {
            if left@.len() > 0 {
                lemma_pop(left@);
            }
            if right@.len() > 0 {
                lemma_pop(right@);
            }
            if left@.len() > 0 && right@.len() > 0 {
                let l = old_left.last().at();
                let r = old_right.last().at();
                crate::path::path_order_is_total(l, r);
                if from_left {
                    assert forall|i: int| 0 <= i < old_right.len() implies !crate::path::path_less(
                        l,
                        (#[trigger] old_right[i]).at(),
                    ) by {
                        if i < old_right.len() - 1 {
                            lemma_not_less_transitive(old_right[i].at(), r, l);
                        }
                    }
                } else {
                    assert forall|i: int| 0 <= i < old_left.len() implies !crate::path::path_less(
                        r,
                        (#[trigger] old_left[i]).at(),
                    ) by {
                        if i < old_left.len() - 1 {
                            lemma_not_less_transitive(old_left[i].at(), l, r);
                        }
                    }
                }
            }
        }
        let next = if from_left {
            left.pop()
        } else {
            right.pop()
        };
        match next {
            Some(item) => {
                backwards.push(item);
                proof {
                    lemma_push(old_backwards, item);
                    if from_left {
                        assert(left@ =~= old_left.drop_last());
                        assert forall|i: int| 0 <= i < old_right.len() implies (
                        #[trigger] old_right[i]).at() != old_left.last().at() by {
                            let l = old_left.last().at();
                            let r = old_right.last().at();
                            if i < old_right.len() - 1 {
                                assert(!crate::path::path_less(r, old_right[i].at()));
                                assert(crate::path::path_less(r, l));
                            }
                        }
                    } else {
                        assert(right@ =~= old_right.drop_last());
                    }
                    assert forall|path: Seq<u8>| #[trigger] at_path(whole, path) == parts_at(
                        left@,
                        right@,
                        backwards@,
                        path,
                    ) by {
                        lemma_moved(old_left, old_right, old_backwards, from_left, path);
                    }
                    assert(all =~= left@.to_multiset().add(right@.to_multiset()).add(
                        backwards@.to_multiset(),
                    ));
                }
            },
            None => {
                assert(false);
            },
        }
    }
    let mut merged: Vec<T> = Vec::new();
    assert(left@.to_multiset() =~= vstd::multiset::Multiset::empty());
    assert(right@.to_multiset() =~= vstd::multiset::Multiset::empty());
    assert(merged@.to_multiset() =~= vstd::multiset::Multiset::empty());
    assert(all =~= backwards@.to_multiset().add(merged@.to_multiset()));
    proof {
        assert forall|path: Seq<u8>| #[trigger] at_path(whole, path) == at_path(merged@, path)
            + at_path(backwards@, path).reverse() by {
            assert(at_path(merged@, path) + at_path(backwards@, path).reverse() =~= parts_at(
                left@,
                right@,
                backwards@,
                path,
            ));
        }
    }
    while backwards.len() > 0
        invariant
            forall|path: Seq<u8>| #[trigger]
                at_path(whole, path) == at_path(merged@, path) + at_path(
                    backwards@,
                    path,
                ).reverse(),
            all == backwards@.to_multiset().add(merged@.to_multiset()),
            in_path_order(merged@),
            forall|i: int, j: int|
                0 <= i < j < backwards@.len() ==> !crate::path::path_less(
                    (#[trigger] backwards@[i]).at(),
                    (#[trigger] backwards@[j]).at(),
                ),
            forall|i: int, j: int|
                0 <= i < merged@.len() && 0 <= j < backwards@.len() ==> !crate::path::path_less(
                    (#[trigger] backwards@[j]).at(),
                    (#[trigger] merged@[i]).at(),
                ),
        decreases backwards@.len(),
    {
        let ghost old_backwards = backwards@;
        let ghost old_merged = merged@;
        proof {
            lemma_pop(backwards@);
        }
        match backwards.pop() {
            Some(item) => {
                merged.push(item);
                proof {
                    lemma_push(old_merged, item);
                    assert(backwards@ =~= old_backwards.drop_last());
                    assert forall|path: Seq<u8>| #[trigger] at_path(whole, path) == at_path(
                        merged@,
                        path,
                    ) + at_path(backwards@, path).reverse() by {
                        lemma_at_path_push(old_merged, item, path);
                        assert(at_path(merged@, path) + at_path(backwards@, path).reverse()
                            =~= at_path(old_merged, path) + at_path(
                            old_backwards,
                            path,
                        ).reverse());
                    }
                }
                assert(all =~= backwards@.to_multiset().add(merged@.to_multiset()));
            },
            None => {
                assert(false);
            },
        }
    }
    assert(backwards@.to_multiset() =~= vstd::multiset::Multiset::empty());
    assert(merged@.to_multiset() =~= all);
    proof {
        assert forall|path: Seq<u8>| #[trigger] at_path(merged@, path) == at_path(
            whole,
            path,
        ) by {
            assert(at_path(merged@, path) + at_path(backwards@, path).reverse() =~= at_path(
                merged@,
                path,
            ));
        }
    }
    merged
}

} // verus!
