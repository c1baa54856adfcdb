use vstd::prelude::*;

use crate::path::{compare_bytes, PathOrder};

verus! {

/// Something that is looked up by a name.
pub trait Named: Sized {
    spec fn named(&self) -> Seq<char>;

    fn name_ref(&self) -> (result: &String)
        ensures
            result@ == self.named(),
    ;
}

/// The index of the first entry under a name, from an index on.
pub open spec fn named_from<T: Named>(entries: Seq<T>, name: Seq<char>, from: int) -> Option<int>
    decreases entries.len() - from,
{
    if from < 0 || from >= entries.len() {
        None
    } else if entries[from].named() == name {
        Some(from)
    } else {
        named_from(entries, name, from + 1)
    }
}

/// The bytes of an entry's name.
pub open spec fn name_bytes<T: Named>(entry: T) -> Seq<u8> {
    vstd::utf8::encode_utf8(entry.named())
}

/// Whether the bytes of the names ascend strictly.
pub open spec fn ascending<T: Named>(entries: Seq<T>) -> bool {
    forall|i: int, j: int|
        0 <= i < j < entries.len() ==> crate::path::path_less(
            name_bytes(#[trigger] entries[i]),
            name_bytes(#[trigger] entries[j]),
        )
}

proof fn lemma_first_named<T: Named>(entries: Seq<T>, name: Seq<char>, from: int, at: int)
    requires
        0 <= from <= at <= entries.len(),
        forall|k: int| from <= k < at ==> (#[trigger] entries[k]).named() != name,
        at < entries.len() ==> entries[at].named() == name,
    ensures
        named_from(entries, name, from) == (if at < entries.len() {
            Some(at)
        } else {
            None
        }),
    decreases at - from,
{
    if from < at {
        assert(entries[from].named() != name);
        lemma_first_named(entries, name, from + 1, at);
    }
}

/// An entry that is found by its name bears it, and none before it does; where none is
/// found, none bears it.
pub proof fn the_first_of_a_name_is_found<T: Named>(entries: Seq<T>, name: Seq<char>, from: int)
    requires
        0 <= from,
    ensures
        match named_from(entries, name, from) {
            Some(at) => {
                &&& from <= at < entries.len()
                &&& entries[at].named() == name
                &&& forall|k: int| from <= k < at ==> (#[trigger] entries[k]).named() != name
            },
            None => forall|k: int|
                from <= k < entries.len() ==> (#[trigger] entries[k]).named() != name,
        },
    decreases entries.len() - from,
{
    if from < entries.len() && entries[from].named() != name {
        the_first_of_a_name_is_found(entries, name, from + 1);
    }
}

/// Whether the bytes of the names ascend strictly.
pub fn are_ascending<T: Named>(entries: &Vec<T>) -> (result: bool)
    ensures
        result == ascending(entries@),
{
    let mut at: usize = 1;
    while at < entries.len()
        invariant
            1 <= at,
            at <= entries@.len() || at == 1,
            forall|i: int, j: int|
                0 <= i < j < at && j < entries@.len() ==> crate::path::path_less(
                    name_bytes(#[trigger] entries@[i]),
                    name_bytes(#[trigger] entries@[j]),
                ),
        decreases entries@.len() - at,
    {
        let before = entries[at - 1].name_ref().as_str().as_bytes();
        let after = entries[at].name_ref().as_str().as_bytes();
        assert(before@ == name_bytes(entries@[at - 1]));
        assert(after@ == name_bytes(entries@[at as int]));
        match compare_bytes(before, after) {
            PathOrder::Less => {},
            _ => {
                return false;
            },
        }
        proof {
            assert forall|i: int| 0 <= i < at implies crate::path::path_less(
                name_bytes(#[trigger] entries@[i]),
                name_bytes(entries@[at as int]),
            ) by {
                if i < at - 1 {
                    crate::path::path_order_is_transitive(
                        name_bytes(entries@[i]),
                        name_bytes(entries@[at - 1]),
                        name_bytes(entries@[at as int]),
                    );
                }
            }
        }
        at += 1;
    }
    true
}

/// Find the first entry under a name. Entries whose names ascend are halved, others are
/// looked through.
pub fn find_named<T: Named>(entries: &Vec<T>, sorted: bool, name: &String) -> (result: Option<
    usize,
>)
    requires
        sorted ==> ascending(entries@),
    ensures
        match result {
            Some(at) => at < entries@.len() && named_from(entries@, name@, 0) == Some(at as int),
            None => named_from(entries@, name@, 0) is None,
        },
{
    let low: usize = if sorted {
        first_not_before(entries, name)
    } else {
        0
    };
    let ghost all = entries@;
    let mut at: usize = low;
    while at < entries.len()
        invariant
            all == entries@,
            low <= at <= all.len(),
            forall|k: int| 0 <= k < at ==> (#[trigger] all[k]).named() != name@,
            sorted ==> ascending(all),
            sorted ==> at == low,
            sorted && low < all.len() ==> !crate::path::path_less(
                name_bytes(all[low as int]),
                vstd::utf8::encode_utf8(name@),
            ),
        decreases all.len() - at,
    {
        if *entries[at].name_ref() == *name {
            proof {
                lemma_first_named(all, name@, 0, at as int);
            }
            return Some(at);
        }
        if sorted {
            proof {
                let wanted = vstd::utf8::encode_utf8(name@);
                assert forall|k: int| 0 <= k < all.len() implies (#[trigger] all[k]).named()
                    != name@ by {
                    if k > low {
                        assert(crate::path::path_less(
                            name_bytes(all[low as int]),
                            name_bytes(all[k]),
                        ));
                    }
                }
                lemma_first_named(all, name@, 0, all.len() as int);
            }
            return None;
        }
        at += 1;
    }
    proof {
        lemma_first_named(all, name@, 0, all.len() as int);
    }
    None
}

/// The first of entries whose names ascend that does not sort before a name.
fn first_not_before<T: Named>(entries: &Vec<T>, name: &String) -> (low: usize)
    requires
        ascending(entries@),
    ensures
        low <= entries@.len(),
        forall|k: int| 0 <= k < low ==> (#[trigger] entries@[k]).named() != name@,
        low < entries@.len() ==> !crate::path::path_less(
            name_bytes(entries@[low as int]),
            vstd::utf8::encode_utf8(name@),
        ),
{
    let ghost all = entries@;
    let ghost wanted = vstd::utf8::encode_utf8(name@);
    let mut low: usize = 0;
    let mut high: usize = entries.len();
    while low < high
        invariant
            all == entries@,
            wanted == vstd::utf8::encode_utf8(name@),
            ascending(all),
            low <= high <= all.len(),
            forall|k: int|
                0 <= k < low ==> crate::path::path_less(name_bytes(#[trigger] all[k]), wanted),
            high < all.len() ==> !crate::path::path_less(name_bytes(all[high as int]), wanted),
        decreases high - low,
    {
        let middle: usize = low + (high - low) / 2;
        let bytes = entries[middle].name_ref().as_str().as_bytes();
        assert(bytes@ == name_bytes(all[middle as int]));
        match compare_bytes(bytes, name.as_str().as_bytes()) {
            PathOrder::Less => {
                proof {
                    assert forall|k: int| 0 <= k < middle + 1 implies crate::path::path_less(
                        name_bytes(#[trigger] all[k]),
                        wanted,
                    ) by {
                        if k < middle {
                            crate::path::path_order_is_transitive(
                                name_bytes(all[k]),
                                name_bytes(all[middle as int]),
                                wanted,
                            );
                        }
                    }
                }
                low = middle + 1;
            },
            _ => {
                high = middle;
            },
        }
    }
    proof {
        crate::path::path_order_is_total(wanted, wanted);
    }
    low
}

} // verus!
