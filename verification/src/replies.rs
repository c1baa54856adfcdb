use vstd::prelude::*;

verus! {

/// Whether a store holds everything that was read from it.
pub open spec fn agrees<K, V>(replies: Map<K, V>, store: Map<K, V>) -> bool {
    forall|key: K| #[trigger]
        replies.dom().contains(key) ==> store.dom().contains(key) && store[key] == replies[key]
}

/// A store that holds one reply more holds the replies before it.
pub proof fn agrees_with_earlier_replies<K, V>(
    replies: Map<K, V>,
    key: K,
    value: V,
    store: Map<K, V>,
)
    requires
        agrees(replies.insert(key, value), store),
        !replies.dom().contains(key) || replies[key] == value,
    ensures
        agrees(replies, store),
        store.dom().contains(key),
        store[key] == value,
{
    let more = replies.insert(key, value);
    assert(more.dom().contains(key));
    assert forall|k: K| #[trigger] replies.dom().contains(k) implies store.dom().contains(k)
        && store[k] == replies[k] by {
        assert(more.dom().contains(k));
    }
}

/// Whether a store gives the answers that were read from it, in whatever order
/// and however often they were asked for.
pub open spec fn answers<K, V>(log: Seq<(K, V)>, store: Map<K, V>) -> bool {
    forall|i: int| 0 <= i < log.len() ==> store[(#[trigger] log[i]).0] == log[i].1
}

/// A store gives the answers of a log exactly if it holds every value under the key that
/// it was asked for; it agrees with replies exactly if it holds all of them, and there is
/// a store for any replies.
pub proof fn what_a_store_has_to_hold<K, V>(
    log: Seq<(K, V)>,
    replies: Map<K, V>,
    store: Map<K, V>,
)
    ensures
        answers(log, store) <==> forall|i: int|
            0 <= i < log.len() ==> store[(#[trigger] log[i]).0] == log[i].1,
        agrees(replies, store) <==> replies.dom().subset_of(store.dom()) && forall|key: K|
            #[trigger] replies.dom().contains(key) ==> store[key] == replies[key],
        agrees(replies, replies),
        answers(Seq::empty(), store),
{
    if replies.dom().subset_of(store.dom()) && forall|key: K|
        #[trigger] replies.dom().contains(key) ==> store[key] == replies[key] {
        assert forall|key: K| #[trigger] replies.dom().contains(key) implies store.dom().contains(
            key,
        ) && store[key] == replies[key] by {}
    }
}

/// A store that gives one answer more gives the answers before it.
pub proof fn answers_earlier_questions<K, V>(
    log: Seq<(K, V)>,
    key: K,
    value: V,
    store: Map<K, V>,
)
    requires
        answers(log.push((key, value)), store),
    ensures
        answers(log, store),
        store[key] == value,
{
    let more = log.push((key, value));
    assert(more[log.len() as int] == (key, value));
    assert forall|i: int| 0 <= i < log.len() implies store[(#[trigger] log[i]).0] == log[i].1 by {
        assert(more[i] == log[i]);
    }
}

} // verus!
