use vstd::prelude::*;
use std::collections::HashMap;

verus! {

broadcast use {vstd::std_specs::hash::group_hash_axioms};

/// A fixed-size identity that can be looked up by an integer part of itself.
pub trait Fingerprint: Sized + Copy {
    spec fn bucket_of(self) -> u128;

    fn bucket(&self) -> (result: u128)
        ensures
            result == self.bucket_of(),
    ;

    fn same(&self, other: &Self) -> (result: bool)
        ensures
            result == (*self == *other),
    ;
}

/// A map from identities to values, indexed by the identities' integer part.
#[verifier::reject_recursive_types(K)]
pub struct IdMap<K: Fingerprint, V> {
    buckets: HashMap<u128, Vec<(K, V)>>,
    contents: Ghost<Map<K, V>>,
}

impl<K: Fingerprint, V> IdMap<K, V> {
    /// What the map holds.
    pub closed spec fn contents(self) -> Map<K, V> {
        self.contents@
    }

    pub closed spec fn bucket_at(self, bucket: u128) -> Seq<(K, V)> {
        if self.buckets@.dom().contains(bucket) {
            self.buckets@[bucket]@
        } else {
            Seq::empty()
        }
    }

    /// Every bucket holds exactly the entries whose identity belongs there.
    pub closed spec fn wf(self) -> bool {
        &&& self.contents@.dom().finite()
        &&& forall|b: u128, i: int|
            #![trigger self.bucket_at(b)[i]]
            0 <= i < self.bucket_at(b).len() ==> {
                &&& self.bucket_at(b)[i].0.bucket_of() == b
                &&& self.contents@.dom().contains(self.bucket_at(b)[i].0)
                &&& self.contents@[self.bucket_at(b)[i].0] == self.bucket_at(b)[i].1
            }
        &&& forall|k: K|
            #![trigger self.contents@.dom().contains(k)]
            self.contents@.dom().contains(k) ==> exists|i: int|
                0 <= i < self.bucket_at(k.bucket_of()).len() && (
                #[trigger] self.bucket_at(k.bucket_of())[i]).0 == k
    }

    /// An empty map.
    pub fn new() -> (result: Self)
        ensures
            result.wf(),
            result.contents() == Map::<K, V>::empty(),
    {
        IdMap { buckets: HashMap::new(), contents: Ghost(Map::empty()) }
    }

    /// A map holds finitely many identities.
    pub proof fn contents_are_finite(self)
        requires
            self.wf(),
        ensures
            self.contents().dom().finite(),
    {
    }

    /// Look up one identity.
    pub fn get(&self, key: &K) -> (result: Option<&V>)
        requires
            self.wf(),
        ensures
            match result {
                Some(value) => self.contents().dom().contains(*key) && self.contents()[*key]
                    == *value,
                None => !self.contents().dom().contains(*key),
            },
    {
        let bucket: u128 = key.bucket();
        match self.buckets.get(&bucket) {
            None => {
                assert(self.bucket_at(bucket).len() == 0);
                None
            },
            Some(entries) => {
                assert(self.bucket_at(bucket) == entries@);
                let mut i: usize = 0;
                while i < entries.len()
                    invariant
                        self.wf(),
                        bucket == key.bucket_of(),
                        self.bucket_at(bucket) == entries@,
                        i <= entries.len(),
                        forall|j: int| 0 <= j < i ==> (#[trigger] entries@[j]).0 != *key,
                    decreases entries.len() - i,
                {
                    if entries[i].0.same(key) {
                        assert(self.bucket_at(bucket)[i as int].0 == *key);
                        return Some(&entries[i].1);
                    }
                    i += 1;
                }
                None
            },
        }
    }

    /// Whether an identity is held.
    pub fn contains(&self, key: &K) -> (result: bool)
        requires
            self.wf(),
        ensures
            result == self.contents().dom().contains(*key),
    {
        match self.get(key) {
            Some(_) => true,
            None => false,
        }
    }

    /// Add an identity that is not held yet; report whether it was added.
    pub fn insert(&mut self, key: K, value: V) -> (added: bool)
        requires
            old(self).wf(),
        ensures
            final(self).wf(),
            added == !old(self).contents().dom().contains(key),
            added ==> final(self).contents() == old(self).contents().insert(key, value),
            !added ==> final(self).contents() == old(self).contents(),
    {
        if self.contains(&key) {
            return false;
        }
        let bucket: u128 = key.bucket();
        let ghost before = *self;
        let mut entries = match self.buckets.remove(&bucket) {
            Some(entries) => entries,
            None => Vec::new(),
        };
        assert(entries@ == before.bucket_at(bucket));
        let ghost at = entries@.len() as int;
        entries.push((key, value));
        self.buckets.insert(bucket, entries);
        self.contents = Ghost(before.contents@.insert(key, value));
        proof {
            assert(self.bucket_at(bucket) == before.bucket_at(bucket).push((key, value)));
            assert forall|b: u128| b != bucket implies #[trigger] self.bucket_at(b)
                == before.bucket_at(b) by {}
            assert forall|b: u128, i: int|
                #![trigger self.bucket_at(b)[i]]
                0 <= i < self.bucket_at(b).len() implies {
                &&& self.bucket_at(b)[i].0.bucket_of() == b
                &&& self.contents@.dom().contains(self.bucket_at(b)[i].0)
                &&& self.contents@[self.bucket_at(b)[i].0] == self.bucket_at(b)[i].1
            } by {
                if b == bucket {
                    if i < at {
                        assert(self.bucket_at(b)[i] == before.bucket_at(b)[i]);
                    }
                } else {
                    assert(self.bucket_at(b)[i] == before.bucket_at(b)[i]);
                }
            }
            assert forall|k: K|
                #![trigger self.contents@.dom().contains(k)]
                self.contents@.dom().contains(k) implies exists|i: int|
                0 <= i < self.bucket_at(k.bucket_of()).len() && (
                #[trigger] self.bucket_at(k.bucket_of())[i]).0 == k by {
                if k == key {
                    assert(self.bucket_at(k.bucket_of())[at].0 == k);
                } else {
                    assert(before.contents@.dom().contains(k));
                    let i = choose|i: int|
                        0 <= i < before.bucket_at(k.bucket_of()).len() && (
                        #[trigger] before.bucket_at(k.bucket_of())[i]).0 == k;
                    assert(self.bucket_at(k.bucket_of())[i] == before.bucket_at(k.bucket_of())[i]);
                }
            }
        }
        true
    }
}

} // verus!
