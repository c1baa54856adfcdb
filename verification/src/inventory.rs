use vstd::prelude::*;

use crate::error::{Error, RepositoryStateError};
use crate::id_map::IdMap;
use crate::memory::reserve_exact;
use crate::oid::MerkleHash;

verus! {

/// One immutable pack of a pinned inventory.
#[derive(Debug, Clone, Copy, PartialEq, Eq, Structural)]
pub struct GitPackInventoryEntry {
    pub pack_id: MerkleHash,
    pub object_count: u64,
    pub pack_size: u64,
}

/// One pack as metadata lists it; a pack whose identity could not be read has
/// none.
#[derive(Debug, Clone, Copy, PartialEq, Eq, Structural)]
pub struct PackManifestEntry {
    pub pack_id: Option<MerkleHash>,
    pub object_count: u64,
    pub size: u64,
}

/// The packs of a pinned manifest, by identity.
pub struct PackInventory {
    entries: Vec<GitPackInventoryEntry>,
    index: IdMap<MerkleHash, usize>,
    contents: Ghost<Map<MerkleHash, GitPackInventoryEntry>>,
}

impl View for PackInventory {
    type V = Map<MerkleHash, GitPackInventoryEntry>;

    closed spec fn view(&self) -> Map<MerkleHash, GitPackInventoryEntry> {
        self.contents@
    }
}

/// The inventory entry of a listed pack.
pub open spec fn listed_entry(pack: PackManifestEntry) -> GitPackInventoryEntry {
    GitPackInventoryEntry {
        pack_id: pack.pack_id->0,
        object_count: pack.object_count,
        pack_size: pack.size,
    }
}

/// Why a list of packs is refused, if it is: at the first pack without a readable
/// identity or with that of an earlier one.
pub open spec fn pack_fault(packs: Seq<PackManifestEntry>) -> Option<RepositoryStateError>
    decreases packs.len(),
{
    if packs.len() == 0 {
        None
    } else if pack_fault(packs.drop_last()) is Some {
        pack_fault(packs.drop_last())
    } else if packs.last().pack_id is None {
        Some(RepositoryStateError::InvalidContentIdentity)
    } else if pack_map(packs.drop_last()).dom().contains(packs.last().pack_id->0) {
        Some(RepositoryStateError::DuplicatePack)
    } else {
        None
    }
}

/// The packs of a list, in its order.
pub open spec fn listed_entries(packs: Seq<PackManifestEntry>) -> Seq<GitPackInventoryEntry> {
    packs.map_values(|pack: PackManifestEntry| listed_entry(pack))
}

/// The packs of a list, by identity.
pub open spec fn pack_map(packs: Seq<PackManifestEntry>) -> Map<MerkleHash, GitPackInventoryEntry>
    decreases packs.len(),
{
    if packs.len() == 0 {
        Map::empty()
    } else {
        pack_map(packs.drop_last()).insert(packs.last().pack_id->0, listed_entry(packs.last()))
    }
}

proof fn lemma_pack_fault_stays(packs: Seq<PackManifestEntry>, count: int)
    requires
        0 <= count <= packs.len(),
        pack_fault(packs.subrange(0, count)) is Some,
    ensures
        pack_fault(packs) == pack_fault(packs.subrange(0, count)),
    decreases packs.len() - count,
{
    if count < packs.len() {
        assert(packs.subrange(0, count + 1).drop_last() =~= packs.subrange(0, count));
        lemma_pack_fault_stays(packs, count + 1);
    } else {
        assert(packs.subrange(0, count) =~= packs);
    }
}

/// Every pack of a list without fault stands in the map under its identity, and
/// nothing else does.
proof fn lemma_pack_map(packs: Seq<PackManifestEntry>)
    requires
        pack_fault(packs) is None,
    ensures
        forall|i: int|
            0 <= i < packs.len() ==> (#[trigger] packs[i]).pack_id is Some && pack_map(
                packs,
            ).dom().contains(packs[i].pack_id->0) && pack_map(packs)[packs[i].pack_id->0]
                == listed_entry(packs[i]),
        forall|id: MerkleHash| #[trigger]
            pack_map(packs).dom().contains(id) ==> exists|i: int|
                0 <= i < packs.len() && (#[trigger] packs[i]).pack_id == Some(id),
    decreases packs.len(),
{
    if packs.len() > 0 {
        let rest = packs.drop_last();
        lemma_pack_map(rest);
        assert forall|i: int| 0 <= i < packs.len() implies (#[trigger] packs[i]).pack_id is Some
            && pack_map(packs).dom().contains(packs[i].pack_id->0) && pack_map(
            packs,
        )[packs[i].pack_id->0] == listed_entry(packs[i]) by {
            if i < rest.len() {
                assert(rest[i] == packs[i]);
            }
        }
        assert forall|id: MerkleHash| #[trigger] pack_map(packs).dom().contains(id) implies exists|
            i: int,
        |
            0 <= i < packs.len() && (#[trigger] packs[i]).pack_id == Some(id) by {
            if id == packs.last().pack_id->0 {
                assert(packs[packs.len() - 1].pack_id == Some(id));
            } else {
                assert(pack_map(rest).dom().contains(id));
                let i = choose|i: int| 0 <= i < rest.len() && (#[trigger] rest[i]).pack_id == Some(id);
                assert(packs[i].pack_id == Some(id));
            }
        }
    }
}

proof fn lemma_pack_known(packs: Seq<PackManifestEntry>, id: MerkleHash)
    requires
        forall|i: int| 0 <= i < packs.len() ==> (#[trigger] packs[i]).pack_id is Some,
    ensures
        pack_map(packs).dom().contains(id) <==> exists|i: int|
            0 <= i < packs.len() && (#[trigger] packs[i]).pack_id == Some(id),
    decreases packs.len(),
{
    if packs.len() > 0 {
        let rest = packs.drop_last();
        assert forall|i: int| 0 <= i < rest.len() implies (#[trigger] rest[i]).pack_id is Some by {
            assert(rest[i] == packs[i]);
        }
        lemma_pack_known(rest, id);
        if pack_map(packs).dom().contains(id) {
            if packs.last().pack_id == Some(id) {
                assert(packs[packs.len() - 1].pack_id == Some(id));
            } else {
                let i = choose|i: int| 0 <= i < rest.len() && (#[trigger] rest[i]).pack_id == Some(id);
                assert(packs[i].pack_id == Some(id));
            }
        }
        if exists|i: int| 0 <= i < packs.len() && (#[trigger] packs[i]).pack_id == Some(id) {
            let i = choose|i: int| 0 <= i < packs.len() && (#[trigger] packs[i]).pack_id == Some(id);
            if i < rest.len() {
                assert(rest[i].pack_id == Some(id));
            }
        }
    }
}

/// A list of packs is accepted exactly if every identity can be read and none comes
/// twice; otherwise the first pack that breaks this names the fault.
pub proof fn when_a_list_of_packs_is_accepted(packs: Seq<PackManifestEntry>)
    ensures
        pack_fault(packs) is None <==> {
            &&& forall|i: int| 0 <= i < packs.len() ==> (#[trigger] packs[i]).pack_id is Some
            &&& forall|i: int, j: int|
                0 <= i < j < packs.len() ==> (#[trigger] packs[i]).pack_id != (
                #[trigger] packs[j]).pack_id
        },
        pack_fault(packs) matches Some(fault) ==> exists|k: int|
            {
                &&& 0 <= k < packs.len()
                &&& forall|i: int| 0 <= i < k ==> (#[trigger] packs[i]).pack_id is Some
                &&& forall|i: int, j: int|
                    0 <= i < j < k ==> (#[trigger] packs[i]).pack_id != (
                    #[trigger] packs[j]).pack_id
                &&& if (#[trigger] packs[k]).pack_id is None {
                    fault == RepositoryStateError::InvalidContentIdentity
                } else {
                    fault == RepositoryStateError::DuplicatePack && exists|i: int|
                        0 <= i < k && (#[trigger] packs[i]).pack_id == packs[k].pack_id
                }
            },
    decreases packs.len(),
{
    if packs.len() > 0 {
        let rest = packs.drop_last();
        let last = packs.len() - 1;
        when_a_list_of_packs_is_accepted(rest);
        assert forall|i: int| 0 <= i < rest.len() implies #[trigger] rest[i] == packs[i] by {}
        assert forall|i: int| 0 <= i < last implies #[trigger] packs[i] == rest[i] by {}
        if let Some(fault) = pack_fault(rest) {
            let k = choose|k: int|
                {
                    &&& 0 <= k < rest.len()
                    &&& forall|i: int| 0 <= i < k ==> (#[trigger] rest[i]).pack_id is Some
                    &&& forall|i: int, j: int|
                        0 <= i < j < k ==> (#[trigger] rest[i]).pack_id != (
                        #[trigger] rest[j]).pack_id
                    &&& if (#[trigger] rest[k]).pack_id is None {
                        fault == RepositoryStateError::InvalidContentIdentity
                    } else {
                        fault == RepositoryStateError::DuplicatePack && exists|i: int|
                            0 <= i < k && (#[trigger] rest[i]).pack_id == rest[k].pack_id
                    }
                };
            assert(packs[k] == rest[k]);
            if rest[k].pack_id is Some {
                let i = choose|i: int|
                    0 <= i < k && (#[trigger] rest[i]).pack_id == rest[k].pack_id;
                assert(packs[i].pack_id == packs[k].pack_id);
            }
        } else {
            assert(packs[last] == packs.last());
            if packs.last().pack_id is Some {
                lemma_pack_known(rest, packs.last().pack_id->0);
                if pack_fault(packs) is Some {
                    let i = choose|i: int|
                        0 <= i < rest.len() && (#[trigger] rest[i]).pack_id
                            == packs.last().pack_id;
                    assert(packs[i].pack_id == packs[last].pack_id);
                } else {
                    assert forall|i: int, j: int| 0 <= i < j < packs.len() implies (
                    #[trigger] packs[i]).pack_id != (#[trigger] packs[j]).pack_id by {
                        assert(packs[i] == rest[i]);
                        if j == last {
                            assert(rest[i].pack_id != packs.last().pack_id);
                        } else {
                            assert(packs[j] == rest[j]);
                        }
                    }
                }
            }
        }
    }
}

/// The inventory of an accepted list holds each of its packs under its own identity, with
/// the numbers that the list gives, in the order of the list, and nothing else.
pub proof fn an_inventory_holds_what_is_listed(packs: Seq<PackManifestEntry>)
    requires
        pack_fault(packs) is None,
    ensures
        listed_entries(packs).len() == packs.len(),
        forall|i: int|
            0 <= i < packs.len() ==> {
                let entry = #[trigger] listed_entries(packs)[i];
                &&& Some(entry.pack_id) == packs[i].pack_id
                &&& entry.object_count == packs[i].object_count
                &&& entry.pack_size == packs[i].size
                &&& pack_map(packs).dom().contains(entry.pack_id)
                &&& pack_map(packs)[entry.pack_id] == entry
            },
        forall|id: MerkleHash| #[trigger]
            pack_map(packs).dom().contains(id) ==> exists|i: int|
                0 <= i < packs.len() && (#[trigger] packs[i]).pack_id == Some(id),
{
    lemma_pack_map(packs);
    assert forall|i: int| 0 <= i < packs.len() implies ({
        let entry = #[trigger] listed_entries(packs)[i];
        &&& Some(entry.pack_id) == packs[i].pack_id
        &&& entry.object_count == packs[i].object_count
        &&& entry.pack_size == packs[i].size
        &&& pack_map(packs).dom().contains(entry.pack_id)
        &&& pack_map(packs)[entry.pack_id] == entry
    }) by {
        assert(packs[i].pack_id is Some);
    }
}

/// The order in which packs are listed does not change their inventory.
pub proof fn pack_order_does_not_matter(
    packs: Seq<PackManifestEntry>,
    others: Seq<PackManifestEntry>,
)
    requires
        packs.to_multiset() == others.to_multiset(),
        pack_fault(packs) is None,
        pack_fault(others) is None,
    ensures
        pack_map(packs) == pack_map(others),
{
    lemma_map_within(packs, others);
    lemma_map_within(others, packs);
    assert(pack_map(packs) =~= pack_map(others));
}

proof fn lemma_map_within(packs: Seq<PackManifestEntry>, others: Seq<PackManifestEntry>)
    requires
        packs.to_multiset() == others.to_multiset(),
        pack_fault(packs) is None,
        pack_fault(others) is None,
    ensures
        forall|id: MerkleHash| #[trigger]
            pack_map(packs).dom().contains(id) ==> pack_map(others).dom().contains(id) && pack_map(
                others,
            )[id] == pack_map(packs)[id],
{
    broadcast use vstd::seq_lib::group_to_multiset_ensures;

    lemma_pack_map(packs);
    lemma_pack_map(others);
    assert forall|id: MerkleHash| #[trigger] pack_map(packs).dom().contains(id) implies pack_map(
        others,
    ).dom().contains(id) && pack_map(others)[id] == pack_map(packs)[id] by {
        let i = choose|i: int| 0 <= i < packs.len() && (#[trigger] packs[i]).pack_id == Some(id);
        let pack = packs[i];
        assert(packs.contains(pack));
        assert(packs.to_multiset().count(pack) > 0);
        assert(others.contains(pack));
        let j = choose|j: int| 0 <= j < others.len() && others[j] == pack;
        assert(others[j].pack_id == Some(id));
    }
}

/// Accept a content identity that could be read.
pub fn parse_merkle_hash(value: Option<MerkleHash>) -> (result: Result<MerkleHash, Error>)
    ensures
        result == (match value {
            Some(hash) => Ok::<MerkleHash, Error>(hash),
            None => Err(
                Error::RepositoryState { reason: RepositoryStateError::InvalidContentIdentity },
            ),
        }),
{
    match value {
        Some(hash) => Ok(hash),
        None => Err(
            Error::RepositoryState { reason: RepositoryStateError::InvalidContentIdentity },
        ),
    }
}

impl PackInventory {
    pub closed spec fn wf(self) -> bool {
        &&& self.index.wf()
        &&& self.index.contents().dom() =~= self.contents@.dom()
        &&& self.contents@.dom().finite()
        &&& self.contents@.dom().len() == self.entries@.len()
        &&& forall|id: MerkleHash| #[trigger]
            self.contents@.dom().contains(id) ==> {
                &&& self.index.contents()[id] < self.entries@.len()
                &&& self.contents@[id] == self.entries@[self.index.contents()[id] as int]
                &&& self.contents@[id].pack_id == id
            }
        &&& forall|i: int|
            0 <= i < self.entries@.len() ==> self.contents@.dom().contains(
                (#[trigger] self.entries@[i]).pack_id,
            ) && self.contents@[self.entries@[i].pack_id] == self.entries@[i]
                && self.index.contents()[self.entries@[i].pack_id] == i
    }

    /// The packs in the order in which they were listed.
    pub closed spec fn listed(self) -> Seq<GitPackInventoryEntry> {
        self.entries@
    }

    /// Every pack is listed exactly once, and nothing else is.
    pub proof fn every_pack_is_listed_once(self)
        requires
            self.wf(),
        ensures
            self@.dom().finite(),
            self.listed().len() == self@.dom().len(),
            forall|i: int|
                0 <= i < self.listed().len() ==> self@.dom().contains(
                    (#[trigger] self.listed()[i]).pack_id,
                ) && self@[self.listed()[i].pack_id] == self.listed()[i],
            forall|i: int, j: int|
                0 <= i < j < self.listed().len() ==> (#[trigger] self.listed()[i]).pack_id != (
                #[trigger] self.listed()[j]).pack_id,
            forall|id: MerkleHash| #[trigger]
                self@.dom().contains(id) ==> exists|i: int|
                    0 <= i < self.listed().len() && #[trigger] self.listed()[i] == self@[id],
    {
        assert forall|id: MerkleHash| #[trigger] self@.dom().contains(id) implies exists|i: int|
            0 <= i < self.listed().len() && #[trigger] self.listed()[i] == self@[id] by {
            let i = self.index.contents()[id] as int;
            assert(self.listed()[i] == self@[id]);
        }
    }

    /// An inventory without packs.
    pub fn new() -> (result: PackInventory)
        ensures
            result.wf(),
            result@ == Map::<MerkleHash, GitPackInventoryEntry>::empty(),
            result.listed() == Seq::<GitPackInventoryEntry>::empty(),
    {
        PackInventory { entries: Vec::new(), index: IdMap::new(), contents: Ghost(Map::empty()) }
    }

    /// The number of packs.
    pub fn len(&self) -> (result: usize)
        requires
            self.wf(),
        ensures
            result == self@.dom().len(),
            result == self.listed().len(),
            self@.dom().finite(),
    {
        self.entries.len()
    }

    /// One pack, by its position among `len` packs.
    pub fn get(&self, at: usize) -> (result: Option<GitPackInventoryEntry>)
        requires
            self.wf(),
        ensures
            result == (if at < self.listed().len() {
                Some(self.listed()[at as int])
            } else {
                None
            }),
            result is Some <==> at < self@.dom().len(),
            result matches Some(entry) ==> self@.dom().contains(entry.pack_id)
                && self@[entry.pack_id] == entry,
    {
        if at < self.entries.len() {
            assert(self.contents@.dom().contains(self.entries@[at as int].pack_id));
            Some(self.entries[at])
        } else {
            None
        }
    }

    /// Add a pack whose identity is new; report whether it was.
    fn insert(&mut self, entry: GitPackInventoryEntry) -> (added: bool)
        requires
            old(self).wf(),
        ensures
            final(self).wf(),
            added == !old(self)@.dom().contains(entry.pack_id),
            final(self)@ == (if added {
                old(self)@.insert(entry.pack_id, entry)
            } else {
                old(self)@
            }),
            final(self).listed() == (if added {
                old(self).listed().push(entry)
            } else {
                old(self).listed()
            }),
    {
        let ghost before = *self;
        let at: usize = self.entries.len();
        if !self.index.insert(entry.pack_id, at) {
            return false;
        }
        self.entries.push(entry);
        self.contents = Ghost(before.contents@.insert(entry.pack_id, entry));
        proof {
            assert forall|i: int| 0 <= i < self.entries@.len() implies self.contents@.dom().contains(
                (#[trigger] self.entries@[i]).pack_id,
            ) && self.contents@[self.entries@[i].pack_id] == self.entries@[i]
                && self.index.contents()[self.entries@[i].pack_id] == i by {
                if i < before.entries@.len() {
                    assert(self.entries@[i] == before.entries@[i]);
                }
            }
            assert forall|id: MerkleHash| #[trigger] self.contents@.dom().contains(id) implies {
                &&& self.index.contents()[id] < self.entries@.len()
                &&& self.contents@[id] == self.entries@[self.index.contents()[id] as int]
                &&& self.contents@[id].pack_id == id
            } by {
                if id != entry.pack_id {
                    assert(before.contents@.dom().contains(id));
                }
            }
        }
        true
    }

    /// Whether two inventories hold exactly the same packs.
    pub fn same_packs(&self, other: &PackInventory) -> (result: bool)
        requires
            self.wf(),
            other.wf(),
        ensures
            result == (self@ == other@),
    {
        if self.entries.len() != other.entries.len() {
            return false;
        }
        let mut at: usize = 0;
        while at < other.entries.len()
            invariant
                self.wf(),
                other.wf(),
                self.entries@.len() == other.entries@.len(),
                at <= other.entries@.len(),
                forall|i: int|
                    0 <= i < at ==> self.contents@.dom().contains(
                        (#[trigger] other.entries@[i]).pack_id,
                    ) && self.contents@[other.entries@[i].pack_id] == other.entries@[i],
            decreases other.entries@.len() - at,
        {
            let entry = other.entries[at];
            assert(other.contents@.dom().contains(other.entries@[at as int].pack_id));
            match self.index.get(&entry.pack_id) {
                Some(position) => {
                    assert(self.contents@.dom().contains(entry.pack_id));
                    if self.entries[*position] != entry {
                        assert(self@[entry.pack_id] != other@[entry.pack_id]);
                        return false;
                    }
                },
                None => {
                    assert(!self@.dom().contains(entry.pack_id));
                    return false;
                },
            }
            at += 1;
        }
        proof {
            assert forall|id: MerkleHash| #[trigger] other.contents@.dom().contains(id) implies
                self.contents@.dom().contains(id) && self.contents@[id] == other.contents@[id] by {
                let i = other.index.contents()[id] as int;
                assert(other.contents@[id] == other.entries@[i]);
                assert(other.contents@[other.entries@[i].pack_id] == other.entries@[i]);
            }
            vstd::set_lib::lemma_subset_equality(other.contents@.dom(), self.contents@.dom());
            assert(self@ =~= other@);
        }
        true
    }

    /// The only pack of an inventory that has exactly one.
    pub fn only_pack(&self) -> (result: Option<GitPackInventoryEntry>)
        requires
            self.wf(),
        ensures
            match result {
                Some(entry) => self@ == Map::<MerkleHash, GitPackInventoryEntry>::empty().insert(
                    entry.pack_id,
                    entry,
                ),
                None => self@.dom().len() != 1,
            },
    {
        if self.entries.len() != 1 {
            return None;
        }
        let entry = self.entries[0];
        proof {
            assert(self.contents@.dom().contains(self.entries@[0].pack_id));
            let one = Set::<MerkleHash>::empty().insert(entry.pack_id);
            assert(one.len() == 1);
            vstd::set_lib::lemma_subset_equality(one, self.contents@.dom());
            assert(self@ =~= Map::<MerkleHash, GitPackInventoryEntry>::empty().insert(
                entry.pack_id,
                entry,
            ));
        }
        Some(entry)
    }
}

/// Why a list of packs could not be read: room is asked for first.
pub open spec fn packs_refused(packs: Seq<PackManifestEntry>, error: Error) -> bool {
    ||| crate::memory::refused_exactly::<GitPackInventoryEntry>(packs.len() as usize, error)
    ||| room_for_packs(packs) && pack_fault(packs) is Some && error == (Error::RepositoryState {
        reason: pack_fault(packs)->0,
    })
}

/// A list of packs is refused only for want of memory or for a fault of its own, and an
/// empty one never.
pub proof fn when_a_list_of_packs_is_refused(packs: Seq<PackManifestEntry>, error: Error)
    requires
        packs_refused(packs, error),
        packs.len() <= usize::MAX,
    ensures
        packs.len() > 0,
        error is Allocation || (pack_fault(packs) is Some && error == (Error::RepositoryState {
            reason: pack_fault(packs)->0,
        })),
{
}

/// Whether there was room for a list of packs.
pub open spec fn room_for_packs(packs: Seq<PackManifestEntry>) -> bool {
    crate::memory::granted_exactly::<GitPackInventoryEntry>(packs.len() as usize)
}

/// Read a list of packs into an inventory.
pub fn parse_inventory(packs: &[PackManifestEntry]) -> (result: Result<PackInventory, Error>)
    ensures
        match result {
            Ok(inventory) => {
                &&& pack_fault(packs@) is None
                &&& room_for_packs(packs@)
                &&& inventory.wf()
                &&& inventory@ == pack_map(packs@)
                &&& inventory.listed() == listed_entries(packs@)
            },
            Err(error) => packs_refused(packs@, error),
        },
{
    let mut inventory = PackInventory::new();
    assert(inventory.entries@ =~= Seq::empty());
    reserve_exact(&mut inventory.entries, packs.len())?;
    fill_inventory(packs, inventory)
}

/// Read a list of packs into an empty inventory that has been made for them.
pub fn fill_inventory(packs: &[PackManifestEntry], inventory: PackInventory) -> (result: Result<
    PackInventory,
    Error,
>)
    requires
        inventory.wf(),
        inventory@ == Map::<MerkleHash, GitPackInventoryEntry>::empty(),
    ensures
        match pack_fault(packs@) {
            None => {
                &&& result is Ok
                &&& result->Ok_0.wf()
                &&& result->Ok_0@ == pack_map(packs@)
                &&& result->Ok_0.listed() == listed_entries(packs@)
            },
            Some(fault) => result == Err::<PackInventory, Error>(
                Error::RepositoryState { reason: fault },
            ),
        },
{
    let mut inventory = inventory;
    let mut at: usize = 0;
    assert(inventory.listed() =~= listed_entries(packs@.subrange(0, 0)));
    assert(packs@.subrange(0, 0) =~= Seq::empty());
    while at < packs.len()
        invariant
            at <= packs@.len(),
            inventory.wf(),
            inventory@ == pack_map(packs@.subrange(0, at as int)),
            inventory.listed() == listed_entries(packs@.subrange(0, at as int)),
            pack_fault(packs@.subrange(0, at as int)) is None,
        decreases packs@.len() - at,
    {
        let ghost seen = packs@.subrange(0, at + 1);
        proof {
            assert(seen.drop_last() =~= packs@.subrange(0, at as int));
            assert(seen.last() == packs@[at as int]);
        }
        let pack = packs[at];
        let pack_id = match parse_merkle_hash(pack.pack_id) {
            Ok(pack_id) => pack_id,
            Err(error) => {
                proof {
                    lemma_pack_fault_stays(packs@, at + 1);
                }
                return Err(error);
            },
        };
        let entry = GitPackInventoryEntry {
            pack_id,
            object_count: pack.object_count,
            pack_size: pack.size,
        };
        if !inventory.insert(entry) {
            proof {
                lemma_pack_fault_stays(packs@, at + 1);
            }
            return Err(Error::RepositoryState { reason: RepositoryStateError::DuplicatePack });
        }
        assert(inventory.listed() =~= listed_entries(seen));
        at += 1;
    }
    assert(packs@.subrange(0, at as int) =~= packs@);
    Ok(inventory)
}

} // verus!
