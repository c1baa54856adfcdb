use vstd::prelude::*;

use crate::id_map::Fingerprint;

verus! {

/// A SHA-1 object identity: twenty bytes, each four of them read as one big-endian
/// integer.
#[derive(Debug, Clone, Copy, PartialEq, Eq, PartialOrd, Ord, Hash, Structural)]
pub struct ObjectId {
    pub first: u32,
    pub second: u32,
    pub third: u32,
    pub fourth: u32,
    pub fifth: u32,
}

impl ObjectId {
    /// Byte order of identities, which is the order of the five integers.
    pub open spec fn before(self, other: ObjectId) -> bool {
        if self.first != other.first {
            self.first < other.first
        } else if self.second != other.second {
            self.second < other.second
        } else if self.third != other.third {
            self.third < other.third
        } else if self.fourth != other.fourth {
            self.fourth < other.fourth
        } else {
            self.fifth < other.fifth
        }
    }

    /// Whether this identity sorts strictly before another.
    pub fn is_before(&self, other: &ObjectId) -> (result: bool)
        ensures
            result == self.before(*other),
    {
        if self.first != other.first {
            self.first < other.first
        } else if self.second != other.second {
            self.second < other.second
        } else if self.third != other.third {
            self.third < other.third
        } else if self.fourth != other.fourth {
            self.fourth < other.fourth
        } else {
            self.fifth < other.fifth
        }
    }
}

/// Identities are ordered by the first of their integers that differs, and any two that
/// are not the same are ordered one way only.
pub proof fn identities_are_ordered_by_their_first_difference(a: ObjectId, b: ObjectId)
    ensures
        a == b ==> !a.before(b) && !b.before(a),
        a != b ==> a.before(b) != b.before(a),
        a.first < b.first ==> a.before(b),
        a.first == b.first && a.second < b.second ==> a.before(b),
        a.first == b.first && a.second == b.second && a.third < b.third ==> a.before(b),
        a.first == b.first && a.second == b.second && a.third == b.third && a.fourth < b.fourth
            ==> a.before(b),
        a.first == b.first && a.second == b.second && a.third == b.third && a.fourth == b.fourth
            && a.fifth < b.fifth ==> a.before(b),
{
}

impl Fingerprint for ObjectId {
    open spec fn bucket_of(self) -> u128 {
        (self.first * 0x1_0000_0000 + self.second) as u128
    }

    fn bucket(&self) -> (result: u128) {
        self.first as u128 * 0x1_0000_0000 + self.second as u128
    }

    fn same(&self, other: &Self) -> (result: bool) {
        *self == *other
    }
}

/// A 256-bit content identity.
#[derive(Debug, Clone, Copy, PartialEq, Eq, Hash, Structural)]
pub struct MerkleHash {
    pub high: u128,
    pub low: u128,
}

impl Fingerprint for MerkleHash {
    open spec fn bucket_of(self) -> u128 {
        self.high
    }

    fn bucket(&self) -> (result: u128) {
        self.high
    }

    fn same(&self, other: &Self) -> (result: bool) {
        *self == *other
    }
}

/// The four kinds of Git object.
#[derive(Debug, Clone, Copy, PartialEq, Eq, Structural)]
pub enum ObjectKind {
    Blob,
    Tree,
    Commit,
    Tag,
}

/// What a tree entry names.
#[derive(Debug, Clone, Copy, PartialEq, Eq, Structural)]
pub enum EntryKind {
    Tree,
    Blob,
    Symlink,
    Submodule,
}

impl EntryKind {
    /// Whether the entry's object is a blob.
    pub open spec fn blob_backed(self) -> bool {
        self == EntryKind::Blob || self == EntryKind::Symlink
    }

    pub fn is_blob_backed(&self) -> (result: bool)
        ensures
            result == self.blob_backed(),
    {
        match self {
            EntryKind::Blob | EntryKind::Symlink => true,
            _ => false,
        }
    }
}

/// A file and a symbolic link have a blob; a directory and a submodule have none.
pub proof fn which_entries_have_a_blob()
    ensures
        EntryKind::Blob.blob_backed(),
        EntryKind::Symlink.blob_backed(),
        !EntryKind::Tree.blob_backed(),
        !EntryKind::Submodule.blob_backed(),
{
}

/// The file mode recorded by a tree entry.
#[derive(Debug, Clone, Copy, PartialEq, Eq, Structural)]
pub enum EntryMode {
    Tree,
    Regular,
    Executable,
    Symlink,
    Submodule,
}

} // verus!
