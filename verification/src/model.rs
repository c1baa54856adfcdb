use vstd::prelude::*;

use crate::oid::{EntryKind, EntryMode, MerkleHash, ObjectId, ObjectKind};
use crate::path::{copy_bytes, GitPath};
use crate::sort::Pathed;

verus! {

/// Who made a commit or a tag, and when.
#[derive(Debug, PartialEq, Eq)]
pub struct Signature {
    pub name: Vec<u8>,
    pub email: Vec<u8>,
    pub seconds: i64,
    pub offset: i32,
}

/// The content of a [`Signature`].
pub struct SignatureModel {
    pub name: Seq<u8>,
    pub email: Seq<u8>,
    pub seconds: i64,
    pub offset: i32,
}

impl View for Signature {
    type V = SignatureModel;

    open spec fn view(&self) -> SignatureModel {
        SignatureModel {
            name: self.name@,
            email: self.email@,
            seconds: self.seconds,
            offset: self.offset,
        }
    }
}

impl Signature {
    /// Another value of the same content.
    pub fn duplicate(&self) -> (result: Signature)
        ensures
            result@ == self@,
    {
        Signature {
            name: copy_bytes(self.name.as_slice()),
            email: copy_bytes(self.email.as_slice()),
            seconds: self.seconds,
            offset: self.offset,
        }
    }
}

/// A signature header carried by a commit.
#[derive(Debug, PartialEq, Eq)]
pub struct SignatureHeader {
    pub name: Vec<u8>,
    pub value: Vec<u8>,
}

impl View for SignatureHeader {
    type V = (Seq<u8>, Seq<u8>);

    open spec fn view(&self) -> (Seq<u8>, Seq<u8>) {
        (self.name@, self.value@)
    }
}

/// A verified commit.
#[derive(Debug, PartialEq, Eq)]
pub struct Commit {
    pub oid: ObjectId,
    pub tree: ObjectId,
    pub parents: Vec<ObjectId>,
    pub author: Signature,
    pub committer: Signature,
    pub encoding: Option<Vec<u8>>,
    pub message: Vec<u8>,
    pub signature_headers: Vec<SignatureHeader>,
}

/// The content of a [`Commit`].
#[verifier::ext_equal]
pub struct CommitModel {
    pub oid: ObjectId,
    pub tree: ObjectId,
    pub parents: Seq<ObjectId>,
    pub author: SignatureModel,
    pub committer: SignatureModel,
    pub encoding: Option<Seq<u8>>,
    pub message: Seq<u8>,
    pub signature_headers: Seq<(Seq<u8>, Seq<u8>)>,
}

pub open spec fn optional_bytes(bytes: Option<Vec<u8>>) -> Option<Seq<u8>> {
    match bytes {
        Some(bytes) => Some(bytes@),
        None => None,
    }
}

pub open spec fn header_values(headers: Seq<SignatureHeader>) -> Seq<(Seq<u8>, Seq<u8>)> {
    headers.map_values(|header: SignatureHeader| header@)
}

impl View for Commit {
    type V = CommitModel;

    open spec fn view(&self) -> CommitModel {
        CommitModel {
            oid: self.oid,
            tree: self.tree,
            parents: self.parents@,
            author: self.author@,
            committer: self.committer@,
            encoding: optional_bytes(self.encoding),
            message: self.message@,
            signature_headers: header_values(self.signature_headers@),
        }
    }
}

/// Copy a list of identities.
pub fn copy_oids(oids: &[ObjectId]) -> (result: Vec<ObjectId>)
    ensures
        result@ == oids@,
{
    let mut result: Vec<ObjectId> = Vec::new();
    let mut at: usize = 0;
    while at < oids.len()
        invariant
            at <= oids@.len(),
            result@ == oids@.subrange(0, at as int),
        decreases oids@.len() - at,
    {
        result.push(oids[at]);
        at += 1;
        assert(result@ =~= oids@.subrange(0, at as int));
    }
    assert(result@ =~= oids@);
    result
}

/// The sum of the lengths of a commit's signature headers.
pub open spec fn header_bytes(headers: Seq<(Seq<u8>, Seq<u8>)>) -> int
    decreases headers.len(),
{
    if headers.len() == 0 {
        0
    } else {
        header_bytes(headers.drop_last()) + headers.last().0.len() + headers.last().1.len()
    }
}

impl CommitModel {
    /// The size charged for returning a commit: its fixed part, its parents and
    /// every variable-length field.
    pub open spec fn response_bytes(self) -> int {
        vstd::layout::size_of::<Commit>() + self.parents.len() * vstd::layout::size_of::<ObjectId>()
            + self.author.name.len() + self.author.email.len() + self.committer.name.len()
            + self.committer.email.len() + (match self.encoding {
            Some(encoding) => encoding.len() as int,
            None => 0,
        }) + self.message.len() + header_bytes(self.signature_headers)
    }
}

/// A commit is charged its fixed part and every field of varying length: what each of
/// them adds can be told from the commit alone.
pub proof fn what_a_commit_is_charged(
    commit: CommitModel,
    headers: Seq<(Seq<u8>, Seq<u8>)>,
    header: (Seq<u8>, Seq<u8>),
)
    ensures
        header_bytes(Seq::empty()) == 0,
        header_bytes(headers.push(header)) == header_bytes(headers) + header.0.len()
            + header.1.len(),
        commit.response_bytes() == vstd::layout::size_of::<Commit>() + commit.parents.len()
            * vstd::layout::size_of::<ObjectId>() + commit.author.name.len()
            + commit.author.email.len() + commit.committer.name.len()
            + commit.committer.email.len() + commit.message.len() + header_bytes(
            commit.signature_headers,
        ) + if commit.encoding is Some {
            commit.encoding->0.len() as int
        } else {
            0
        },
{
    assert(headers.push(header).drop_last() =~= headers);
}

/// The response size of a commit, as far as it can be counted.
pub fn commit_response_bytes(commit: &Commit) -> (result: u64)
    ensures
        result == crate::memory::clamp_usize(commit@.response_bytes()),
{
    let mut headers: usize = 0;
    let mut at: usize = 0;
    let ghost all = commit@.signature_headers;
    assert(all.subrange(0, 0) =~= Seq::empty());
    while at < commit.signature_headers.len()
        invariant
            at <= commit.signature_headers@.len(),
            all == header_values(commit.signature_headers@),
            headers == crate::memory::clamp_usize(header_bytes(all.subrange(0, at as int))),
            header_bytes(all.subrange(0, at as int)) >= 0,
        decreases commit.signature_headers@.len() - at,
    {
        let header = &commit.signature_headers[at];
        proof {
            assert(all[at as int] == header@);
            assert(all.subrange(0, at + 1).drop_last() =~= all.subrange(0, at as int));
        }
        headers = headers.saturating_add(header.name.len().saturating_add(header.value.len()));
        at += 1;
    }
    proof {
        assert(all.subrange(0, at as int) =~= all);
        assert(commit.parents@.len() * vstd::layout::size_of::<ObjectId>() >= 0)
            by (nonlinear_arith);
    }
    let encoding: usize = match &commit.encoding {
        Some(encoding) => encoding.len(),
        None => 0,
    };
    let parents: usize = crate::memory::saturating_product(
        commit.parents.len(),
        core::mem::size_of::<ObjectId>(),
    );
    let bytes: usize = core::mem::size_of::<Commit>().saturating_add(parents).saturating_add(
        commit.author.name.len(),
    ).saturating_add(commit.author.email.len()).saturating_add(
        commit.committer.name.len(),
    ).saturating_add(commit.committer.email.len()).saturating_add(encoding).saturating_add(
        commit.message.len(),
    ).saturating_add(headers);
    bytes as u64
}

impl Commit {
    /// Another value of the same content.
    pub fn duplicate(&self) -> (result: Commit)
        ensures
            result@ == self@,
    {
        let mut headers: Vec<SignatureHeader> = Vec::new();
        let mut at: usize = 0;
        while at < self.signature_headers.len()
            invariant
                at <= self.signature_headers@.len(),
                header_values(headers@) == header_values(self.signature_headers@).subrange(
                    0,
                    at as int,
                ),
            decreases self.signature_headers@.len() - at,
        {
            let ghost before = headers@;
            headers.push(
                SignatureHeader {
                    name: copy_bytes(self.signature_headers[at].name.as_slice()),
                    value: copy_bytes(self.signature_headers[at].value.as_slice()),
                },
            );
            proof {
                assert(header_values(headers@) =~= header_values(before).push(
                    header_values(self.signature_headers@)[at as int],
                ));
            }
            at += 1;
            assert(header_values(headers@) =~= header_values(self.signature_headers@).subrange(
                0,
                at as int,
            ));
        }
        assert(header_values(headers@) =~= header_values(self.signature_headers@));
        Commit {
            oid: self.oid,
            tree: self.tree,
            parents: copy_oids(self.parents.as_slice()),
            author: self.author.duplicate(),
            committer: self.committer.duplicate(),
            encoding: match &self.encoding {
                Some(encoding) => Some(copy_bytes(encoding.as_slice())),
                None => None,
            },
            message: copy_bytes(self.message.as_slice()),
            signature_headers: headers,
        }
    }
}

/// One entry of a tree, under its full path.
#[derive(Debug, PartialEq, Eq)]
pub struct TreeEntry {
    pub path: GitPath,
    pub oid: ObjectId,
    pub mode: EntryMode,
    pub kind: EntryKind,
    pub size: Option<u64>,
}

impl Pathed for TreeEntry {
    open spec fn at(&self) -> Seq<u8> {
        self.path@
    }

    fn path_ref(&self) -> (result: &GitPath) {
        &self.path
    }
}

/// What a blob's bytes stand for.
#[derive(Debug, Clone, Copy, PartialEq, Eq, Structural)]
pub enum ContentClassification {
    OrdinaryGit,
    CrabPointer,
    LfsPointer,
}

/// What is known of a blob besides its bytes.
#[derive(Debug, Clone, Copy, PartialEq, Eq, Structural)]
pub struct BlobMetadata {
    pub oid: ObjectId,
    pub git_size: u64,
    pub logical_size: Option<u64>,
    pub mode: EntryMode,
    pub kind: EntryKind,
    pub classification: ContentClassification,
}

/// A verified blob.
#[derive(Debug, PartialEq, Eq)]
pub struct Blob {
    pub metadata: BlobMetadata,
    pub bytes: Vec<u8>,
}

/// How an entry differs between two versions.
#[derive(Debug, Clone, Copy, PartialEq, Eq, Structural)]
pub enum ChangeKind {
    Added,
    Deleted,
    Modified,
    ModeChanged,
    TypeChanged,
}

/// Which parents a history follows.
#[derive(Debug, Clone, Copy, PartialEq, Eq, Structural)]
pub enum HistoryTraversal {
    FirstParent,
    AllParents,
}

/// A bounded part of a longer result and where it continues.
#[derive(Debug, PartialEq, Eq)]
pub struct Page<T, C> {
    pub items: Vec<T>,
    pub next: Option<C>,
}

/// Everything that pages show, one page after another.
pub open spec fn shown_by<T, C>(pages: Seq<Page<T, C>>) -> Seq<T>
    decreases pages.len(),
{
    if pages.len() == 0 {
        Seq::empty()
    } else {
        shown_by(pages.drop_last()) + pages.last().items@
    }
}

/// The first pages show what those before the last of them show, and then that one.
pub proof fn one_more_page_is_shown<T, C>(pages: Seq<Page<T, C>>, count: int)
    requires
        0 < count <= pages.len(),
    ensures
        shown_by(pages.take(count)) == shown_by(pages.take(count - 1)) + pages[count - 1].items@,
        shown_by(pages.take(0)) == Seq::<T>::empty(),
        shown_by(pages.take(pages.len() as int)) == shown_by(pages),
{
    assert(pages.take(count).drop_last() =~= pages.take(count - 1));
    assert(pages.take(pages.len() as int) =~= pages);
}

/// A request for at most `limit` items behind a continuation.
#[derive(Debug, PartialEq, Eq)]
pub struct PageRequest<C> {
    pub limit: usize,
    pub after: Option<C>,
}

/// Work an operation is charged for.
#[derive(Debug, Clone, Copy, PartialEq, Eq, Structural)]
pub enum BudgetDimension {
    Depth,
    Entries,
    HistoryCommits,
    DiffInputBytes,
    DiffOutputBytes,
    BlameLines,
    BlameComparisons,
    ArchiveEntries,
    ArchiveBytes,
    ResponseBytes,
}

/// An amount of work in one dimension.
#[derive(Debug, Clone, Copy, PartialEq, Eq, Structural)]
pub struct Charge {
    pub dimension: BudgetDimension,
    pub amount: u64,
}

/// An annotated tag.
#[derive(Debug, PartialEq, Eq)]
pub struct AnnotatedTag {
    pub oid: ObjectId,
    pub target: ObjectId,
    pub target_kind: ObjectKind,
    pub name: Vec<u8>,
    pub tagger: Option<Signature>,
    pub message: Vec<u8>,
    pub signature: Option<Vec<u8>>,
}

/// The tuple that an object locator covers.
#[derive(Debug, Clone, Copy, PartialEq, Eq, Structural)]
pub struct GitLocatorCoverage {
    pub generation: u64,
    pub pack_index_hash: MerkleHash,
}

} // verus!
