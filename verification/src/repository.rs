use vstd::prelude::*;
use vstd::string::*;

use crate::cancel::{Cancellation, check_cancelled};
use crate::commit_graph::CommitGraphIndex;
use crate::error::{Error, RepositoryStateError, RevisionError};
use crate::identity::{append_decimal, RepositoryIdentity};
use crate::inventory::{parse_inventory, GitPackInventoryEntry, PackInventory, PackManifestEntry};
use crate::limits::RepositoryOptions;
use crate::model::{AnnotatedTag, Commit, GitLocatorCoverage};
use crate::oid::{MerkleHash, ObjectId};
use crate::open::{check_snapshot_entries, same_etag, OpenHandshake, OpenStep};
use crate::peel::check_peeled;
use crate::refs::{select_reference, ManifestRefs, RepositoryRefs};
use crate::snapshot::RemoteGitSnapshot;
use crate::visibility::{
    catalog_coverage, check_listed_refs, check_proof_format, expected_tips, proof_coverage,
    settled_visibility,
};

verus! {

/// One bounded operation, which belongs to one opened repository generation.
#[derive(Debug, Clone, Copy, PartialEq, Eq, Structural)]
pub struct OperationContext {
    pub repository: u64,
}

impl OperationContext {
    /// Whether the operation was started on an opened generation.
    pub fn belongs_to(&self, repository: u64) -> (result: bool)
        ensures
            result == (self.repository == repository),
    {
        self.repository == repository
    }
}

/// The error that reports an operation used with a generation it was not started
/// on.
pub open spec fn foreign_operation() -> Error {
    Error::InternalInvariant { invariant: "operation belongs to another repository generation" }
}

/// An operation on a generation that it was not started on is reported as a fault of the
/// caller.
pub proof fn how_a_foreign_operation_is_reported()
    ensures
        foreign_operation() == (Error::InternalInvariant {
            invariant: "operation belongs to another repository generation",
        }),
{
}

/// Accept an operation only on the generation it was started on.
pub fn ensure_operation(operation: &OperationContext, repository: u64) -> (result: Result<
    (),
    Error,
>)
    ensures
        result == (if operation.repository == repository {
            Ok::<(), Error>(())
        } else {
            Err(foreign_operation())
        }),
{
    if operation.belongs_to(repository) {
        Ok(())
    } else {
        Err(
            Error::InternalInvariant {
                invariant: "operation belongs to another repository generation",
            },
        )
    }
}

/// A commit by a reference's name or by its identity.
#[derive(Debug, PartialEq, Eq)]
pub enum Revision {
    Reference(String),
    Commit(ObjectId),
}

/// Where a revision begins to be resolved.
#[derive(Debug, PartialEq, Eq)]
pub struct RevisionStart {
    pub reference: Option<String>,
    pub start: ObjectId,
    pub expected: Option<ObjectId>,
}

/// A revision and the commit that it means.
#[derive(Debug, PartialEq, Eq)]
pub struct ResolvedRevision {
    pub requested: Revision,
    pub reference: Option<String>,
    pub commit: ObjectId,
    pub tags: Vec<AnnotatedTag>,
}

/// How a revision is resolved.
#[derive(Debug, PartialEq, Eq)]
pub enum ResolveStep {
    /// Peel the reference's target.
    Peel { start: RevisionStart },
    /// Prove that the commit can be reached from the pinned references.
    Prove { commit: ObjectId },
}

/// Begin with a commit identity, which has to be reachable.
pub fn commit_start(commit: ObjectId, reachable: bool) -> (result: Result<RevisionStart, Error>)
    ensures
        match result {
            Ok(start) => reachable && start.reference is None && start.start == commit
                && start.expected == Some(commit),
            Err(error) => !reachable && error == (Error::Revision {
                reason: RevisionError::NotReachable,
            }),
        },
{
    if !reachable {
        return Err(Error::Revision { reason: RevisionError::NotReachable });
    }
    Ok(RevisionStart { reference: None, start: commit, expected: Some(commit) })
}

/// Finish a revision whose start has been peeled to a commit. A peeled object
/// that was recorded for it has to be that commit.
pub fn resolved(
    requested: Revision,
    start: RevisionStart,
    commit: ObjectId,
    tags: Vec<AnnotatedTag>,
) -> (result: Result<ResolvedRevision, Error>)
    ensures
        match result {
            Ok(revision) => {
                &&& start.expected is None || start.expected == Some(commit)
                &&& revision.requested == requested
                &&& revision.reference == start.reference
                &&& revision.commit == commit
                &&& revision.tags == tags
            },
            Err(error) => start.expected is Some && start.expected != Some(commit) && error
                == (Error::Corrupt { stage: crate::error::CorruptionStage::Tag }),
        },
{
    check_peeled(start.expected, commit)?;
    Ok(ResolvedRevision { requested, reference: start.reference, commit, tags })
}

/// Everything that one opened generation is pinned to.
pub struct RepositoryState {
    key: u64,
    identity: RepositoryIdentity,
    options: RepositoryOptions,
    generation: u64,
    git_validation_digest: String,
    manifest_etag: String,
    coverage: Option<GitLocatorCoverage>,
    inventory: PackInventory,
    refs: RepositoryRefs,
    commit_graph: Option<CommitGraphIndex>,
}

/// A generation-pinned, filesystem-free view of one Git repository.
///
/// `P` coordinates the producers of generated packs.
pub struct RemoteGitRepository<P> {
    state: RepositoryState,
    generated_pack_lease_provider: Option<P>,
}

pub open spec fn optional_graph_wf(graph: Option<CommitGraphIndex>) -> bool {
    match graph {
        Some(graph) => graph.wf(),
        None => true,
    }
}

impl<P> RemoteGitRepository<P> {
    /// The opened state that operations and snapshots belong to.
    pub closed spec fn key(self) -> u64 {
        self.state.key
    }

    pub closed spec fn spec_identity(self) -> RepositoryIdentity {
        self.state.identity
    }

    pub closed spec fn spec_options(self) -> RepositoryOptions {
        self.state.options
    }

    pub closed spec fn spec_generation(self) -> u64 {
        self.state.generation
    }

    pub closed spec fn spec_digest(self) -> Seq<char> {
        self.state.git_validation_digest@
    }

    pub closed spec fn spec_etag(self) -> Seq<char> {
        self.state.manifest_etag@
    }

    pub closed spec fn spec_coverage(self) -> Option<GitLocatorCoverage> {
        self.state.coverage
    }

    pub closed spec fn spec_inventory(self) -> PackInventory {
        self.state.inventory
    }

    pub closed spec fn spec_refs(self) -> RepositoryRefs {
        self.state.refs
    }

    pub closed spec fn spec_graph(self) -> Option<CommitGraphIndex> {
        self.state.commit_graph
    }

    pub closed spec fn spec_provider(self) -> Option<P> {
        self.generated_pack_lease_provider
    }

    pub closed spec fn wf(self) -> bool {
        self.state.inventory.wf() && optional_graph_wf(self.state.commit_graph)
    }

    /// Whether the repository is the generation that a handshake accepted, with the
    /// packs and the graph that were found for it.
    pub open spec fn holds(
        self,
        opened: OpenStep,
        inventory: PackInventory,
        commit_graph: Option<CommitGraphIndex>,
    ) -> bool {
        match opened {
            OpenStep::Empty { refs, generation } => {
                &&& self.spec_refs() == refs
                &&& self.spec_generation() == generation
                &&& self.spec_coverage() is None
                &&& self.spec_inventory()@ == Map::<MerkleHash, GitPackInventoryEntry>::empty()
                &&& self.spec_graph() is None
            },
            OpenStep::Locate { refs, coverage } => {
                &&& self.spec_refs() == refs
                &&& self.spec_generation() == coverage.generation
                &&& self.spec_coverage() == Some(coverage)
                &&& self.spec_inventory() == inventory
                &&& self.spec_graph() == commit_graph
            },
        }
    }

    /// An opened repository is the generation that its handshake accepted: it has the
    /// references of that generation, and of an empty one neither packs nor coverage nor
    /// a graph; of any other it has the coverage that was accepted, and the packs and the
    /// graph that were found for it.
    pub proof fn what_an_opened_repository_holds(
        self,
        opened: OpenStep,
        inventory: PackInventory,
        commit_graph: Option<CommitGraphIndex>,
    )
        requires
            self.holds(opened, inventory, commit_graph),
        ensures
            opened matches OpenStep::Empty { refs, generation } ==> {
                &&& self.spec_refs() == refs
                &&& self.spec_generation() == generation
                &&& self.spec_coverage() is None
                &&& self.spec_inventory()@.dom() == Set::<MerkleHash>::empty()
                &&& self.spec_graph() is None
            },
            opened matches OpenStep::Locate { refs, coverage } ==> {
                &&& self.spec_refs() == refs
                &&& self.spec_generation() == coverage.generation
                &&& self.spec_coverage() == Some(coverage)
                &&& self.spec_inventory() == inventory
                &&& self.spec_graph() == commit_graph
            },
    {
    }

    /// A graph that could not be used changes nothing else of what was opened: the
    /// generation, the references, the coverage and the packs are the same, and only
    /// the graph's own answer is missing.
    pub proof fn a_lost_graph_loses_nothing_else(
        self,
        other: RemoteGitRepository<P>,
        opened: OpenStep,
        inventory: PackInventory,
        commit_graph: Option<CommitGraphIndex>,
    )
        requires
            self.holds(opened, inventory, commit_graph),
            other.holds(opened, inventory, None),
        ensures
            self.spec_generation() == other.spec_generation(),
            self.spec_refs() == other.spec_refs(),
            self.spec_coverage() == other.spec_coverage(),
            self.spec_inventory()@ == other.spec_inventory()@,
            other.spec_graph() is None,
    {
    }

    /// Open one consistent generation from its handshake: a repository without
    /// references, or one whose locator was found to cover exactly what the
    /// manifest pins. A repository without references has no packs to read, no
    /// coverage and no graph, whatever else was found.
    pub fn open(
        key: u64,
        identity: RepositoryIdentity,
        options: RepositoryOptions,
        git_validation_digest: String,
        manifest_etag: String,
        handshake: &OpenHandshake,
        opened: OpenStep,
        inventory: PackInventory,
        commit_graph: Option<CommitGraphIndex>,
    ) -> (result: Result<RemoteGitRepository<P>, Error>)
        requires
            inventory.wf(),
            optional_graph_wf(commit_graph),
        ensures
            result is Ok <==> match opened {
                OpenStep::Empty { .. } => true,
                OpenStep::Locate { coverage, .. } => handshake.confirmed() == Some(coverage),
            },
            match result {
                Ok(repository) => {
                    &&& repository.wf()
                    &&& repository.key() == key
                    &&& repository.spec_identity() == identity
                    &&& repository.spec_options() == options
                    &&& repository.spec_digest() == git_validation_digest@
                    &&& repository.spec_etag() == manifest_etag@
                    &&& repository.spec_provider() is None
                    &&& repository.holds(opened, inventory, commit_graph)
                },
                Err(error) => error == (Error::RepositoryState {
                    reason: RepositoryStateError::InconsistentGeneration,
                }),
            },
    {
        let state = match opened {
            OpenStep::Empty { refs, generation } => RepositoryState {
                key,
                identity,
                options,
                generation,
                git_validation_digest,
                manifest_etag,
                coverage: None,
                inventory: PackInventory::new(),
                refs,
                commit_graph: None,
            },
            OpenStep::Locate { refs, coverage } => {
                if !handshake.is_confirmed(coverage) {
                    return Err(
                        Error::RepositoryState {
                            reason: RepositoryStateError::InconsistentGeneration,
                        },
                    );
                }
                RepositoryState {
                    key,
                    identity,
                    options,
                    generation: coverage.generation,
                    git_validation_digest,
                    manifest_etag,
                    coverage: Some(coverage),
                    inventory,
                    refs,
                    commit_graph,
                }
            },
        };
        Ok(RemoteGitRepository { state, generated_pack_lease_provider: None })
    }

    /// Return the immutable manifest generation pinned by this handle.
    pub fn generation(&self) -> (result: u64)
        ensures
            result == self.spec_generation(),
    {
        self.state.generation
    }

    /// Return the Git-state digest of the pinned manifest.
    pub fn git_validation_digest(&self) -> (result: &str)
        ensures
            result@ == self.spec_digest(),
    {
        self.state.git_validation_digest.as_str()
    }

    /// Return complete references from the pinned manifest.
    pub fn refs(&self) -> (result: &RepositoryRefs)
        ensures
            *result == self.spec_refs(),
    {
        &self.state.refs
    }

    /// Compare the pinned immutable packs with a captured metadata inventory.
    pub fn matches_pack_inventory(&self, packs: &[PackManifestEntry]) -> (result: Result<
        bool,
        Error,
    >)
        requires
            self.wf(),
        ensures
            match result {
                Ok(same) => {
                    &&& crate::inventory::pack_fault(packs@) is None
                    &&& crate::inventory::room_for_packs(packs@)
                    &&& same == (self.spec_inventory()@ == crate::inventory::pack_map(packs@))
                },
                Err(error) => crate::inventory::packs_refused(packs@, error),
            },
    {
        let other = parse_inventory(packs)?;
        Ok(self.state.inventory.same_packs(&other))
    }

    /// Return the redaction-safe physical identity used by runtime caches.
    pub fn identity(&self) -> (result: &RepositoryIdentity)
        ensures
            *result == self.spec_identity(),
    {
        &self.state.identity
    }

    /// Install coordination for generated response-pack misses.
    pub fn with_generated_pack_lease_provider(self, provider: P) -> (result: RemoteGitRepository<P>)
        ensures
            result.wf() == self.wf(),
            result.key() == self.key(),
            result.spec_identity() == self.spec_identity(),
            result.spec_options() == self.spec_options(),
            result.spec_generation() == self.spec_generation(),
            result.spec_digest() == self.spec_digest(),
            result.spec_etag() == self.spec_etag(),
            result.spec_coverage() == self.spec_coverage(),
            result.spec_inventory() == self.spec_inventory(),
            result.spec_refs() == self.spec_refs(),
            result.spec_graph() == self.spec_graph(),
            result.spec_provider() == Some(provider),
    {
        RemoteGitRepository { state: self.state, generated_pack_lease_provider: Some(provider) }
    }

    /// The installed coordination, if any.
    pub fn generated_pack_lease_provider(&self) -> (result: Option<&P>)
        ensures
            match result {
                Some(provider) => self.spec_provider() == Some(*provider),
                None => self.spec_provider() is None,
            },
    {
        match &self.generated_pack_lease_provider {
            Some(provider) => Some(provider),
            None => None,
        }
    }

    /// Return the number of immutable packs in the pinned inventory.
    pub fn pack_count(&self) -> (result: usize)
        requires
            self.wf(),
        ensures
            result == self.spec_inventory()@.dom().len(),
    {
        self.state.inventory.len()
    }

    /// The only pack of a repository that has exactly one.
    pub fn single_pack_inventory(&self) -> (result: Option<GitPackInventoryEntry>)
        requires
            self.wf(),
        ensures
            match result {
                Some(entry) => self.spec_inventory()@ == Map::<
                    MerkleHash,
                    GitPackInventoryEntry,
                >::empty().insert(entry.pack_id, entry),
                None => self.spec_inventory()@.dom().len() != 1,
            },
    {
        self.state.inventory.only_pack()
    }

    /// The options the repository was opened with.
    pub fn options(&self) -> (result: RepositoryOptions)
        ensures
            result == self.spec_options(),
    {
        self.state.options
    }

    /// What the locator covers; a repository without references has no coverage.
    pub fn coverage(&self) -> (result: Option<GitLocatorCoverage>)
        ensures
            result == self.spec_coverage(),
    {
        self.state.coverage
    }

    /// Whether the tag of the stored manifest is still the pinned one. The handle
    /// may be reused exactly then.
    pub fn is_current(&self, stored: Option<&str>) -> (result: bool)
        ensures
            result == (match stored {
                Some(tag) => tag@ == self.spec_etag(),
                None => self.spec_etag().len() == 0,
            }),
    {
        same_etag(stored, self.state.manifest_etag.as_str())
    }

    /// Start one operation on this generation.
    pub fn operation(&self) -> (result: OperationContext)
        ensures
            result.repository == self.key(),
    {
        OperationContext { repository: self.state.key }
    }

    /// Prove which candidate commits are reachable from any root through the
    /// parents that the pinned graph records; nothing without a graph.
    pub fn commits_reachable_from<W: Cancellation>(
        &self,
        candidates: &[ObjectId],
        roots: &[ObjectId],
        cancellation: &W,
    ) -> (result: Result<Option<Vec<bool>>, Error>)
        requires
            self.wf(),
        ensures
            match result {
                Ok(None) => self.spec_graph() is None,
                Ok(Some(reached)) => {
                    &&& self.spec_graph() is Some
                    &&& reached@.len() == candidates@.len()
                    &&& forall|i: int|
                        0 <= i < candidates@.len() ==> #[trigger] reached@[i]
                            == crate::commit_graph::recorded_reachable(
                            (self.spec_graph()->0)@,
                            roots@,
                            candidates@[i],
                        )
                },
                Err(error) => crate::cancel::stopped_by(cancellation, error),
            },
            result is Ok ==> crate::cancel::passed_by(cancellation),
    {
        check_cancelled(cancellation)?;
        match &self.state.commit_graph {
            None => Ok(None),
            Some(graph) => Ok(Some(graph.reachable_from_roots(candidates, roots, cancellation)?)),
        }
    }

    /// Begin to resolve a reference name in an operation on this generation.
    pub fn reference_start(
        &self,
        name: &str,
        well_formed: bool,
        operation: &OperationContext,
    ) -> (result: Result<RevisionStart, Error>)
        ensures
            match result {
                Ok(start) => {
                    &&& operation.repository == self.key()
                    &&& well_formed
                    &&& crate::refs::selection(self.spec_refs(), name@)
                        matches crate::refs::Selection::Found(at) && {
                        let reference = self.spec_refs().entries@[at];
                        &&& start.reference is Some
                        &&& (start.reference->0)@ == reference.name@
                        &&& start.start == reference.target
                        &&& start.expected == reference.peeled
                    }
                },
                Err(error) => if operation.repository != self.key() {
                    error == foreign_operation()
                } else if !well_formed {
                    error == (Error::Revision { reason: RevisionError::InvalidReference })
                } else {
                    match crate::refs::selection(self.spec_refs(), name@) {
                        crate::refs::Selection::Found(_) => false,
                        crate::refs::Selection::Ambiguous => error == (Error::Revision {
                            reason: RevisionError::AmbiguousReference,
                        }),
                        crate::refs::Selection::Missing => error == crate::refs::missing_error(
                            name@,
                        ),
                    }
                },
            },
    {
        ensure_operation(operation, self.state.key)?;
        let reference = select_reference(&self.state.refs, name, well_formed)?;
        Ok(
            RevisionStart {
                reference: Some(reference.name.clone()),
                start: reference.target,
                expected: reference.peeled,
            },
        )
    }

    /// Begin to resolve a reference or a full commit identity against the pinned
    /// references. Whether a reference's name is well formed is decided where names
    /// are validated.
    pub fn resolve(&self, revision: &Revision, well_formed: bool, operation: &OperationContext) -> (result:
        Result<ResolveStep, Error>)
        ensures
            if operation.repository != self.key() {
                result == Err::<ResolveStep, Error>(foreign_operation())
            } else {
                match revision {
                    Revision::Commit(commit) => result == Ok::<ResolveStep, Error>(
                        ResolveStep::Prove { commit: *commit },
                    ),
                    Revision::Reference(name) => match result {
                        Ok(ResolveStep::Peel { start }) => {
                            &&& well_formed
                            &&& crate::refs::selection(self.spec_refs(), name@)
                                matches crate::refs::Selection::Found(at) && {
                                let reference = self.spec_refs().entries@[at];
                                &&& start.reference is Some
                                &&& (start.reference->0)@ == reference.name@
                                &&& start.start == reference.target
                                &&& start.expected == reference.peeled
                            }
                        },
                        Ok(_) => false,
                        Err(error) => if !well_formed {
                            error == (Error::Revision { reason: RevisionError::InvalidReference })
                        } else {
                            match crate::refs::selection(self.spec_refs(), name@) {
                                crate::refs::Selection::Found(_) => false,
                                crate::refs::Selection::Ambiguous => error == (Error::Revision {
                                    reason: RevisionError::AmbiguousReference,
                                }),
                                crate::refs::Selection::Missing => error
                                    == crate::refs::missing_error(name@),
                            }
                        },
                    },
                }
            },
    {
        match revision {
            Revision::Reference(name) => {
                let start = self.reference_start(name.as_str(), well_formed, operation)?;
                Ok(ResolveStep::Peel { start })
            },
            Revision::Commit(commit) => {
                ensure_operation(operation, self.state.key)?;
                Ok(ResolveStep::Prove { commit: *commit })
            },
        }
    }

    /// Whether visibility can be told without reading a proof.
    pub fn catalog_visibility_available(&self) -> (result: Option<bool>)
        ensures
            result == (match self.spec_coverage() {
                Some(_) => None,
                None => Some(self.spec_refs().entries@.len() == 0),
            }),
    {
        settled_visibility(self.state.coverage, &self.state.refs)
    }

    /// The coverage that a catalog-bound proof has to be read for.
    pub fn catalog_visibility_index(&self) -> (result: Result<GitLocatorCoverage, Error>)
        ensures
            result == (match self.spec_coverage() {
                Some(coverage) => Ok::<GitLocatorCoverage, Error>(coverage),
                None => if self.spec_refs().entries@.len() == 0 {
                    Err(Error::EmptyRepository)
                } else {
                    Err(crate::visibility::proof_mismatch())
                },
            }),
    {
        catalog_coverage(self.state.coverage, &self.state.refs)
    }

    /// The coverage that a visibility proof has to be read for; nothing where the
    /// empty closure is already a complete proof.
    pub fn visibility_index(&self) -> (result: Result<Option<GitLocatorCoverage>, Error>)
        ensures
            result == (if self.spec_coverage() is None && self.spec_refs().entries@.len() > 0 {
                Err::<Option<GitLocatorCoverage>, Error>(Error::EmptyRepository)
            } else {
                Ok(self.spec_coverage())
            }),
    {
        proof_coverage(self.state.coverage, &self.state.refs)
    }

    /// The packs whose objects a proof is rebuilt from, without trusting an existing
    /// one; a repository without coverage has none.
    pub fn rebuild_visibility_index(&self) -> (result: Option<MerkleHash>)
        ensures
            result == (match self.spec_coverage() {
                Some(coverage) => Some(coverage.pack_index_hash),
                None => None,
            }),
    {
        match self.state.coverage {
            Some(coverage) => Some(coverage.pack_index_hash),
            None => None,
        }
    }

    /// Accept a proof that was read: it is bound to a catalog and lists exactly the
    /// pinned references. The result names, for each reference by its index, every
    /// object that the proof has to show under it.
    pub fn accept_proof(&self, bound_to_catalog: bool, listed: usize, contained: &[bool]) -> (result:
        Result<Vec<(usize, ObjectId)>, Error>)
        ensures
            match result {
                Ok(expected) => {
                    &&& crate::visibility::lists_exactly(
                        self.spec_refs(),
                        bound_to_catalog,
                        listed,
                        contained@,
                    )
                    &&& crate::visibility::tip_values(expected@) == crate::visibility::tips(
                        self.spec_refs().entries@,
                    )
                },
                Err(error) => {
                    &&& error == crate::visibility::proof_mismatch()
                    &&& !crate::visibility::lists_exactly(
                        self.spec_refs(),
                        bound_to_catalog,
                        listed,
                        contained@,
                    )
                },
            },
    {
        check_proof_format(bound_to_catalog)?;
        check_listed_refs(&self.state.refs, listed, contained)?;
        Ok(expected_tips(&self.state.refs))
    }

    /// Begin to create a snapshot: without locator coverage there is nothing to resolve.
    pub fn snapshot_start(&self, operation: &OperationContext) -> (result: Result<(), Error>)
        ensures
            result == (if operation.repository != self.key() {
                Err::<(), Error>(foreign_operation())
            } else if self.spec_coverage() is None {
                Err(Error::EmptyRepository)
            } else {
                Ok(())
            }),
    {
        ensure_operation(operation, self.state.key)?;
        match self.state.coverage {
            Some(_) => Ok(()),
            None => Err(Error::EmptyRepository),
        }
    }

    /// Create an immutable snapshot of a resolved commit. The graph serves the
    /// snapshot only while it records exactly the commit's parents.
    pub fn snapshot(&self, commit: &Commit) -> (result: Result<RemoteGitSnapshot<'_>, Error>)
        requires
            self.wf(),
        ensures
            match result {
                Ok(snapshot) => {
                    &&& self.spec_coverage() is Some
                    &&& snapshot.wf()
                    &&& snapshot.key() == self.key()
                    &&& snapshot.spec_generation() == self.spec_generation()
                    &&& snapshot.spec_packs() == (self.spec_coverage()->0).pack_index_hash
                    &&& snapshot.spec_commit() == commit.oid
                    &&& snapshot.spec_tree() == commit.tree
                    &&& snapshot.spec_graph() == (match self.spec_graph() {
                        Some(graph) => if crate::commit_graph::parents_agree(
                            graph@,
                            commit.oid,
                            commit.parents@,
                        ) {
                            Some(graph@)
                        } else {
                            None
                        },
                        None => None,
                    })
                },
                Err(error) => self.spec_coverage() is None && error == Error::EmptyRepository,
            },
    {
        let coverage = match self.state.coverage {
            Some(coverage) => coverage,
            None => return Err(Error::EmptyRepository),
        };
        let commit_graph = match &self.state.commit_graph {
            Some(graph) => if graph.parents_match(commit.oid, commit.parents.as_slice()) {
                Some(graph)
            } else {
                None
            },
            None => None,
        };
        Ok(
            RemoteGitSnapshot::new(
                self.state.key,
                self.state.generation,
                coverage.pack_index_hash,
                commit.oid,
                commit.tree,
                commit_graph,
            ),
        )
    }

    /// Describe the handle without its namespaces.
    pub fn redacted(&self) -> (result: String)
        requires
            self.wf(),
        ensures
            result@ == "RemoteGitRepository { identity: "@ + self.spec_identity().description()
                + ", generation: "@ + crate::identity::decimal(self.spec_generation() as nat)
                + ", pack_count: "@ + crate::identity::decimal(
                self.spec_inventory()@.dom().len(),
            ) + " }"@,
    {
        let mut result = String::new();
        result.append("RemoteGitRepository { identity: ");
        result.append(self.state.identity.redacted().as_str());
        result.append(", generation: ");
        append_decimal(&mut result, self.state.generation);
        result.append(", pack_count: ");
        append_decimal(&mut result, self.state.inventory.len() as u64);
        result.append(" }");
        assert(result@ =~= "RemoteGitRepository { identity: "@ + self.spec_identity().description()
            + ", generation: "@ + crate::identity::decimal(self.spec_generation() as nat)
            + ", pack_count: "@ + crate::identity::decimal(self.spec_inventory()@.dom().len())
            + " }"@);
        result
    }
}

impl OperationContext {
    /// Pin an operation to a captured snapshot: its references and packs, without
    /// a locator or a commit graph. A journal can change packs without a new
    /// generation, so the identity is bound to the snapshot's digest.
    pub fn from_snapshot<P>(
        key: u64,
        options: RepositoryOptions,
        identity: RepositoryIdentity,
        snapshot_digest: String,
        generation: u64,
        git_validation_digest: String,
        manifest_etag: String,
        manifest: &ManifestRefs,
        journal_refs: usize,
        packs: &[PackManifestEntry],
    ) -> (result: Result<(OperationContext, RemoteGitRepository<P>), Error>)
        ensures
            match result {
                Ok((operation, repository)) => {
                    &&& snapshot_size(packs@.len(), journal_refs as nat)
                        <= options.operation().max_entries
                    &&& crate::refs::manifest_fault(*manifest) is None
                    &&& crate::inventory::pack_fault(packs@) is None
                    &&& crate::refs::room_for_refs(*manifest)
                    &&& crate::inventory::room_for_packs(packs@)
                    &&& operation.repository == key
                    &&& repository.wf()
                    &&& repository.key() == key
                    &&& repository.spec_options() == options
                    &&& repository.spec_generation() == generation
                    &&& repository.spec_digest() == git_validation_digest@
                    &&& repository.spec_etag() == manifest_etag@
                    &&& repository.spec_coverage() is None
                    &&& repository.spec_graph() is None
                    &&& repository.spec_provider() is None
                    &&& crate::refs::are_recorded(repository.spec_refs(), *manifest)
                    &&& repository.spec_inventory()@ == crate::inventory::pack_map(packs@)
                    &&& repository.spec_identity().provider() == identity.provider()
                    &&& repository.spec_identity().repository() == identity.repository()
                    &&& repository.spec_identity().placement() == identity.placement()
                    &&& repository.spec_identity().digest() == Some(snapshot_digest@)
                },
                Err(error) => if snapshot_size(packs@.len(), journal_refs as nat)
                    > options.operation().max_entries {
                    error == (Error::LimitExceeded {
                        limit: "snapshot entries",
                        actual: snapshot_size(packs@.len(), journal_refs as nat),
                        maximum: options.operation().max_entries,
                    })
                } else {
                    ||| crate::refs::refs_refused(*manifest, error)
                    ||| crate::refs::manifest_fault(*manifest) is None
                        && crate::refs::room_for_refs(*manifest)
                        && crate::inventory::packs_refused(packs@, error)
                },
            },
    {
        check_snapshot_entries(
            packs.len(),
            journal_refs,
            options.operation_limits().max_entries,
        )?;
        let refs = RepositoryRefs::try_from(manifest)?;
        let inventory = parse_inventory(packs)?;
        let state = RepositoryState {
            key,
            identity: identity.pinned_to(snapshot_digest),
            options,
            generation,
            git_validation_digest,
            manifest_etag,
            coverage: None,
            inventory,
            refs,
            commit_graph: None,
        };
        Ok(
            (
                OperationContext { repository: key },
                RemoteGitRepository { state, generated_pack_lease_provider: None },
            ),
        )
    }
}

/// How many packs and references a snapshot lists, as far as they can be counted.
pub open spec fn snapshot_size(packs: nat, refs: nat) -> u64 {
    crate::memory::clamp_usize((packs + refs) as int) as u64
}

/// A snapshot lists as many entries as it has packs and references together.
pub proof fn what_a_snapshot_counts(packs: nat, refs: nat)
    requires
        packs + refs <= usize::MAX,
    ensures
        snapshot_size(packs, refs) == packs + refs,
{
}

} // verus!
