use vstd::prelude::*;

use crate::commit_graph::CommitGraphIndex;
use crate::error::{Error, RepositoryStateError};
use crate::inventory::parse_merkle_hash;
use crate::model::GitLocatorCoverage;
use crate::oid::MerkleHash;
use crate::refs::{ManifestRefs, RepositoryRefs};

verus! {

/// How often the whole handshake is tried.
pub const OPEN_ATTEMPTS: u8 = 2;

/// What a manifest says about the repository that it pins.
pub struct ManifestFacts {
    pub generation: u64,
    /// The identity of the pack index, if there is one that could be read.
    pub pack_index_hash: Option<MerkleHash>,
    pub refs: ManifestRefs,
}

/// How the locator that was observed relates to the manifest.
#[derive(Debug, Clone, Copy, PartialEq, Eq, Structural)]
pub enum LocatorDecision {
    /// The locator covers exactly the pinned generation and packs.
    Open,
    /// The locator is absent or older; it lags so many generations behind.
    Indexing { observed: Option<u64>, required: u64, lag: u64 },
    /// The whole handshake is to be tried once more.
    Retry,
    /// The metadata stays inconsistent.
    Inconsistent,
}

/// The decision on an observed locator in one of the attempts.
pub open spec fn locator_decision(
    attempt: int,
    pinned: GitLocatorCoverage,
    observed: Option<GitLocatorCoverage>,
) -> LocatorDecision {
    if observed == Some(pinned) {
        LocatorDecision::Open
    } else {
        match observed {
            None => LocatorDecision::Indexing {
                observed: None,
                required: pinned.generation,
                lag: pinned.generation,
            },
            Some(coverage) => if coverage.generation < pinned.generation {
                LocatorDecision::Indexing {
                    observed: Some(coverage.generation),
                    required: pinned.generation,
                    lag: (pinned.generation - coverage.generation) as u64,
                }
            } else if attempt + 1 < OPEN_ATTEMPTS {
                LocatorDecision::Retry
            } else {
                LocatorDecision::Inconsistent
            },
        }
    }
}

/// What an accepted manifest leads to.
pub enum OpenStep {
    /// The repository has no references and needs no locator.
    Empty { refs: RepositoryRefs, generation: u64 },
    /// The locator has to cover this.
    Locate { refs: RepositoryRefs, coverage: GitLocatorCoverage },
}

/// The handshake between a manifest, its packs and the object locator.
pub struct OpenHandshake {
    attempt: u8,
    pinned: Option<GitLocatorCoverage>,
    confirmed: bool,
}

impl OpenHandshake {
    /// The attempt that is being made, from zero.
    pub closed spec fn attempt(self) -> int {
        self.attempt as int
    }

    /// What the locator has to cover in this attempt.
    pub closed spec fn pinned(self) -> Option<GitLocatorCoverage> {
        self.pinned
    }

    /// What the locator was found to cover exactly, if it was.
    pub closed spec fn confirmed(self) -> Option<GitLocatorCoverage> {
        if self.confirmed {
            self.pinned
        } else {
            None
        }
    }

    pub closed spec fn wf(self) -> bool {
        self.attempt < OPEN_ATTEMPTS
    }

    /// Begin the first attempt.
    pub fn new() -> (result: OpenHandshake)
        ensures
            result.wf(),
            result.attempt() == 0,
            result.pinned() is None,
            result.confirmed() is None,
    {
        OpenHandshake { attempt: 0, pinned: None, confirmed: false }
    }

    /// Whether the locator was found to cover exactly this.
    pub fn is_confirmed(&self, coverage: GitLocatorCoverage) -> (result: bool)
        ensures
            result == (self.confirmed() == Some(coverage)),
    {
        self.confirmed && self.pinned == Some(coverage)
    }

    /// Accept the manifest of an attempt, with the number of journal transactions
    /// that it does not contain yet. Transactions that are still to be indexed
    /// refuse the open before anything else is read from the manifest.
    pub fn accept_manifest(&mut self, manifest: &ManifestFacts, transactions: usize) -> (result: Result<
        OpenStep,
        Error,
    >)
        requires
            old(self).wf(),
        ensures
            final(self).wf(),
            final(self).attempt() == old(self).attempt(),
            final(self).confirmed() is None,
            transactions == 0 && manifest.refs.refs@.len() == 0 && crate::refs::manifest_fault(
                manifest.refs,
            ) is None ==> result is Ok,
            match result {
                Ok(OpenStep::Empty { refs, generation }) => {
                    &&& transactions == 0
                    &&& generation == manifest.generation
                    &&& manifest.refs.refs@.len() == 0
                    &&& crate::refs::manifest_fault(manifest.refs) is None
                    &&& crate::refs::are_recorded(refs, manifest.refs)
                },
                Ok(OpenStep::Locate { refs, coverage }) => {
                    &&& transactions == 0
                    &&& manifest.refs.refs@.len() > 0
                    &&& crate::refs::manifest_fault(manifest.refs) is None
                    &&& crate::refs::are_recorded(refs, manifest.refs)
                    &&& manifest.pack_index_hash == Some(coverage.pack_index_hash)
                    &&& coverage.generation == manifest.generation
                    &&& final(self).pinned() == Some(coverage)
                },
                Err(error) => if transactions > 0 {
                    error == (Error::RepositoryIndexing {
                        observed: Some(manifest.generation),
                        required: crate::memory::clamp_u64(manifest.generation + 1),
                    })
                } else {
                    ||| crate::refs::refs_refused(manifest.refs, error)
                    ||| {
                        &&& crate::refs::manifest_fault(manifest.refs) is None
                        &&& crate::refs::room_for_refs(manifest.refs)
                        &&& manifest.refs.refs@.len() > 0
                        &&& manifest.pack_index_hash is None
                        &&& error == crate::refs::state_error(
                            RepositoryStateError::InvalidContentIdentity,
                        )
                    }
                },
            },
    {
        self.confirmed = false;
        if transactions > 0 {
            return Err(
                Error::RepositoryIndexing {
                    observed: Some(manifest.generation),
                    required: manifest.generation.saturating_add(1),
                },
            );
        }
        let refs = RepositoryRefs::try_from(&manifest.refs)?;
        if refs.is_empty() {
            return Ok(OpenStep::Empty { refs, generation: manifest.generation });
        }
        let pack_index_hash = parse_merkle_hash(manifest.pack_index_hash)?;
        let coverage = GitLocatorCoverage { generation: manifest.generation, pack_index_hash };
        self.pinned = Some(coverage);
        Ok(OpenStep::Locate { refs, coverage })
    }

    /// Decide on the locator that was observed for the accepted manifest.
    pub fn accept_locator(&mut self, observed: Option<GitLocatorCoverage>) -> (result:
        LocatorDecision)
        requires
            old(self).wf(),
            old(self).pinned() is Some,
        ensures
            final(self).wf(),
            result == locator_decision(old(self).attempt(), old(self).pinned()->0, observed),
            final(self).attempt() == (if result == LocatorDecision::Retry {
                old(self).attempt() + 1
            } else {
                old(self).attempt()
            }),
            final(self).pinned() == (if result == LocatorDecision::Retry {
                None
            } else {
                old(self).pinned()
            }),
            final(self).confirmed() == (if result == LocatorDecision::Open {
                old(self).pinned()
            } else {
                None
            }),
    {
        self.confirmed = false;
        let pinned = match self.pinned {
            Some(pinned) => pinned,
            None => {
                assert(false);
                return LocatorDecision::Inconsistent;
            },
        };
        if observed == Some(pinned) {
            self.confirmed = true;
            return LocatorDecision::Open;
        }
        match observed {
            None => LocatorDecision::Indexing {
                observed: None,
                required: pinned.generation,
                lag: pinned.generation,
            },
            Some(coverage) => {
                if coverage.generation < pinned.generation {
                    return LocatorDecision::Indexing {
                        observed: Some(coverage.generation),
                        required: pinned.generation,
                        lag: pinned.generation - coverage.generation,
                    };
                }
                if self.attempt + 1 < OPEN_ATTEMPTS {
                    self.attempt = self.attempt + 1;
                    self.pinned = None;
                    LocatorDecision::Retry
                } else {
                    LocatorDecision::Inconsistent
                }
            },
        }
    }
}

/// The error that a decision against opening is reported as.
pub fn locator_error(decision: LocatorDecision) -> (result: Option<Error>)
    ensures
        result == (match decision {
            LocatorDecision::Indexing { observed, required, .. } => Some(
                Error::RepositoryIndexing { observed, required },
            ),
            LocatorDecision::Inconsistent => Some(
                Error::RepositoryState { reason: RepositoryStateError::InconsistentGeneration },
            ),
            _ => None,
        }),
{
    match decision {
        LocatorDecision::Indexing { observed, required, .. } => Some(
            Error::RepositoryIndexing { observed, required },
        ),
        LocatorDecision::Inconsistent => Some(
            Error::RepositoryState { reason: RepositoryStateError::InconsistentGeneration },
        ),
        _ => None,
    }
}

/// A handshake succeeds only on an exact match of the generation and the packs;
/// an absent or older locator is always reported as still indexing; anything else
/// is tried again exactly once.
pub proof fn handshake_opens_only_on_exact_coverage(
    attempt: int,
    pinned: GitLocatorCoverage,
    observed: Option<GitLocatorCoverage>,
)
    requires
        0 <= attempt < OPEN_ATTEMPTS,
    ensures
        locator_decision(attempt, pinned, observed) == LocatorDecision::Open <==> observed == Some(
            pinned,
        ),
        locator_decision(attempt, pinned, observed) is Indexing <==> observed is None || (
        observed->0).generation < pinned.generation,
        locator_decision(attempt, pinned, observed) == LocatorDecision::Retry ==> attempt == 0,
        locator_decision(0, pinned, observed) == LocatorDecision::Retry <==> locator_decision(
            1,
            pinned,
            observed,
        ) == LocatorDecision::Inconsistent,
{
}

/// A locator that is still being indexed is reported with what it covers, with what is
/// required, and with the generations between the two.
pub proof fn how_far_a_locator_lags(
    attempt: int,
    pinned: GitLocatorCoverage,
    observed: Option<GitLocatorCoverage>,
)
    ensures
        locator_decision(attempt, pinned, observed) matches LocatorDecision::Indexing {
            observed: covered,
            required,
            lag,
        } ==> {
            &&& required == pinned.generation
            &&& observed is None ==> covered is None && lag == required
            &&& observed matches Some(coverage) ==> covered == Some(coverage.generation)
                && coverage.generation < required && coverage.generation + lag == required
        },
        observed matches Some(coverage) ==> coverage.generation > pinned.generation
            ==> locator_decision(0, pinned, observed) == LocatorDecision::Retry,
        observed matches Some(coverage) ==> coverage.generation == pinned.generation
            && coverage.pack_index_hash != pinned.pack_index_hash ==> locator_decision(
            0,
            pinned,
            observed,
        ) == LocatorDecision::Retry,
{
}

/// Whether a tag of the stored manifest is the tag that was read before; a store
/// that gives none has the empty tag.
pub fn same_etag(stored: Option<&str>, pinned: &str) -> (result: bool)
    ensures
        result == (match stored {
            Some(tag) => tag@ == pinned@,
            None => pinned@.len() == 0,
        }),
{
    match stored {
        Some(tag) => {
            let left = tag.to_owned();
            let right = pinned.to_owned();
            left == right
        },
        None => pinned.is_empty(),
    }
}

/// A commit graph that cannot be loaded is done without, unless the load was
/// cancelled. The second part says whether a graph was lost.
pub fn optional_graph(loaded: Result<Option<CommitGraphIndex>, Error>) -> (result: Result<
    (Option<CommitGraphIndex>, bool),
    Error,
>)
    ensures
        result == (match loaded {
            Ok(graph) => Ok::<(Option<CommitGraphIndex>, bool), Error>((graph, false)),
            Err(error) => if error == Error::Cancelled {
                Err(Error::Cancelled)
            } else {
                Ok((None, true))
            },
        }),
{
    match loaded {
        Ok(graph) => Ok((graph, false)),
        Err(Error::Cancelled) => Err(Error::Cancelled),
        Err(_) => Ok((None, true)),
    }
}

/// A bound on shallow fetches that cannot be loaded is done without. The second part
/// says whether one was lost.
pub fn optional_closure<C, E>(loaded: Result<Option<C>, E>) -> (result: (Option<C>, bool))
    ensures
        result == (match loaded {
            Ok(closure) => (closure, false),
            Err(_) => (None::<C>, true),
        }),
{
    match loaded {
        Ok(closure) => (closure, false),
        Err(_) => (None, true),
    }
}

/// Refuse a snapshot that lists more packs and references than are allowed.
pub fn check_snapshot_entries(packs: usize, refs: usize, maximum: u64) -> (result: Result<(), Error>)
    ensures
        ({
            let entries = crate::memory::clamp_usize(packs + refs) as u64;
            result == (if entries > maximum {
                Err::<(), Error>(
                    Error::LimitExceeded { limit: "snapshot entries", actual: entries, maximum },
                )
            } else {
                Ok(())
            })
        }),
{
    let entries: u64 = packs.saturating_add(refs) as u64;
    if entries > maximum {
        return Err(Error::LimitExceeded { limit: "snapshot entries", actual: entries, maximum });
    }
    Ok(())
}

} // verus!
