use vstd::prelude::*;

use crate::error::{Error, RepositoryStateError};
use crate::model::GitLocatorCoverage;
use crate::oid::ObjectId;
use crate::refs::{RepositoryRef, RepositoryRefs};

verus! {

/// The error that reports a proof which does not fit the pinned references.
pub open spec fn proof_mismatch() -> Error {
    Error::RepositoryState { reason: RepositoryStateError::VisibilityProofMismatch }
}

/// A proof that does not fit is reported as a state of the repository.
pub proof fn how_an_unfit_proof_is_reported()
    ensures
        proof_mismatch() == (Error::RepositoryState {
            reason: RepositoryStateError::VisibilityProofMismatch,
        }),
{
}

/// Whether visibility can be told without reading a proof: a repository without
/// locator coverage is visible exactly when it has no references.
pub fn settled_visibility(coverage: Option<GitLocatorCoverage>, refs: &RepositoryRefs) -> (result:
    Option<bool>)
    ensures
        result == (match coverage {
            Some(_) => None,
            None => Some(refs.entries@.len() == 0),
        }),
{
    match coverage {
        Some(_) => None,
        None => Some(refs.is_empty()),
    }
}

/// The coverage that a catalog proof has to be bound to.
pub fn catalog_coverage(coverage: Option<GitLocatorCoverage>, refs: &RepositoryRefs) -> (result:
    Result<GitLocatorCoverage, Error>)
    ensures
        result == (match coverage {
            Some(coverage) => Ok::<GitLocatorCoverage, Error>(coverage),
            None => if refs.entries@.len() == 0 {
                Err(Error::EmptyRepository)
            } else {
                Err(proof_mismatch())
            },
        }),
{
    match coverage {
        Some(coverage) => Ok(coverage),
        None => if refs.is_empty() {
            Err(Error::EmptyRepository)
        } else {
            Err(Error::RepositoryState { reason: RepositoryStateError::VisibilityProofMismatch })
        },
    }
}

/// The coverage that a visibility proof is read for; a repository without
/// references needs none, for its empty closure is a complete proof.
pub fn proof_coverage(coverage: Option<GitLocatorCoverage>, refs: &RepositoryRefs) -> (result:
    Result<Option<GitLocatorCoverage>, Error>)
    ensures
        result == (if coverage is None && refs.entries@.len() > 0 {
            Err::<Option<GitLocatorCoverage>, Error>(Error::EmptyRepository)
        } else {
            Ok(coverage)
        }),
{
    match coverage {
        Some(_) => Ok(coverage),
        None => if refs.is_empty() {
            Ok(None)
        } else {
            Err(Error::EmptyRepository)
        },
    }
}

/// Accept only a proof in the format that is bound to a catalog.
pub fn check_proof_format(bound_to_catalog: bool) -> (result: Result<(), Error>)
    ensures
        result == (if bound_to_catalog {
            Ok::<(), Error>(())
        } else {
            Err(proof_mismatch())
        }),
{
    if bound_to_catalog {
        Ok(())
    } else {
        Err(Error::RepositoryState { reason: RepositoryStateError::VisibilityProofMismatch })
    }
}

/// Whether a proof is bound to a catalog and lists exactly some references.
pub open spec fn lists_exactly(
    refs: RepositoryRefs,
    bound_to_catalog: bool,
    listed: usize,
    contained: Seq<bool>,
) -> bool {
    &&& bound_to_catalog
    &&& listed == refs.entries@.len()
    &&& contained.len() == refs.entries@.len()
    &&& forall|i: int| 0 <= i < contained.len() ==> #[trigger] contained[i]
}

/// Whether a proof lists exactly the pinned references: as many as there are, and
/// each of them.
pub fn check_listed_refs(refs: &RepositoryRefs, listed: usize, contained: &[bool]) -> (result: Result<
    (),
    Error,
>)
    ensures
        result == (if listed == refs.entries@.len() && contained@.len() == refs.entries@.len() && (
        forall|i: int| 0 <= i < contained@.len() ==> #[trigger] contained@[i]) {
            Ok::<(), Error>(())
        } else {
            Err(proof_mismatch())
        }),
{
    if listed != refs.entries.len() || contained.len() != refs.entries.len() || !all_true(
        contained,
    ) {
        return Err(Error::RepositoryState { reason: RepositoryStateError::VisibilityProofMismatch });
    }
    Ok(())
}

fn all_true(values: &[bool]) -> (result: bool)
    ensures
        result == (forall|i: int| 0 <= i < values@.len() ==> #[trigger] values@[i]),
{
    let mut at: usize = 0;
    while at < values.len()
        invariant
            at <= values@.len(),
            forall|i: int| 0 <= i < at ==> #[trigger] values@[i],
        decreases values@.len() - at,
    {
        if !values[at] {
            return false;
        }
        at += 1;
    }
    true
}

/// The objects that a reference makes visible: its target and what that peels to.
pub open spec fn ref_tips(reference: RepositoryRef, at: int) -> Seq<(int, ObjectId)> {
    match reference.peeled {
        Some(peeled) => seq![(at, reference.target), (at, peeled)],
        None => seq![(at, reference.target)],
    }
}

/// The objects that references make visible, each with the reference's index.
pub open spec fn tips(entries: Seq<RepositoryRef>) -> Seq<(int, ObjectId)>
    decreases entries.len(),
{
    if entries.len() == 0 {
        Seq::empty()
    } else {
        tips(entries.drop_last()) + ref_tips(entries.last(), entries.len() - 1)
    }
}

proof fn lemma_tips(entries: Seq<RepositoryRef>)
    ensures
        forall|at: int, oid: ObjectId|
            #![trigger tips(entries).contains((at, oid))]
            tips(entries).contains((at, oid)) <==> 0 <= at < entries.len() && (entries[at].target
                == oid || entries[at].peeled == Some(oid)),
        forall|i: int, j: int|
            0 <= i < j < tips(entries).len() ==> (#[trigger] tips(entries)[i]).0 <= (
            #[trigger] tips(entries)[j]).0,
        forall|i: int|
            0 <= i < tips(entries).len() ==> 0 <= (#[trigger] tips(entries)[i]).0 < entries.len(),
    decreases entries.len(),
{
    if entries.len() > 0 {
        let rest = entries.drop_last();
        let last = entries.len() - 1;
        lemma_tips(rest);
        let before = tips(rest);
        let added = ref_tips(entries.last(), last);
        let all = tips(entries);
        assert forall|at: int, oid: ObjectId|
            #![trigger all.contains((at, oid))]
            all.contains((at, oid)) <==> 0 <= at < entries.len() && (entries[at].target == oid
                || entries[at].peeled == Some(oid)) by {
            if all.contains((at, oid)) {
                let i = choose|i: int| 0 <= i < all.len() && all[i] == (at, oid);
                if i < before.len() {
                    assert(before[i] == (at, oid));
                    assert(before.contains((at, oid)));
                    assert(rest[at] == entries[at]);
                } else {
                    assert(added[i - before.len()] == (at, oid));
                }
            }
            if 0 <= at < entries.len() && (entries[at].target == oid || entries[at].peeled == Some(
                oid,
            )) {
                if at < last {
                    assert(rest[at] == entries[at]);
                    assert(before.contains((at, oid)));
                    let i = choose|i: int| 0 <= i < before.len() && before[i] == (at, oid);
                    assert(all[i] == (at, oid));
                } else if entries[at].target == oid {
                    assert(added[0] == (at, oid));
                    assert(all[before.len() as int] == (at, oid));
                } else {
                    assert(added[1] == (at, oid));
                    assert(all[before.len() as int + 1] == (at, oid));
                }
            }
        }
        assert forall|i: int| 0 <= i < all.len() implies 0 <= (#[trigger] all[i]).0
            < entries.len() && (i < before.len() ==> all[i].0 < last) && (i >= before.len()
            ==> all[i].0 == last) by {
            if i < before.len() {
                assert(all[i] == before[i]);
            } else {
                assert(all[i] == added[i - before.len()]);
            }
        }
        assert forall|i: int, j: int| 0 <= i < j < all.len() implies (#[trigger] all[i]).0 <= (
        #[trigger] all[j]).0 by {
            if j < before.len() {
                assert(all[i] == before[i] && all[j] == before[j]);
            }
        }
    }
}

/// A proof has to show, under every reference, its target and what that is recorded to
/// peel to, in the order of the references, and nothing else.
pub proof fn every_tip_has_to_be_shown(entries: Seq<RepositoryRef>)
    ensures
        forall|at: int, oid: ObjectId|
            #![trigger tips(entries).contains((at, oid))]
            tips(entries).contains((at, oid)) <==> 0 <= at < entries.len() && (entries[at].target
                == oid || entries[at].peeled == Some(oid)),
        forall|i: int, j: int|
            0 <= i < j < tips(entries).len() ==> (#[trigger] tips(entries)[i]).0 <= (
            #[trigger] tips(entries)[j]).0,
{
    lemma_tips(entries);
}

/// A proof fits the pinned references exactly if it is bound to a catalog, lists as many
/// references as there are, and holds each of them.
pub proof fn when_a_proof_fits(
    refs: RepositoryRefs,
    bound_to_catalog: bool,
    listed: usize,
    contained: Seq<bool>,
)
    ensures
        lists_exactly(refs, bound_to_catalog, listed, contained) <==> {
            &&& bound_to_catalog
            &&& listed == refs.entries@.len()
            &&& contained == Seq::new(refs.entries@.len(), |i: int| true)
        },
{
    let all = Seq::new(refs.entries@.len(), |i: int| true);
    if lists_exactly(refs, bound_to_catalog, listed, contained) {
        assert(contained =~= all);
    }
}

pub open spec fn tip_values(found: Seq<(usize, ObjectId)>) -> Seq<(int, ObjectId)> {
    found.map_values(|tip: (usize, ObjectId)| (tip.0 as int, tip.1))
}

/// The objects that a proof has to show under each reference, in order.
pub fn expected_tips(refs: &RepositoryRefs) -> (result: Vec<(usize, ObjectId)>)
    ensures
        tip_values(result@) == tips(refs.entries@),
{
    let mut result: Vec<(usize, ObjectId)> = Vec::new();
    let mut at: usize = 0;
    let ghost entries = refs.entries@;
    assert(entries.subrange(0, 0) =~= Seq::empty());
    assert(tip_values(result@) =~= Seq::empty());
    while at < refs.entries.len()
        invariant
            entries == refs.entries@,
            at <= entries.len(),
            tip_values(result@) == tips(entries.subrange(0, at as int)),
        decreases entries.len() - at,
    {
        let ghost before = result@;
        proof {
            assert(entries.subrange(0, at + 1).drop_last() =~= entries.subrange(0, at as int));
            assert(entries.subrange(0, at + 1).last() == entries[at as int]);
        }
        result.push((at, refs.entries[at].target));
        if let Some(peeled) = refs.entries[at].peeled {
            result.push((at, peeled));
        }
        assert(tip_values(result@) =~= tip_values(before) + ref_tips(
            entries[at as int],
            at as int,
        ));
        at += 1;
    }
    assert(entries.subrange(0, at as int) =~= entries);
    result
}

/// Accept a proof only if every expected object was found and is visible under
/// its reference.
pub fn check_visible_tips(expected: usize, visible: &[bool]) -> (result: Result<(), Error>)
    ensures
        result == (if visible@.len() == expected && (forall|i: int|
            0 <= i < visible@.len() ==> #[trigger] visible@[i]) {
            Ok::<(), Error>(())
        } else {
            Err(proof_mismatch())
        }),
{
    if visible.len() != expected || !all_true(visible) {
        return Err(Error::RepositoryState { reason: RepositoryStateError::VisibilityProofMismatch });
    }
    Ok(())
}

} // verus!
