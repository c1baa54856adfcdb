use vstd::prelude::*;
use vstd::string::*;

use crate::error::{Error, RepositoryStateError, RevisionError};
use crate::hex::{is_all_hex, parse_oid};
use crate::memory::reserve_exact;
use crate::names::{are_ascending, find_named, Named};
use crate::oid::ObjectId;

verus! {

/// One reference of a repository and the object it peels to, if it is a tag.
#[derive(Debug, PartialEq, Eq)]
pub struct RepositoryRef {
    pub name: String,
    pub target: ObjectId,
    pub peeled: Option<ObjectId>,
}

/// The reference that HEAD names.
#[derive(Debug, PartialEq, Eq)]
pub struct HeadReference {
    pub name: String,
    pub target: ObjectId,
}

/// The complete references of a pinned manifest.
#[derive(Debug, PartialEq, Eq)]
pub struct RepositoryRefs {
    pub head: Option<HeadReference>,
    pub unborn_head: Option<String>,
    pub entries: Vec<RepositoryRef>,
}

/// One reference that a manifest records. Whether the name is well formed for a push is
/// decided where names are validated.
#[derive(Debug, PartialEq, Eq)]
pub struct ManifestRef {
    pub name: String,
    pub well_formed: bool,
    pub target: String,
}

/// The object that a manifest records a tag to peel to.
#[derive(Debug, PartialEq, Eq)]
pub struct PeeledRef {
    pub name: String,
    pub target: String,
}

impl Named for ManifestRef {
    open spec fn named(&self) -> Seq<char> {
        self.name@
    }

    fn name_ref(&self) -> (result: &String) {
        &self.name
    }
}

impl Named for PeeledRef {
    open spec fn named(&self) -> Seq<char> {
        self.name@
    }

    fn name_ref(&self) -> (result: &String) {
        &self.name
    }
}

/// The references of a manifest and what its tags peel to, each in the order of the
/// names.
#[derive(Debug, PartialEq, Eq)]
pub struct ManifestRefs {
    pub head: String,
    pub head_well_formed: bool,
    pub refs: Vec<ManifestRef>,
    pub peeled_refs: Vec<PeeledRef>,
}

/// Whether a text begins with a prefix.
pub open spec fn begins_with(text: Seq<char>, prefix: Seq<char>) -> bool {
    text.len() >= prefix.len() && text.subrange(0, prefix.len() as int) == prefix
}

/// A text begins with a prefix exactly if it is the prefix and something behind it.
pub proof fn what_a_text_begins_with(text: Seq<char>, prefix: Seq<char>, rest: Seq<char>)
    ensures
        begins_with(prefix + rest, prefix),
        begins_with(text, prefix) ==> text == prefix + text.skip(prefix.len() as int),
{
    assert((prefix + rest).subrange(0, prefix.len() as int) =~= prefix);
    if begins_with(text, prefix) {
        assert(text =~= prefix + text.skip(prefix.len() as int)) by {
            assert forall|k: int| 0 <= k < prefix.len() implies text[k] == prefix[k] by {
                assert(text.subrange(0, prefix.len() as int)[k] == prefix[k]);
            }
        }
    }
}

/// Whether a text begins with a prefix.
pub fn has_prefix(text: &str, prefix: &str) -> (result: bool)
    ensures
        result == begins_with(text@, prefix@),
{
    let length: usize = prefix.unicode_len();
    if text.unicode_len() < length {
        return false;
    }
    let mut at: usize = 0;
    while at < length
        invariant
            at <= length,
            length == prefix@.len(),
            length <= text@.len(),
            forall|i: int| 0 <= i < at ==> text@[i] == prefix@[i],
        decreases length - at,
    {
        if text.get_char(at) != prefix.get_char(at) {
            assert(text@.subrange(0, length as int)[at as int] != prefix@[at as int]);
            return false;
        }
        at += 1;
    }
    assert(text@.subrange(0, length as int) =~= prefix@);
    true
}

pub open spec fn state_error(reason: RepositoryStateError) -> Error {
    Error::RepositoryState { reason }
}

pub open spec fn text_oid(text: Seq<char>) -> Option<ObjectId> {
    crate::hex::spelled_oid(vstd::utf8::encode_utf8(text))
}

/// A manifest's faults are reported as states of the repository, and its identities are
/// those that their texts spell.
pub proof fn how_a_manifest_is_read(reason: RepositoryStateError, text: Seq<char>)
    ensures
        state_error(reason) == (Error::RepositoryState { reason }),
        text_oid(text) == crate::hex::spelled_oid(vstd::utf8::encode_utf8(text)),
{
}

/// Whether a manifest name can be a reference.
pub open spec fn acceptable(entry: ManifestRef) -> bool {
    begins_with(entry.name@, "refs/"@) && entry.well_formed
}

/// What a name is recorded to peel to.
pub open spec fn peeled_target(peeled: Seq<PeeledRef>, name: Seq<char>) -> Option<Seq<char>> {
    match crate::names::named_from(peeled, name, 0) {
        Some(at) => Some(peeled[at].target@),
        None => None,
    }
}

/// Why a manifest entry is refused, if it is.
pub open spec fn entry_fault(entry: ManifestRef, peeled: Seq<PeeledRef>) -> Option<
    RepositoryStateError,
> {
    if !acceptable(entry) {
        Some(RepositoryStateError::InvalidReference)
    } else if text_oid(entry.target@) is None {
        Some(RepositoryStateError::InvalidContentIdentity)
    } else if peeled_target(peeled, entry.name@) is Some && text_oid(
        peeled_target(peeled, entry.name@)->0,
    ) is None {
        Some(RepositoryStateError::InvalidContentIdentity)
    } else {
        None
    }
}

/// The fault of the first of some entries that has one.
pub open spec fn first_fault(entries: Seq<ManifestRef>, peeled: Seq<PeeledRef>) -> Option<
    RepositoryStateError,
>
    decreases entries.len(),
{
    if entries.len() == 0 {
        None
    } else {
        match first_fault(entries.drop_last(), peeled) {
            Some(fault) => Some(fault),
            None => entry_fault(entries.last(), peeled),
        }
    }
}

/// Something is recorded to be peeled that is no reference.
pub open spec fn has_orphan(manifest: ManifestRefs) -> bool {
    exists|i: int|
        0 <= i < manifest.peeled_refs@.len() && crate::names::named_from(
            manifest.refs@,
            (#[trigger] manifest.peeled_refs@[i]).name@,
            0,
        ) is None
}

/// Where the reference that HEAD names is recorded.
pub open spec fn head_entry(manifest: ManifestRefs) -> Option<int> {
    crate::names::named_from(manifest.refs@, manifest.head@, 0)
}

/// Why the references of a manifest are refused, if they are.
pub open spec fn manifest_fault(manifest: ManifestRefs) -> Option<RepositoryStateError> {
    if !manifest.head_well_formed || !begins_with(manifest.head@, "refs/"@) {
        Some(RepositoryStateError::InvalidReference)
    } else if has_orphan(manifest) {
        Some(RepositoryStateError::OrphanPeeledReference)
    } else if first_fault(manifest.refs@, manifest.peeled_refs@) is Some {
        first_fault(manifest.refs@, manifest.peeled_refs@)
    } else if manifest.refs@.len() > 0 && head_entry(manifest) is None {
        Some(RepositoryStateError::HeadDoesNotResolve)
    } else {
        None
    }
}

/// What is refused of a manifest before room for its references is asked for.
pub open spec fn early_fault(manifest: ManifestRefs) -> Option<RepositoryStateError> {
    if !manifest.head_well_formed || !begins_with(manifest.head@, "refs/"@) {
        Some(RepositoryStateError::InvalidReference)
    } else if has_orphan(manifest) {
        Some(RepositoryStateError::OrphanPeeledReference)
    } else {
        None
    }
}

/// Whether there was room for the references of a manifest.
pub open spec fn room_for_refs(manifest: ManifestRefs) -> bool {
    crate::memory::granted_exactly::<RepositoryRef>(manifest.refs@.len() as usize)
}

/// Why the references of a manifest could not be read: the manifest's own faults come
/// first, but room is asked for before any single reference is read.
pub open spec fn refs_refused(manifest: ManifestRefs, error: Error) -> bool {
    match early_fault(manifest) {
        Some(fault) => error == state_error(fault),
        None => {
            ||| crate::memory::refused_exactly::<RepositoryRef>(
                manifest.refs@.len() as usize,
                error,
            )
            ||| room_for_refs(manifest) && manifest_fault(manifest) is Some && error
                == state_error(manifest_fault(manifest)->0)
        },
    }
}

/// References are refused only for a fault of the manifest or for want of memory, and one
/// of the early faults is reported whatever memory there is.
pub proof fn when_references_are_refused(manifest: ManifestRefs, error: Error)
    requires
        refs_refused(manifest, error),
        manifest.refs@.len() <= usize::MAX,
    ensures
        early_fault(manifest) matches Some(fault) ==> error == (Error::RepositoryState {
            reason: fault,
        }),
        error is Allocation ==> manifest.refs@.len() > 0 && early_fault(manifest) is None,
        !(error is Allocation) ==> manifest_fault(manifest) is Some && error
            == (Error::RepositoryState { reason: manifest_fault(manifest)->0 }),
{
}

/// Whether a reference is what a manifest records.
pub open spec fn is_recorded(
    reference: RepositoryRef,
    entry: ManifestRef,
    peeled: Seq<PeeledRef>,
) -> bool {
    &&& reference.name@ == entry.name@
    &&& Some(reference.target) == text_oid(entry.target@)
    &&& reference.peeled == (match peeled_target(peeled, entry.name@) {
        Some(text) => text_oid(text),
        None => None,
    })
}

/// Whether references are exactly those of a manifest without fault.
pub open spec fn are_recorded(refs: RepositoryRefs, manifest: ManifestRefs) -> bool {
    &&& refs.entries@.len() == manifest.refs@.len()
    &&& forall|i: int|
        0 <= i < refs.entries@.len() ==> is_recorded(
            #[trigger] refs.entries@[i],
            manifest.refs@[i],
            manifest.peeled_refs@,
        )
    &&& if manifest.refs@.len() == 0 {
        refs.head is None && refs.unborn_head is Some && (refs.unborn_head->0)@ == manifest.head@
    } else {
        let at = head_entry(manifest)->0;
        &&& refs.unborn_head is None
        &&& refs.head is Some
        &&& (refs.head->0).name@ == manifest.head@
        &&& Some((refs.head->0).target) == text_oid(manifest.refs@[at].target@)
    }
}

proof fn lemma_fault_stays(entries: Seq<ManifestRef>, peeled: Seq<PeeledRef>, count: int)
    requires
        0 <= count <= entries.len(),
        first_fault(entries.subrange(0, count), peeled) is Some,
    ensures
        first_fault(entries, peeled) == first_fault(entries.subrange(0, count), peeled),
    decreases entries.len() - count,
{
    if count < entries.len() {
        assert(entries.subrange(0, count + 1).drop_last() =~= entries.subrange(0, count));
        lemma_fault_stays(entries, peeled, count + 1);
    } else {
        assert(entries.subrange(0, count) =~= entries);
    }
}

fn read_entry(entry: &ManifestRef, peeled_refs: &Vec<PeeledRef>, sorted: bool) -> (result: Result<
    RepositoryRef,
    Error,
>)
    requires
        sorted ==> crate::names::ascending(peeled_refs@),
    ensures
        match result {
            Ok(reference) => entry_fault(*entry, peeled_refs@) is None && is_recorded(
                reference,
                *entry,
                peeled_refs@,
            ),
            Err(error) => entry_fault(*entry, peeled_refs@) is Some && error == state_error(
                entry_fault(*entry, peeled_refs@)->0,
            ),
        },
{
    if !has_prefix(entry.name.as_str(), "refs/") || !entry.well_formed {
        return Err(Error::RepositoryState { reason: RepositoryStateError::InvalidReference });
    }
    let target = parse_oid(entry.target.as_str())?;
    let peeled = match find_named(peeled_refs, sorted, &entry.name) {
        Some(at) => Some(parse_oid(peeled_refs[at].target.as_str())?),
        None => None,
    };
    Ok(RepositoryRef { name: entry.name.clone(), target, peeled })
}

impl RepositoryRefs {
    /// Whether the repository has no references.
    pub fn is_empty(&self) -> (result: bool)
        ensures
            result == (self.entries@.len() == 0),
    {
        self.entries.len() == 0
    }

    /// What each reference stands for: the object it peels to where that is
    /// recorded, else its target.
    pub open spec fn recorded_tips(self) -> Seq<ObjectId> {
        self.entries@.map_values(
            |reference: RepositoryRef|
                match reference.peeled {
                    Some(peeled) => peeled,
                    None => reference.target,
                },
        )
    }

    /// What each reference stands for, in the order of the references.
    pub fn tips(&self) -> (tips: Vec<ObjectId>)
        ensures
            tips@ == self.recorded_tips(),
    {
        let mut tips: Vec<ObjectId> = Vec::new();
        let mut at: usize = 0;
        while at < self.entries.len()
            invariant
                at <= self.entries@.len(),
                tips@.len() == at,
                forall|i: int| 0 <= i < at ==> #[trigger] tips@[i] == self.recorded_tips()[i],
            decreases self.entries@.len() - at,
        {
            let tip = match self.entries[at].peeled {
                Some(peeled) => peeled,
                None => self.entries[at].target,
            };
            tips.push(tip);
            at += 1;
        }
        assert(tips@ =~= self.recorded_tips());
        tips
    }

    /// Read the references of a manifest: their names, targets, peeled objects and
    /// HEAD.
    pub fn try_from(manifest: &ManifestRefs) -> (result: Result<RepositoryRefs, Error>)
        ensures
            match result {
                Ok(refs) => {
                    &&& manifest_fault(*manifest) is None
                    &&& room_for_refs(*manifest)
                    &&& are_recorded(refs, *manifest)
                },
                Err(error) => refs_refused(*manifest, error),
            },
    {
        if !manifest.head_well_formed || !has_prefix(manifest.head.as_str(), "refs/") {
            return Err(Error::RepositoryState { reason: RepositoryStateError::InvalidReference });
        }
        let sorted = are_ascending(&manifest.refs);
        let mut at: usize = 0;
        while at < manifest.peeled_refs.len()
            invariant
                at <= manifest.peeled_refs@.len(),
                sorted == crate::names::ascending(manifest.refs@),
                forall|i: int|
                    0 <= i < at ==> crate::names::named_from(
                        manifest.refs@,
                        (#[trigger] manifest.peeled_refs@[i]).name@,
                        0,
                    ) is Some,
                manifest.head_well_formed,
                begins_with(manifest.head@, "refs/"@),
            decreases manifest.peeled_refs@.len() - at,
        {
            if find_named(&manifest.refs, sorted, &manifest.peeled_refs[at].name).is_none() {
                assert(has_orphan(*manifest));
                return Err(
                    Error::RepositoryState { reason: RepositoryStateError::OrphanPeeledReference },
                );
            }
            at += 1;
        }
        let mut entries: Vec<RepositoryRef> = Vec::new();
        reserve_exact(&mut entries, manifest.refs.len())?;
        RepositoryRefs::record(manifest, entries)
    }

    /// Read the references of a manifest into an empty list that has been made for them.
    pub fn record(manifest: &ManifestRefs, entries: Vec<RepositoryRef>) -> (result: Result<
        RepositoryRefs,
        Error,
    >)
        requires
            early_fault(*manifest) is None,
            entries@.len() == 0,
        ensures
            match manifest_fault(*manifest) {
                None => result is Ok && are_recorded(result->Ok_0, *manifest),
                Some(fault) => result == Err::<RepositoryRefs, Error>(state_error(fault)),
            },
    {
        let mut entries = entries;
        let sorted = are_ascending(&manifest.peeled_refs);
        let mut at: usize = 0;
        let ghost names = manifest.refs@;
        let ghost peeled = manifest.peeled_refs@;
        assert(names.subrange(0, 0) =~= Seq::empty());
        while at < manifest.refs.len()
            invariant
                names == manifest.refs@,
                peeled == manifest.peeled_refs@,
                sorted == crate::names::ascending(peeled),
                at <= names.len(),
                early_fault(*manifest) is None,
                entries@.len() == at,
                forall|i: int| 0 <= i < at ==> is_recorded(#[trigger] entries@[i], names[i], peeled),
                first_fault(names.subrange(0, at as int), peeled) is None,
            decreases names.len() - at,
        {
            proof {
                assert(names.subrange(0, at + 1).drop_last() =~= names.subrange(0, at as int));
                assert(names.subrange(0, at + 1).last() == names[at as int]);
            }
            let reference = match read_entry(&manifest.refs[at], &manifest.peeled_refs, sorted) {
                Ok(reference) => reference,
                Err(error) => {
                    proof {
                        lemma_fault_stays(names, peeled, at + 1);
                    }
                    return Err(error);
                },
            };
            entries.push(reference);
            at += 1;
        }
        assert(names.subrange(0, at as int) =~= names);
        if entries.len() == 0 {
            return Ok(
                RepositoryRefs {
                    head: None,
                    unborn_head: Some(manifest.head.clone()),
                    entries,
                },
            );
        }
        let sorted = are_ascending(&manifest.refs);
        match find_named(&manifest.refs, sorted, &manifest.head) {
            Some(at) => {
                assert(is_recorded(entries@[at as int], names[at as int], peeled));
                let target = entries[at].target;
                Ok(
                    RepositoryRefs {
                        head: Some(HeadReference { name: manifest.head.clone(), target }),
                        unborn_head: None,
                        entries,
                    },
                )
            },
            None => Err(
                Error::RepositoryState { reason: RepositoryStateError::HeadDoesNotResolve },
            ),
        }
    }

    /// The first reference of a full name.
    pub open spec fn found(self, name: Seq<char>) -> Option<int> {
        found_from(self.entries@, name, 0)
    }

    /// Find the first reference of a full name.
    pub fn find(&self, name: &str) -> (result: Option<&RepositoryRef>)
        ensures
            match result {
                Some(reference) => self.found(name@) is Some && *reference
                    == self.entries@[self.found(name@)->0],
                None => self.found(name@) is None,
            },
    {
        match self.position(name) {
            Some(at) => Some(&self.entries[at]),
            None => None,
        }
    }

    fn position(&self, name: &str) -> (result: Option<usize>)
        ensures
            match result {
                Some(at) => self.found(name@) == Some(at as int) && at < self.entries@.len(),
                None => self.found(name@) is None,
            },
    {
        let wanted = name.to_owned();
        let mut at: usize = 0;
        while at < self.entries.len()
            invariant
                at <= self.entries@.len(),
                wanted@ == name@,
                self.found(name@) == found_from(self.entries@, name@, at as int),
            decreases self.entries@.len() - at,
        {
            if self.entries[at].name == wanted {
                return Some(at);
            }
            at += 1;
        }
        None
    }
}

/// The index of the first reference of a full name, from an index on.
pub open spec fn found_from(entries: Seq<RepositoryRef>, name: Seq<char>, from: int) -> Option<int>
    decreases entries.len() - from,
{
    if from < 0 || from >= entries.len() {
        None
    } else if entries[from].name@ == name {
        Some(from)
    } else {
        found_from(entries, name, from + 1)
    }
}

/// What a reference name selects.
pub enum Selection {
    Found(int),
    Ambiguous,
    Missing,
}

/// A full name selects itself; a short name selects a branch or a tag, but not
/// either of two.
pub open spec fn selection(refs: RepositoryRefs, name: Seq<char>) -> Selection {
    if begins_with(name, "refs/"@) {
        match refs.found(name) {
            Some(at) => Selection::Found(at),
            None => Selection::Missing,
        }
    } else {
        match (refs.found("refs/heads/"@ + name), refs.found("refs/tags/"@ + name)) {
            (Some(_), Some(_)) => Selection::Ambiguous,
            (Some(at), None) => Selection::Found(at),
            (None, Some(at)) => Selection::Found(at),
            (None, None) => Selection::Missing,
        }
    }
}

proof fn lemma_found_first(entries: Seq<RepositoryRef>, name: Seq<char>, from: int)
    requires
        0 <= from,
    ensures
        match found_from(entries, name, from) {
            Some(at) => {
                &&& from <= at < entries.len()
                &&& entries[at].name@ == name
                &&& forall|k: int| from <= k < at ==> (#[trigger] entries[k]).name@ != name
            },
            None => forall|k: int|
                from <= k < entries.len() ==> (#[trigger] entries[k]).name@ != name,
        },
    decreases entries.len() - from,
{
    if from < entries.len() && entries[from].name@ != name {
        lemma_found_first(entries, name, from + 1);
    }
}

/// Every reference whose name is below `refs/` is selected by its own full name, be it a
/// branch, a tag or anything else; of two references with one name, the first.
pub proof fn a_reference_is_selected_by_its_full_name(refs: RepositoryRefs, at: int)
    requires
        0 <= at < refs.entries@.len(),
        refs.entries@[at].name@.len() >= 5,
        refs.entries@[at].name@.subrange(0, 5) == "refs/"@,
        forall|k: int| 0 <= k < at ==> (#[trigger] refs.entries@[k]).name@
            != refs.entries@[at].name@,
    ensures
        selection(refs, refs.entries@[at].name@) == Selection::Found(at),
{
    reveal_strlit("refs/");
    lemma_found_first(refs.entries@, refs.entries@[at].name@, 0);
}

/// A short name selects the branch or the tag of that name where only one of them is
/// there, neither where both are, and nothing else ever.
pub proof fn a_short_name_selects_a_branch_or_a_tag(refs: RepositoryRefs, name: Seq<char>)
    requires
        name.len() < 5 || name.subrange(0, 5) != "refs/"@,
    ensures
        ({
            let branch = "refs/heads/"@ + name;
            let tag = "refs/tags/"@ + name;
            let is_branch = exists|k: int|
                0 <= k < refs.entries@.len() && (#[trigger] refs.entries@[k]).name@ == branch;
            let is_tag = exists|k: int|
                0 <= k < refs.entries@.len() && (#[trigger] refs.entries@[k]).name@ == tag;
            match selection(refs, name) {
                Selection::Found(at) => {
                    &&& 0 <= at < refs.entries@.len()
                    &&& is_branch != is_tag
                    &&& refs.entries@[at].name@ == (if is_branch {
                        branch
                    } else {
                        tag
                    })
                    &&& forall|k: int|
                        0 <= k < at ==> (#[trigger] refs.entries@[k]).name@
                            != refs.entries@[at].name@
                },
                Selection::Ambiguous => is_branch && is_tag,
                Selection::Missing => !is_branch && !is_tag,
            }
        }),
{
    reveal_strlit("refs/");
    lemma_found_first(refs.entries@, "refs/heads/"@ + name, 0);
    lemma_found_first(refs.entries@, "refs/tags/"@ + name, 0);
}

/// A full name that no reference bears selects nothing, and one that is selected is
/// borne by the reference: a full name never stands for a shorter or a longer one.
pub proof fn a_full_name_selects_only_itself(refs: RepositoryRefs, name: Seq<char>)
    requires
        name.len() >= 5,
        name.subrange(0, 5) == "refs/"@,
    ensures
        match selection(refs, name) {
            Selection::Found(at) => 0 <= at < refs.entries@.len() && refs.entries@[at].name@
                == name,
            Selection::Ambiguous => false,
            Selection::Missing => forall|k: int|
                0 <= k < refs.entries@.len() ==> (#[trigger] refs.entries@[k]).name@ != name,
        },
{
    reveal_strlit("refs/");
    lemma_found_first(refs.entries@, name, 0);
}

/// A name that selects nothing is told apart by its bytes alone: fewer than forty
/// hexadecimal digits are an abbreviated identity, sixty-four are one of a format that is
/// not supported, and anything else is a name that is not there.
pub proof fn what_a_missing_name_looks_like(name: Seq<char>)
    ensures
        ({
            let bytes = vstd::utf8::encode_utf8(name);
            let digits = forall|i: int|
                0 <= i < bytes.len() ==> 48 <= #[trigger] bytes[i] <= 57 || 65 <= bytes[i] <= 70
                    || 97 <= bytes[i] <= 102;
            let error = missing_error(name);
            &&& error == (Error::Revision { reason: RevisionError::AbbreviatedObjectId })
                <==> digits && bytes.len() < 40
            &&& error == Error::UnsupportedObjectFormat <==> digits && bytes.len() == 64
            &&& error == (Error::Revision { reason: RevisionError::NotFound }) <==> !digits || (
            bytes.len() >= 40 && bytes.len() != 64)
        }),
{
    let bytes = vstd::utf8::encode_utf8(name);
    let digits = forall|i: int|
        0 <= i < bytes.len() ==> 48 <= #[trigger] bytes[i] <= 57 || 65 <= bytes[i] <= 70 || 97
            <= bytes[i] <= 102;
    if digits {
        assert(crate::hex::all_hex(bytes));
    }
    if crate::hex::all_hex(bytes) {
        assert forall|i: int| 0 <= i < bytes.len() implies 48 <= #[trigger] bytes[i] <= 57 || 65
            <= bytes[i] <= 70 || 97 <= bytes[i] <= 102 by {
            assert(crate::hex::is_hex_digit(bytes[i]));
        }
    }
}

proof fn lemma_no_fault(entries: Seq<ManifestRef>, peeled: Seq<PeeledRef>)
    ensures
        first_fault(entries, peeled) is None <==> forall|i: int|
            0 <= i < entries.len() ==> entry_fault(#[trigger] entries[i], peeled) is None,
    decreases entries.len(),
{
    if entries.len() > 0 {
        let rest = entries.drop_last();
        lemma_no_fault(rest, peeled);
        if first_fault(entries, peeled) is None {
            assert forall|i: int| 0 <= i < entries.len() implies entry_fault(
                #[trigger] entries[i],
                peeled,
            ) is None by {
                if i < rest.len() {
                    assert(rest[i] == entries[i]);
                }
            }
        } else if forall|i: int|
            0 <= i < entries.len() ==> entry_fault(#[trigger] entries[i], peeled) is None {
            assert forall|i: int| 0 <= i < rest.len() implies entry_fault(
                #[trigger] rest[i],
                peeled,
            ) is None by {
                assert(rest[i] == entries[i]);
            }
            assert(entry_fault(entries[entries.len() - 1], peeled) is None);
        }
    }
}

/// A manifest is accepted exactly if HEAD and every reference have well-formed names
/// below `refs/`, everything recorded spells an identity, nothing is peeled that is no
/// reference, and HEAD names a reference unless there is none at all.
pub proof fn when_a_manifest_is_accepted(manifest: ManifestRefs)
    requires
        forall|i: int, j: int|
            0 <= i < j < manifest.peeled_refs@.len() ==> (
            #[trigger] manifest.peeled_refs@[i]).name@ != (
            #[trigger] manifest.peeled_refs@[j]).name@,
    ensures
        ({
            let refs = manifest.refs@;
            let peeled = manifest.peeled_refs@;
            let below = |name: Seq<char>| name.len() >= 5 && name.subrange(0, 5) == "refs/"@;
            let is_ref = |name: Seq<char>|
                exists|k: int| 0 <= k < refs.len() && (#[trigger] refs[k]).name@ == name;
            manifest_fault(manifest) is None <==> {
                &&& manifest.head_well_formed && below(manifest.head@)
                &&& forall|i: int|
                    0 <= i < peeled.len() ==> is_ref((#[trigger] peeled[i]).name@) && text_oid(
                        peeled[i].target@,
                    ) is Some
                &&& forall|i: int|
                    0 <= i < refs.len() ==> (#[trigger] refs[i]).well_formed && below(
                        refs[i].name@,
                    ) && text_oid(refs[i].target@) is Some
                &&& refs.len() > 0 ==> is_ref(manifest.head@)
            }
        }),
{
    reveal_strlit("refs/");
    let refs = manifest.refs@;
    let peeled = manifest.peeled_refs@;
    let below = |name: Seq<char>| name.len() >= 5 && name.subrange(0, 5) == "refs/"@;
    let is_ref = |name: Seq<char>|
        exists|k: int| 0 <= k < refs.len() && (#[trigger] refs[k]).name@ == name;
    lemma_no_fault(refs, peeled);
    assert forall|name: Seq<char>|
        #![trigger crate::names::named_from(refs, name, 0)]
        is_ref(name) <==> crate::names::named_from(refs, name, 0) is Some by {
        crate::names::the_first_of_a_name_is_found(refs, name, 0);
        if is_ref(name) {
            let k = choose|k: int| 0 <= k < refs.len() && (#[trigger] refs[k]).name@ == name;
            assert(refs[k].named() == name);
        }
        if let Some(at) = crate::names::named_from(refs, name, 0) {
            assert(refs[at].name@ == name);
        }
    }
    assert forall|i: int| 0 <= i < peeled.len() implies crate::names::named_from(
        peeled,
        (#[trigger] peeled[i]).name@,
        0,
    ) == Some(i) by {
        crate::names::the_first_of_a_name_is_found(peeled, peeled[i].name@, 0);
        assert(peeled[i].named() == peeled[i].name@);
        let at = crate::names::named_from(peeled, peeled[i].name@, 0)->0;
        assert(peeled[at].named() == peeled[at].name@);
    }
    if manifest_fault(manifest) is None {
        assert(!has_orphan(manifest));
        assert forall|i: int| 0 <= i < peeled.len() implies is_ref((#[trigger] peeled[i]).name@)
            && text_oid(peeled[i].target@) is Some by {
            let name = peeled[i].name@;
            crate::names::the_first_of_a_name_is_found(refs, name, 0);
            let at = crate::names::named_from(refs, name, 0)->0;
            assert(refs[at].named() == refs[at].name@);
            assert(entry_fault(refs[at], peeled) is None);
        }
        assert forall|i: int| 0 <= i < refs.len() implies (#[trigger] refs[i]).well_formed && below(
            refs[i].name@,
        ) && text_oid(refs[i].target@) is Some by {
            assert(entry_fault(refs[i], peeled) is None);
        }
    }
    if {
        &&& manifest.head_well_formed && below(manifest.head@)
        &&& forall|i: int|
            0 <= i < peeled.len() ==> is_ref((#[trigger] peeled[i]).name@) && text_oid(
                peeled[i].target@,
            ) is Some
        &&& forall|i: int|
            0 <= i < refs.len() ==> (#[trigger] refs[i]).well_formed && below(refs[i].name@)
                && text_oid(refs[i].target@) is Some
        &&& refs.len() > 0 ==> is_ref(manifest.head@)
    } {
        assert forall|i: int| 0 <= i < refs.len() implies entry_fault(
            #[trigger] refs[i],
            peeled,
        ) is None by {
            crate::names::the_first_of_a_name_is_found(peeled, refs[i].name@, 0);
        }
        assert(!has_orphan(manifest));
    }
}

/// Whether a manifest lists a reference of a name.
pub open spec fn lists_name(manifest: ManifestRefs, name: Seq<char>) -> bool {
    exists|k: int| 0 <= k < manifest.refs@.len() && (#[trigger] manifest.refs@[k]).name@ == name
}

proof fn lemma_listed_name(manifest: ManifestRefs, name: Seq<char>)
    ensures
        lists_name(manifest, name) <==> crate::names::named_from(manifest.refs@, name, 0) is Some,
{
    let refs = manifest.refs@;
    crate::names::the_first_of_a_name_is_found(refs, name, 0);
    if lists_name(manifest, name) {
        let k = choose|k: int| 0 <= k < refs.len() && (#[trigger] refs[k]).name@ == name;
        assert(refs[k].named() == name);
    }
    if let Some(at) = crate::names::named_from(refs, name, 0) {
        assert(refs[at].name@ == name);
    }
}

proof fn lemma_first_fault(entries: Seq<ManifestRef>, peeled: Seq<PeeledRef>, at: int)
    requires
        0 <= at < entries.len(),
        entry_fault(entries[at], peeled) is Some,
        forall|i: int| 0 <= i < at ==> entry_fault(#[trigger] entries[i], peeled) is None,
    ensures
        first_fault(entries, peeled) == entry_fault(entries[at], peeled),
    decreases entries.len(),
{
    let rest = entries.drop_last();
    assert forall|i: int| 0 <= i < rest.len() implies #[trigger] rest[i] == entries[i] by {}
    if at < rest.len() {
        lemma_first_fault(rest, peeled, at);
    } else {
        lemma_no_fault(rest, peeled);
    }
}

/// A manifest is refused first for a HEAD that is no reference's name, then for a peeled
/// object of something that it does not list, then for the first reference whose name or
/// whose identity cannot be accepted, and last for a HEAD that it does not list; for the
/// first two before any room is asked for.
pub proof fn how_a_manifest_is_refused(manifest: ManifestRefs, at: int)
    ensures
        ({
            let refs = manifest.refs@;
            let peeled = manifest.peeled_refs@;
            let named = manifest.head_well_formed && manifest.head@.len() >= 5
                && manifest.head@.subrange(0, 5) == "refs/"@;
            let orphaned = exists|i: int|
                0 <= i < peeled.len() && !lists_name(
                    manifest,
                    (#[trigger] peeled[i]).name@,
                );
            &&& !named ==> manifest_fault(manifest) == Some(RepositoryStateError::InvalidReference)
            &&& named && orphaned ==> manifest_fault(manifest) == Some(
                RepositoryStateError::OrphanPeeledReference,
            )
            &&& early_fault(manifest) == (if named && !orphaned {
                None
            } else {
                manifest_fault(manifest)
            })
            &&& named && !orphaned && 0 <= at < refs.len() && (forall|i: int|
                0 <= i < at ==> entry_fault(#[trigger] refs[i], peeled) is None) ==> {
                let entry = refs[at];
                let accepted = entry.well_formed && entry.name@.len() >= 5 && entry.name@.subrange(
                    0,
                    5,
                ) == "refs/"@;
                &&& !accepted ==> manifest_fault(manifest) == Some(
                    RepositoryStateError::InvalidReference,
                )
                &&& accepted && text_oid(entry.target@) is None ==> manifest_fault(manifest)
                    == Some(RepositoryStateError::InvalidContentIdentity)
            }
            &&& named && !orphaned && refs.len() > 0 && (forall|i: int|
                0 <= i < refs.len() ==> entry_fault(#[trigger] refs[i], peeled) is None)
                && !lists_name(manifest, manifest.head@) ==> manifest_fault(manifest) == Some(
                RepositoryStateError::HeadDoesNotResolve,
            )
        }),
{
    reveal_strlit("refs/");
    let refs = manifest.refs@;
    let peeled = manifest.peeled_refs@;
    let orphaned = exists|i: int|
        0 <= i < peeled.len() && !lists_name(manifest, (#[trigger] peeled[i]).name@);
    assert forall|i: int| 0 <= i < peeled.len() implies lists_name(
        manifest,
        (#[trigger] peeled[i]).name@,
    ) == (crate::names::named_from(refs, peeled[i].name@, 0) is Some) by {
        lemma_listed_name(manifest, peeled[i].name@);
    }
    assert(orphaned == has_orphan(manifest));
    lemma_listed_name(manifest, manifest.head@);
    lemma_no_fault(refs, peeled);
    if 0 <= at < refs.len() && (forall|i: int|
        0 <= i < at ==> entry_fault(#[trigger] refs[i], peeled) is None) && entry_fault(
        refs[at],
        peeled,
    ) is Some {
        lemma_first_fault(refs, peeled, at);
    }
}

/// A reference is found by its full name exactly if there is one of that name, and then
/// the first.
pub proof fn which_reference_is_found(refs: RepositoryRefs, name: Seq<char>)
    ensures
        refs.found(name) is None ==> forall|k: int|
            0 <= k < refs.entries@.len() ==> (#[trigger] refs.entries@[k]).name@ != name,
        refs.found(name) matches Some(at) ==> 0 <= at < refs.entries@.len()
            && refs.entries@[at].name@ == name && forall|k: int|
            0 <= k < at ==> (#[trigger] refs.entries@[k]).name@ != name,
{
    lemma_found_first(refs.entries@, name, 0);
}

/// Each reference stands for the object that it is recorded to peel to, and else for its
/// target; they stand in the order of the references.
pub proof fn what_references_stand_for(refs: RepositoryRefs)
    ensures
        refs.recorded_tips().len() == refs.entries@.len(),
        forall|i: int|
            0 <= i < refs.entries@.len() ==> {
                let tip = #[trigger] refs.recorded_tips()[i];
                &&& refs.entries@[i].peeled is Some ==> refs.entries@[i].peeled == Some(tip)
                &&& refs.entries@[i].peeled is None ==> refs.entries@[i].target == tip
            },
{
}

/// The references of an accepted manifest stand in its order, under its names, with what
/// it records for each name; HEAD has the target that is recorded under its own name.
pub proof fn references_are_what_the_manifest_records(refs: RepositoryRefs, manifest: ManifestRefs)
    requires
        are_recorded(refs, manifest),
        manifest_fault(manifest) is None,
    ensures
        refs.entries@.len() == manifest.refs@.len(),
        forall|i: int|
            0 <= i < refs.entries@.len() ==> {
                let entry = #[trigger] refs.entries@[i];
                &&& entry.name@ == manifest.refs@[i].name@
                &&& text_oid(manifest.refs@[i].target@) == Some(entry.target)
                &&& entry.peeled is None ==> forall|k: int|
                    0 <= k < manifest.peeled_refs@.len() ==> (
                    #[trigger] manifest.peeled_refs@[k]).name@ != entry.name@
                &&& entry.peeled is Some ==> exists|k: int|
                    0 <= k < manifest.peeled_refs@.len() && (
                    #[trigger] manifest.peeled_refs@[k]).name@ == entry.name@ && text_oid(
                        manifest.peeled_refs@[k].target@,
                    ) == entry.peeled
            },
        manifest.refs@.len() == 0 ==> refs.head is None && refs.unborn_head is Some && (
        refs.unborn_head->0)@ == manifest.head@,
        manifest.refs@.len() > 0 ==> {
            &&& refs.unborn_head is None
            &&& refs.head is Some
            &&& (refs.head->0).name@ == manifest.head@
            &&& exists|i: int|
                0 <= i < refs.entries@.len() && (#[trigger] refs.entries@[i]).name@
                    == manifest.head@ && refs.entries@[i].target == (refs.head->0).target
        },
{
    let peeled = manifest.peeled_refs@;
    lemma_no_fault(manifest.refs@, peeled);
    assert forall|i: int| 0 <= i < refs.entries@.len() implies ({
        let entry = #[trigger] refs.entries@[i];
        &&& entry.name@ == manifest.refs@[i].name@
        &&& text_oid(manifest.refs@[i].target@) == Some(entry.target)
        &&& entry.peeled is None ==> forall|k: int|
            0 <= k < peeled.len() ==> (#[trigger] peeled[k]).name@ != entry.name@
        &&& entry.peeled is Some ==> exists|k: int|
            0 <= k < peeled.len() && (#[trigger] peeled[k]).name@ == entry.name@ && text_oid(
                peeled[k].target@,
            ) == entry.peeled
    }) by {
        let entry = refs.entries@[i];
        assert(is_recorded(entry, manifest.refs@[i], peeled));
        assert(entry_fault(manifest.refs@[i], peeled) is None);
        crate::names::the_first_of_a_name_is_found(peeled, entry.name@, 0);
        if let Some(at) = crate::names::named_from(peeled, entry.name@, 0) {
            assert(peeled[at].named() == peeled[at].name@);
        } else {
            assert forall|k: int| 0 <= k < peeled.len() implies (#[trigger] peeled[k]).name@
                != entry.name@ by {
                assert(peeled[k].named() != entry.name@);
            }
        }
    }
    if manifest.refs@.len() > 0 {
        crate::names::the_first_of_a_name_is_found(manifest.refs@, manifest.head@, 0);
        let at = head_entry(manifest)->0;
        assert(manifest.refs@[at].named() == manifest.head@);
        assert(is_recorded(refs.entries@[at], manifest.refs@[at], peeled));
    }
}

/// Why a name that selects nothing fails.
pub open spec fn missing_error(name: Seq<char>) -> Error {
    let bytes = vstd::utf8::encode_utf8(name);
    if bytes.len() < 40 && crate::hex::all_hex(bytes) {
        Error::Revision { reason: RevisionError::AbbreviatedObjectId }
    } else if bytes.len() == 64 && crate::hex::all_hex(bytes) {
        Error::UnsupportedObjectFormat
    } else {
        Error::Revision { reason: RevisionError::NotFound }
    }
}

/// Select the reference that a name means. Whether the name is well formed is
/// decided where names are validated.
pub fn select_reference<'a>(
    refs: &'a RepositoryRefs,
    name: &str,
    well_formed: bool,
) -> (result: Result<&'a RepositoryRef, Error>)
    ensures
        match result {
            Ok(reference) => {
                &&& well_formed
                &&& selection(*refs, name@) matches Selection::Found(at) && *reference
                    == refs.entries@[at]
            },
            Err(error) => error == (if !well_formed {
                Error::Revision { reason: RevisionError::InvalidReference }
            } else {
                match selection(*refs, name@) {
                    Selection::Ambiguous => Error::Revision {
                        reason: RevisionError::AmbiguousReference,
                    },
                    _ => missing_error(name@),
                }
            }) && (!well_formed || !(selection(*refs, name@) is Found)),
        },
{
    if !well_formed {
        return Err(Error::Revision { reason: RevisionError::InvalidReference });
    }
    let found: Option<usize> = if has_prefix(name, "refs/") {
        refs.position(name)
    } else {
        let mut branch = String::new();
        branch.append("refs/heads/");
        branch.append(name);
        let mut tag = String::new();
        tag.append("refs/tags/");
        tag.append(name);
        assert(branch@ =~= "refs/heads/"@ + name@);
        assert(tag@ =~= "refs/tags/"@ + name@);
        match (refs.position(branch.as_str()), refs.position(tag.as_str())) {
            (Some(_), Some(_)) => {
                return Err(Error::Revision { reason: RevisionError::AmbiguousReference });
            },
            (Some(at), None) => Some(at),
            (None, Some(at)) => Some(at),
            (None, None) => None,
        }
    };
    match found {
        Some(at) => Ok(&refs.entries[at]),
        None => {
            let bytes = name.as_bytes();
            if bytes.len() < 40 && is_all_hex(bytes) {
                Err(Error::Revision { reason: RevisionError::AbbreviatedObjectId })
            } else if bytes.len() == 64 && is_all_hex(bytes) {
                Err(Error::UnsupportedObjectFormat)
            } else {
                Err(Error::Revision { reason: RevisionError::NotFound })
            }
        },
    }
}

} // verus!
