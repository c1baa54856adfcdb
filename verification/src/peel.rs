use vstd::prelude::*;

use crate::error::{CorruptionStage, Error, RevisionError};
use crate::id_map::IdMap;
use crate::model::AnnotatedTag;
use crate::oid::ObjectId;
use crate::refs::{has_prefix, RepositoryRef};

verus! {

/// What an object means on the way from a reference to a commit.
#[derive(Debug, PartialEq, Eq)]
pub enum PeelObject {
    Commit,
    Tag { tag: AnnotatedTag },
    Other,
}

/// Where the tags behind an object lead.
pub enum Peeled {
    Commit(ObjectId, Seq<AnnotatedTag>),
    Cycle,
    TooDeep,
    NotCommit,
}

/// Follow tags from an object, at most as many as are allowed.
pub open spec fn peel_from(
    objects: Map<ObjectId, PeelObject>,
    current: ObjectId,
    visited: Set<ObjectId>,
    tags: Seq<AnnotatedTag>,
    maximum: usize,
) -> Peeled
    decreases maximum - tags.len(),
{
    if visited.contains(current) {
        Peeled::Cycle
    } else {
        match objects[current] {
            PeelObject::Commit => Peeled::Commit(current, tags),
            PeelObject::Other => Peeled::NotCommit,
            PeelObject::Tag { tag } => if tags.len() >= maximum {
                Peeled::TooDeep
            } else {
                peel_from(objects, tag.target, visited.insert(current), tags.push(tag), maximum)
            },
        }
    }
}

/// Where the tags behind an object lead.
pub open spec fn peel(
    objects: Map<ObjectId, PeelObject>,
    start: ObjectId,
    maximum: usize,
) -> Peeled {
    peel_from(objects, start, Set::empty(), Seq::empty(), maximum)
}

/// The object that so many tags lead to, one after another.
pub open spec fn behind_tags(
    objects: Map<ObjectId, PeelObject>,
    start: ObjectId,
    count: nat,
) -> Option<ObjectId>
    decreases count,
{
    if count == 0 {
        Some(start)
    } else {
        match behind_tags(objects, start, (count - 1) as nat) {
            Some(oid) => match objects[oid] {
                PeelObject::Tag { tag } => Some(tag.target),
                _ => None,
            },
            None => None,
        }
    }
}

/// Whether the objects that the first tags lead to are all different.
pub open spec fn no_tag_repeats(
    objects: Map<ObjectId, PeelObject>,
    start: ObjectId,
    count: nat,
) -> bool {
    forall|m: nat, n: nat|
        m < n <= count ==> #[trigger] behind_tags(objects, start, m) != #[trigger] behind_tags(
            objects,
            start,
            n,
        )
}

proof fn lemma_peeled(
    objects: Map<ObjectId, PeelObject>,
    start: ObjectId,
    current: ObjectId,
    visited: Set<ObjectId>,
    tags: Seq<AnnotatedTag>,
    maximum: usize,
)
    requires
        tags.len() <= maximum,
        behind_tags(objects, start, tags.len()) == Some(current),
        forall|oid: ObjectId| #[trigger]
            visited.contains(oid) <==> exists|n: nat|
                n < tags.len() && #[trigger] behind_tags(objects, start, n) == Some(oid),
        forall|n: nat|
            n < tags.len() ==> {
                &&& (#[trigger] behind_tags(objects, start, n)) is Some
                &&& objects[behind_tags(objects, start, n)->0] == (PeelObject::Tag {
                    tag: tags[n as int],
                })
            },
        tags.len() > 0 ==> no_tag_repeats(objects, start, (tags.len() - 1) as nat),
    ensures
        match peel_from(objects, current, visited, tags, maximum) {
            Peeled::Commit(commit, found) => {
                &&& found.len() <= maximum
                &&& behind_tags(objects, start, found.len()) == Some(commit)
                &&& objects[commit] == PeelObject::Commit
                &&& forall|n: nat|
                    n < found.len() ==> {
                        &&& (#[trigger] behind_tags(objects, start, n)) is Some
                        &&& objects[behind_tags(objects, start, n)->0] == (PeelObject::Tag {
                            tag: found[n as int],
                        })
                    }
            },
            Peeled::NotCommit => exists|n: nat|
                n <= maximum && (#[trigger] behind_tags(objects, start, n)) is Some
                    && objects[behind_tags(objects, start, n)->0] == PeelObject::Other,
            Peeled::TooDeep => {
                &&& behind_tags(objects, start, maximum as nat) is Some
                &&& objects[behind_tags(objects, start, maximum as nat)->0] is Tag
                &&& no_tag_repeats(objects, start, maximum as nat)
            },
            Peeled::Cycle => exists|m: nat, n: nat|
                m < n <= maximum && (#[trigger] behind_tags(objects, start, n)) is Some
                    && #[trigger] behind_tags(objects, start, m) == behind_tags(objects, start, n),
        },
    decreases maximum - tags.len(),
{
    let count = tags.len();
    if visited.contains(current) {
        let m = choose|m: nat|
            m < tags.len() && #[trigger] behind_tags(objects, start, m) == Some(current);
        assert(behind_tags(objects, start, count) is Some);
        assert(behind_tags(objects, start, m) == behind_tags(objects, start, count));
    } else {
        assert(no_tag_repeats(objects, start, count)) by {
            assert forall|m: nat, n: nat| m < n <= count implies #[trigger] behind_tags(
                objects,
                start,
                m,
            ) != #[trigger] behind_tags(objects, start, n) by {
                if n == count {
                    if behind_tags(objects, start, m) == Some(current) {
                        assert(visited.contains(current));
                    }
                } else {
                    assert(n <= count - 1);
                }
            }
        }
        match objects[current] {
            PeelObject::Commit => {},
            PeelObject::Other => {
                assert(behind_tags(objects, start, count) is Some);
            },
            PeelObject::Tag { tag } => {
                if count < maximum {
                    let more = tags.push(tag);
                    let passed = visited.insert(current);
                    assert(behind_tags(objects, start, more.len()) == Some(tag.target));
                    assert forall|oid: ObjectId| #[trigger] passed.contains(oid) <==> exists|
                        n: nat,
                    |
                        n < more.len() && #[trigger] behind_tags(objects, start, n) == Some(oid) by {
                        if visited.contains(oid) {
                            let n = choose|n: nat|
                                n < tags.len() && #[trigger] behind_tags(objects, start, n) == Some(
                                    oid,
                                );
                            assert(n < more.len());
                        }
                        if oid == current {
                            assert(behind_tags(objects, start, count) == Some(oid));
                        }
                        if exists|n: nat|
                            n < more.len() && #[trigger] behind_tags(objects, start, n) == Some(
                                oid,
                            ) {
                            let n = choose|n: nat|
                                n < more.len() && #[trigger] behind_tags(objects, start, n) == Some(
                                    oid,
                                );
                            if n < count {
                                assert(visited.contains(oid));
                            }
                        }
                    }
                    assert forall|n: nat| n < more.len() implies (#[trigger] behind_tags(
                        objects,
                        start,
                        n,
                    )) is Some && objects[behind_tags(objects, start, n)->0] == (PeelObject::Tag {
                        tag: more[n as int],
                    }) by {
                        if n < count {
                            assert(more[n as int] == tags[n as int]);
                        }
                    }
                    lemma_peeled(objects, start, tag.target, passed, more, maximum);
                }
            },
        }
    }
}

/// Peeling follows the tags from an object, each to its target, until it meets a commit,
/// and returns that commit with every tag it followed, in order and no more than are
/// allowed. It refuses a chain that meets anything else first, that meets an object
/// twice, or that is longer than allowed, and it refuses for no other reason.
pub proof fn peeling_follows_tags_to_a_commit(
    objects: Map<ObjectId, PeelObject>,
    start: ObjectId,
    maximum: usize,
)
    ensures
        match peel(objects, start, maximum) {
            Peeled::Commit(commit, tags) => {
                &&& tags.len() <= maximum
                &&& behind_tags(objects, start, tags.len()) == Some(commit)
                &&& objects[commit] == PeelObject::Commit
                &&& forall|n: nat|
                    n < tags.len() ==> {
                        &&& (#[trigger] behind_tags(objects, start, n)) is Some
                        &&& objects[behind_tags(objects, start, n)->0] == (PeelObject::Tag {
                            tag: tags[n as int],
                        })
                    }
            },
            Peeled::NotCommit => exists|n: nat|
                n <= maximum && (#[trigger] behind_tags(objects, start, n)) is Some
                    && objects[behind_tags(objects, start, n)->0] == PeelObject::Other,
            Peeled::TooDeep => {
                &&& behind_tags(objects, start, maximum as nat) is Some
                &&& objects[behind_tags(objects, start, maximum as nat)->0] is Tag
                &&& no_tag_repeats(objects, start, maximum as nat)
            },
            Peeled::Cycle => exists|m: nat, n: nat|
                m < n <= maximum && (#[trigger] behind_tags(objects, start, n)) is Some
                    && #[trigger] behind_tags(objects, start, m) == behind_tags(objects, start, n),
        },
{
    lemma_peeled(objects, start, start, Set::empty(), Seq::empty(), maximum);
}

proof fn lemma_hops_stay(
    objects: Map<ObjectId, PeelObject>,
    start: ObjectId,
    m: nat,
    n: nat,
)
    requires
        m < n,
        behind_tags(objects, start, n) is Some,
    ensures
        behind_tags(objects, start, m) is Some,
        objects[behind_tags(objects, start, m)->0] is Tag,
    decreases n - m,
{
    if m + 1 < n {
        lemma_hops_stay(objects, start, m + 1, n);
    }
}

/// A commit that so few tags lead to, as are allowed, is always what peeling returns.
pub proof fn a_commit_behind_few_tags_is_peeled(
    objects: Map<ObjectId, PeelObject>,
    start: ObjectId,
    maximum: usize,
    count: nat,
)
    requires
        count <= maximum,
        behind_tags(objects, start, count) is Some,
        objects[behind_tags(objects, start, count)->0] == PeelObject::Commit,
    ensures
        peel(objects, start, maximum) matches Peeled::Commit(commit, tags) && Some(commit)
            == behind_tags(objects, start, count) && tags.len() == count,
{
    peeling_follows_tags_to_a_commit(objects, start, maximum);
    match peel(objects, start, maximum) {
        Peeled::Commit(commit, tags) => {
            if tags.len() < count {
                lemma_hops_stay(objects, start, tags.len(), count);
            } else if count < tags.len() {
                lemma_hops_stay(objects, start, count, tags.len());
            }
        },
        Peeled::NotCommit => {
            let n = choose|n: nat|
                n <= maximum && (#[trigger] behind_tags(objects, start, n)) is Some
                    && objects[behind_tags(objects, start, n)->0] == PeelObject::Other;
            if n < count {
                lemma_hops_stay(objects, start, n, count);
            } else if count < n {
                lemma_hops_stay(objects, start, count, n);
            }
        },
        Peeled::TooDeep => {
            if count < maximum {
                lemma_hops_stay(objects, start, count, maximum as nat);
            }
        },
        Peeled::Cycle => {
            let (m, n) = choose|m: nat, n: nat|
                m < n <= maximum && (#[trigger] behind_tags(objects, start, n)) is Some
                    && #[trigger] behind_tags(objects, start, m) == behind_tags(objects, start, n);
            if count < n {
                lemma_hops_stay(objects, start, count, n);
            } else {
                lemma_hops_shift(objects, start, m, n, (count - n) as nat);
                let back = (m + (count - n)) as nat;
                assert(behind_tags(objects, start, back) == behind_tags(objects, start, count));
                lemma_hops_stay(objects, start, back, count);
            }
        },
    }
}

proof fn lemma_hops_shift(
    objects: Map<ObjectId, PeelObject>,
    start: ObjectId,
    m: nat,
    n: nat,
    more: nat,
)
    requires
        behind_tags(objects, start, m) == behind_tags(objects, start, n),
    ensures
        behind_tags(objects, start, m + more) == behind_tags(objects, start, n + more),
    decreases more,
{
    if more > 0 {
        lemma_hops_shift(objects, start, m, n, (more - 1) as nat);
    }
}

/// The objects and tags met on the way to a commit.
pub struct TagPeelState {
    maximum: usize,
    visited: IdMap<ObjectId, ()>,
    tags: Vec<AnnotatedTag>,
}

impl TagPeelState {
    pub closed spec fn maximum(self) -> usize {
        self.maximum
    }

    /// The objects met so far.
    pub closed spec fn visited(self) -> Set<ObjectId> {
        self.visited.contents().dom()
    }

    /// The tags followed so far.
    pub closed spec fn tags(self) -> Seq<AnnotatedTag> {
        self.tags@
    }

    pub closed spec fn wf(self) -> bool {
        self.visited.wf()
    }

    /// Begin with an allowance of tags.
    pub fn new(maximum: usize) -> (result: TagPeelState)
        ensures
            result.wf(),
            result.maximum() == maximum,
            result.visited() == Set::<ObjectId>::empty(),
            result.tags() == Seq::<AnnotatedTag>::empty(),
    {
        let result = TagPeelState { maximum, visited: IdMap::new(), tags: Vec::new() };
        assert(result.visited() =~= Set::<ObjectId>::empty());
        result
    }

    /// Meet an object; meeting it again is a cycle.
    pub fn visit(&mut self, oid: ObjectId) -> (result: Result<(), Error>)
        requires
            old(self).wf(),
        ensures
            final(self).wf(),
            final(self).maximum() == old(self).maximum(),
            final(self).tags() == old(self).tags(),
            final(self).visited() == old(self).visited().insert(oid),
            result == (if old(self).visited().contains(oid) {
                Err::<(), Error>(Error::Revision { reason: RevisionError::TagCycle })
            } else {
                Ok(())
            }),
    {
        if self.visited.insert(oid, ()) {
            assert(self.visited() =~= old(self).visited().insert(oid));
            Ok(())
        } else {
            assert(self.visited() =~= old(self).visited().insert(oid));
            Err(Error::Revision { reason: RevisionError::TagCycle })
        }
    }

    /// Follow a tag, if the allowance permits one more.
    pub fn push(&mut self, tag: AnnotatedTag) -> (result: Result<(), Error>)
        requires
            old(self).wf(),
        ensures
            final(self).wf(),
            final(self).maximum() == old(self).maximum(),
            final(self).visited() == old(self).visited(),
            if old(self).tags().len() >= old(self).maximum() {
                &&& result == Err::<(), Error>(Error::Revision { reason: RevisionError::TagDepth })
                &&& final(self).tags() == old(self).tags()
            } else {
                &&& result == Ok::<(), Error>(())
                &&& final(self).tags() == old(self).tags().push(tag)
            },
    {
        if self.tags.len() >= self.maximum {
            return Err(Error::Revision { reason: RevisionError::TagDepth });
        }
        self.tags.push(tag);
        Ok(())
    }
}

/// The objects that were read on the way to a commit.
pub type PeelLog = Seq<(ObjectId, PeelObject)>;

/// The way from an object through tags to a commit.
pub struct PeelWalk {
    current: ObjectId,
    state: TagPeelState,
    met: bool,
    start: Ghost<ObjectId>,
    passed: Ghost<Set<ObjectId>>,
    log: Ghost<PeelLog>,
}

impl PeelWalk {
    pub closed spec fn start(self) -> ObjectId {
        self.start@
    }

    pub closed spec fn maximum(self) -> usize {
        self.state.maximum()
    }

    /// The object to read next.
    pub closed spec fn current(self) -> ObjectId {
        self.current
    }

    /// The tags followed so far.
    pub closed spec fn tags(self) -> Seq<AnnotatedTag> {
        self.state.tags()
    }

    /// The objects passed so far.
    pub closed spec fn passed(self) -> Set<ObjectId> {
        self.passed@
    }

    /// Whether the object to read next has been met.
    pub closed spec fn met(self) -> bool {
        self.met
    }

    /// The objects read so far.
    pub closed spec fn log(self) -> PeelLog {
        self.log@
    }

    pub closed spec fn wf(self) -> bool {
        &&& self.state.wf()
        &&& self.met ==> !self.passed@.contains(self.current) && self.state.visited()
            == self.passed@.insert(self.current)
        &&& !self.met ==> self.state.visited() == self.passed@
        &&& forall|objects: Map<ObjectId, PeelObject>| #[trigger]
            crate::replies::answers(self.log@, objects) ==> peel(
                objects,
                self.start@,
                self.state.maximum(),
            ) == peel_from(
                objects,
                self.current,
                self.passed@,
                self.state.tags(),
                self.state.maximum(),
            )
    }

    /// Whatever else the store holds, the tags lead to this.
    pub open spec fn leads_to(self, outcome: Peeled) -> bool {
        forall|objects: Map<ObjectId, PeelObject>| #[trigger]
            crate::replies::answers(self.log(), objects) ==> peel(
                objects,
                self.start(),
                self.maximum(),
            ) == outcome
    }

    /// Begin at an object.
    pub fn new(start: ObjectId, maximum: usize) -> (result: PeelWalk)
        ensures
            result.wf(),
            result.start() == start,
            result.maximum() == maximum,
            result.current() == start,
            result.tags() == Seq::<AnnotatedTag>::empty(),
            result.passed() == Set::<ObjectId>::empty(),
            !result.met(),
            result.log() == PeelLog::empty(),
    {
        PeelWalk {
            current: start,
            state: TagPeelState::new(maximum),
            met: false,
            start: Ghost(start),
            passed: Ghost(Set::empty()),
            log: Ghost(Seq::empty()),
        }
    }

    /// The next object to read; an object that was passed before is a cycle.
    pub fn next(&mut self) -> (result: Result<ObjectId, Error>)
        requires
            old(self).wf(),
            !old(self).met(),
        ensures
            final(self).start() == old(self).start(),
            final(self).maximum() == old(self).maximum(),
            final(self).current() == old(self).current(),
            final(self).tags() == old(self).tags(),
            final(self).passed() == old(self).passed(),
            final(self).log() == old(self).log(),
            if old(self).passed().contains(old(self).current()) {
                &&& result == Err::<ObjectId, Error>(
                    Error::Revision { reason: RevisionError::TagCycle },
                )
                &&& final(self).leads_to(Peeled::Cycle)
            } else {
                &&& result == Ok::<ObjectId, Error>(old(self).current())
                &&& final(self).wf()
                &&& final(self).met()
            },
    {
        self.state.visit(self.current)?;
        self.met = true;
        Ok(self.current)
    }

    /// Hand back the object that was asked for. A commit ends the way; anything
    /// but a commit or a tag, and one tag too many, is refused.
    pub fn accept(&mut self, object: PeelObject) -> (result: Result<Option<ObjectId>, Error>)
        requires
            old(self).wf(),
            old(self).met(),
        ensures
            final(self).start() == old(self).start(),
            final(self).maximum() == old(self).maximum(),
            final(self).log() == old(self).log().push((old(self).current(), object)),
            match object {
                PeelObject::Commit => {
                    &&& result == Ok::<Option<ObjectId>, Error>(Some(old(self).current()))
                    &&& final(self).tags() == old(self).tags()
                    &&& final(self).leads_to(
                        Peeled::Commit(old(self).current(), old(self).tags()),
                    )
                },
                PeelObject::Other => {
                    &&& result == Err::<Option<ObjectId>, Error>(
                        Error::Revision { reason: RevisionError::NotCommit },
                    )
                    &&& final(self).leads_to(Peeled::NotCommit)
                },
                PeelObject::Tag { tag } => if old(self).tags().len() >= old(self).maximum() {
                    &&& result == Err::<Option<ObjectId>, Error>(
                        Error::Revision { reason: RevisionError::TagDepth },
                    )
                    &&& final(self).leads_to(Peeled::TooDeep)
                } else {
                    &&& result == Ok::<Option<ObjectId>, Error>(None)
                    &&& final(self).wf()
                    &&& !final(self).met()
                    &&& final(self).current() == tag.target
                    &&& final(self).tags() == old(self).tags().push(tag)
                    &&& final(self).passed() == old(self).passed().insert(old(self).current())
                },
            },
    {
        let ghost before = *self;
        self.log = Ghost(before.log@.push((before.current, object)));
        proof {
            assert forall|objects: Map<ObjectId, PeelObject>| #[trigger]
                crate::replies::answers(self.log@, objects) implies objects[before.current]
                == object && peel(objects, self.start@, self.state.maximum()) == peel_from(
                objects,
                before.current,
                before.passed@,
                before.state.tags(),
                before.state.maximum(),
            ) by {
                crate::replies::answers_earlier_questions(
                    before.log@,
                    before.current,
                    object,
                    objects,
                );
            }
        }
        match object {
            PeelObject::Commit => Ok(Some(self.current)),
            PeelObject::Other => Err(Error::Revision { reason: RevisionError::NotCommit }),
            PeelObject::Tag { tag } => {
                let target = tag.target;
                self.state.push(tag)?;
                self.passed = Ghost(before.passed@.insert(before.current));
                self.current = target;
                self.met = false;
                Ok(None)
            },
        }
    }

    /// Take the tags that were followed.
    pub fn into_tags(self) -> (tags: Vec<AnnotatedTag>)
        ensures
            tags@ == self.tags(),
    {
        self.state.tags
    }
}

/// The root that a reference contributes to reachability: its commit, or nothing
/// for a tag of something else. A recorded peeled object must be that commit.
pub fn reference_root(reference: &RepositoryRef, peeled: Result<ObjectId, Error>) -> (result: Result<
    Option<ObjectId>,
    Error,
>)
    ensures
        result == (match peeled {
            Ok(commit) => if reference.peeled is Some && reference.peeled != Some(commit) {
                Err::<Option<ObjectId>, Error>(Error::Corrupt { stage: CorruptionStage::Tag })
            } else {
                Ok(Some(commit))
            },
            Err(error) => if error == (Error::Revision { reason: RevisionError::NotCommit })
                && crate::refs::begins_with(reference.name@, "refs/tags/"@) {
                Ok(None)
            } else {
                Err(error)
            },
        }),
{
    match peeled {
        Ok(commit) => {
            if let Some(expected) = reference.peeled {
                if expected != commit {
                    return Err(Error::Corrupt { stage: CorruptionStage::Tag });
                }
            }
            Ok(Some(commit))
        },
        Err(error) => {
            if let Error::Revision { reason } = error {
                if reason == RevisionError::NotCommit && has_prefix(
                    reference.name.as_str(),
                    "refs/tags/",
                ) {
                    return Ok(None);
                }
            }
            Err(error)
        },
    }
}

/// Accept a resolved commit only if it is the one that was recorded.
pub fn check_peeled(expected: Option<ObjectId>, commit: ObjectId) -> (result: Result<(), Error>)
    ensures
        result == (if expected is Some && expected != Some(commit) {
            Err::<(), Error>(Error::Corrupt { stage: CorruptionStage::Tag })
        } else {
            Ok(())
        }),
{
    match expected {
        Some(oid) => if oid != commit {
            Err(Error::Corrupt { stage: CorruptionStage::Tag })
        } else {
            Ok(())
        },
        None => Ok(()),
    }
}

/// What a walk says the tags lead to is what peeling finds in every store that gives the
/// answers which the walk was given.
pub proof fn a_walk_ends_where_the_tags_lead(
    walk: PeelWalk,
    outcome: Peeled,
    objects: Map<ObjectId, PeelObject>,
)
    requires
        walk.leads_to(outcome),
        forall|i: int|
            0 <= i < walk.log().len() ==> objects[(#[trigger] walk.log()[i]).0] == walk.log()[i].1,
    ensures
        peel(objects, walk.start(), walk.maximum()) == outcome,
{
    assert(crate::replies::answers(walk.log(), objects));
}

} // verus!
