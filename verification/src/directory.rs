use vstd::prelude::*;

use crate::error::{CursorError, Error};
use crate::memory::reserve_exact;
use crate::model::{Page, TreeEntry};
use crate::oid::{EntryKind, ObjectId};
use crate::path::{copy_bytes, same_bytes, GitPath};

verus! {

/// Where a directory listing continues.
#[derive(Debug, PartialEq, Eq)]
pub struct DirectoryCursor {
    pub commit: ObjectId,
    pub tree: ObjectId,
    pub path: Vec<u8>,
    pub limit: u64,
    pub last_name: Vec<u8>,
}

/// Whether a listing carries blob sizes.
#[derive(Debug, Clone, Copy, PartialEq, Eq, Structural)]
pub enum DirectoryMetadata {
    Omitted,
    BlobSizes,
}

impl DirectoryCursor {
    /// Whether the cursor was issued for this directory and page shape.
    pub open spec fn belongs_to(
        self,
        commit: ObjectId,
        tree: ObjectId,
        path: Seq<u8>,
        limit: usize,
    ) -> bool {
        self.commit == commit && self.tree == tree && self.limit == limit && self.path@ == path
    }
}

/// A cursor belongs to the commit, the tree, the path and the page size that it was given
/// out for, and to no others.
pub proof fn what_a_cursor_belongs_to(
    cursor: DirectoryCursor,
    commit: ObjectId,
    tree: ObjectId,
    path: Seq<u8>,
    limit: usize,
)
    ensures
        cursor.belongs_to(commit, tree, path, limit) <==> {
            &&& cursor.commit == commit
            &&& cursor.tree == tree
            &&& cursor.path@ == path
            &&& cursor.limit == limit
        },
{
}

/// Accept a continuation only for the directory and page shape it came from.
pub fn check_directory_cursor(
    cursor: &DirectoryCursor,
    commit: ObjectId,
    tree: ObjectId,
    path: &GitPath,
    limit: usize,
) -> (result: Result<(), Error>)
    ensures
        result == (if cursor.belongs_to(commit, tree, path@, limit) {
            Ok::<(), Error>(())
        } else {
            Err(Error::InvalidCursor { reason: CursorError::ContextMismatch })
        }),
{
    if cursor.commit != commit || cursor.tree != tree || cursor.limit != limit as u64
        || !same_bytes(cursor.path.as_slice(), path.as_bytes()) {
        Err(Error::InvalidCursor { reason: CursorError::ContextMismatch })
    } else {
        Ok(())
    }
}

/// The index behind the first entry with a name, searched from an index on.
pub open spec fn index_behind(entries: Seq<TreeEntry>, name: Seq<u8>, from: int) -> Option<int>
    decreases entries.len() - from,
{
    if from < 0 || from >= entries.len() {
        None
    } else if crate::path::file_name(entries[from].path@) == Some(name) {
        Some(from + 1)
    } else {
        index_behind(entries, name, from + 1)
    }
}

/// Where a listing resumes.
pub open spec fn resume_index(entries: Seq<TreeEntry>, after: Option<Seq<u8>>) -> Option<int> {
    match after {
        None => Some(0),
        Some(name) => index_behind(entries, name, 0),
    }
}

/// At most `limit` entries from an index on.
pub open spec fn listed(entries: Seq<TreeEntry>, from: int, limit: int) -> Seq<TreeEntry> {
    entries.subrange(
        from,
        if from + limit <= entries.len() {
            from + limit
        } else {
            entries.len() as int
        },
    )
}

proof fn lemma_index_behind(entries: Seq<TreeEntry>, name: Seq<u8>, from: int)
    requires
        0 <= from,
    ensures
        index_behind(entries, name, from) matches Some(at) ==> from < at <= entries.len()
            && crate::path::file_name(entries[at - 1].path@) == Some(name),
    decreases entries.len() - from,
{
    if from < entries.len() && crate::path::file_name(entries[from].path@) != Some(name) {
        lemma_index_behind(entries, name, from + 1);
    }
}

/// No two entries share a name.
pub open spec fn names_are_distinct(entries: Seq<TreeEntry>) -> bool {
    &&& forall|i: int|
        0 <= i < entries.len() ==> crate::path::file_name((#[trigger] entries[i]).path@) is Some
    &&& forall|i: int, j: int|
        0 <= i < j < entries.len() ==> crate::path::file_name((#[trigger] entries[i]).path@)
            != crate::path::file_name((#[trigger] entries[j]).path@)
}

proof fn lemma_resumes_at(entries: Seq<TreeEntry>, at: int, from: int)
    requires
        names_are_distinct(entries),
        0 <= from < at <= entries.len(),
    ensures
        index_behind(entries, crate::path::file_name(entries[at - 1].path@)->0, from) == Some(at),
    decreases at - from,
{
    if from < at - 1 {
        lemma_resumes_at(entries, at, from + 1);
    }
}

/// A continuation resumes exactly behind the last entry shown, in the order of
/// the tree and whatever names its neighbours have; so the pages of a directory,
/// put together, list every entry once.
pub proof fn directory_pages_continue(
    entries: Seq<TreeEntry>,
    from: int,
    first: int,
    second: int,
)
    requires
        names_are_distinct(entries),
        0 <= from,
        0 < first,
        0 <= second,
        from + first < entries.len(),
    ensures
        resume_index(
            entries,
            crate::path::file_name(listed(entries, from, first).last().path@),
        ) == Some(from + first),
        listed(entries, from, first) + listed(entries, from + first, second) == listed(
            entries,
            from,
            first + second,
        ),
{
    lemma_resumes_at(entries, from + first, 0);
    assert(listed(entries, from, first).last() == entries[from + first - 1]);
    assert(listed(entries, from, first) + listed(entries, from + first, second) =~= listed(
        entries,
        from,
        first + second,
    ));
}

/// Whether there was room for a page of a size.
pub open spec fn room_for_page(limit: usize) -> bool {
    crate::memory::granted_exactly::<TreeEntry>(limit)
}

/// Why a page that resumes at an index, or nowhere, could not be taken: room is asked
/// for before the entry to resume behind is looked for.
pub open spec fn page_refused(resumed: Option<int>, limit: usize, error: Error) -> bool {
    ||| crate::memory::refused_exactly::<TreeEntry>(limit, error)
    ||| room_for_page(limit) && resumed is None && error == (Error::InvalidCursor {
        reason: CursorError::ContextMismatch,
    })
}

/// Where a page resumes, if its cursor belongs to the directory and its entry is there.
pub open spec fn resumes(
    commit: ObjectId,
    tree: ObjectId,
    path: Seq<u8>,
    entries: Seq<TreeEntry>,
    limit: usize,
    after: Option<DirectoryCursor>,
) -> Option<int> {
    match after {
        None => Some(0),
        Some(cursor) => if cursor.belongs_to(commit, tree, path, limit) {
            resume_index(entries, Some(cursor.last_name@))
        } else {
            None
        },
    }
}

/// What a page of a directory comes to. A cursor of another directory is refused
/// before anything else.
pub open spec fn is_directory_page(
    commit: ObjectId,
    tree: ObjectId,
    path: Seq<u8>,
    entries: Seq<TreeEntry>,
    limit: usize,
    after: Option<DirectoryCursor>,
    result: Result<Page<TreeEntry, DirectoryCursor>, Error>,
) -> bool {
    let resumed = resumes(commit, tree, path, entries, limit, after);
    if after is Some && !(after->0).belongs_to(commit, tree, path, limit) {
        result == Err::<Page<TreeEntry, DirectoryCursor>, Error>(
            Error::InvalidCursor { reason: CursorError::ContextMismatch },
        )
    } else {
        match result {
            Ok(page) => {
                &&& room_for_page(limit)
                &&& resumed matches Some(from)
                &&& page.items@ == listed(entries, from, limit as int)
                &&& page.next is Some <==> entries.len() > from + limit && limit > 0
                    && page.items@.last().path@.len() > 0
                &&& page.next matches Some(cursor) ==> {
                    &&& cursor.belongs_to(commit, tree, path, limit)
                    &&& crate::path::file_name(page.items@.last().path@) == Some(cursor.last_name@)
                }
            },
            Err(error) => page_refused(resumed, limit, error),
        }
    }
}

proof fn lemma_first_named(entries: Seq<TreeEntry>, name: Seq<u8>, from: int)
    requires
        0 <= from,
    ensures
        match index_behind(entries, name, from) {
            Some(at) => {
                &&& from < at <= entries.len()
                &&& crate::path::file_name(entries[at - 1].path@) == Some(name)
                &&& forall|k: int|
                    from <= k < at - 1 ==> crate::path::file_name((#[trigger] entries[k]).path@)
                        != Some(name)
            },
            None => forall|k: int|
                from <= k < entries.len() ==> crate::path::file_name(
                    (#[trigger] entries[k]).path@,
                ) != Some(name),
        },
    decreases entries.len() - from,
{
    if from < entries.len() && crate::path::file_name(entries[from].path@) != Some(name) {
        lemma_first_named(entries, name, from + 1);
    }
}

/// A listing without a cursor begins with the first entry, and one with a cursor begins
/// behind the entry that the cursor names; it shows the entries from there on in their
/// order, as many as fit, and goes on exactly if entries are left, behind the last one
/// shown and for this very directory and page size.
pub proof fn what_a_page_of_a_directory_shows(
    commit: ObjectId,
    tree: ObjectId,
    path: Seq<u8>,
    entries: Seq<TreeEntry>,
    limit: usize,
    after: Option<DirectoryCursor>,
    page: Page<TreeEntry, DirectoryCursor>,
) -> (from: int)
    requires
        is_directory_page(commit, tree, path, entries, limit, after, Ok(page)),
    ensures
        0 <= from <= entries.len(),
        after is None ==> from == 0,
        after matches Some(cursor) ==> {
            &&& cursor.commit == commit && cursor.tree == tree && cursor.limit == limit
                && cursor.path@ == path
            &&& from > 0 && crate::path::file_name(entries[from - 1].path@) == Some(
                cursor.last_name@,
            )
            &&& forall|k: int|
                0 <= k < from - 1 ==> crate::path::file_name((#[trigger] entries[k]).path@)
                    != Some(cursor.last_name@)
        },
        page.items@.len() == (if entries.len() - from <= limit {
            entries.len() - from
        } else {
            limit as int
        }),
        forall|i: int|
            0 <= i < page.items@.len() ==> #[trigger] page.items@[i] == entries[from + i],
        page.next is Some ==> entries.len() > from + limit,
        limit > 0 && entries.len() > from + limit && page.items@.last().path@.len() > 0
            ==> page.next is Some,
        page.next matches Some(cursor) ==> {
            &&& cursor.commit == commit && cursor.tree == tree && cursor.limit == limit
                && cursor.path@ == path
            &&& crate::path::file_name(entries[from + limit - 1].path@) == Some(cursor.last_name@)
        },
{
    if let Some(cursor) = after {
        lemma_first_named(entries, cursor.last_name@, 0);
    }
    let from = resumes(commit, tree, path, entries, limit, after)->0;
    let items = listed(entries, from, limit as int);
    assert(items.len() > 0 ==> items.last() == entries[from + items.len() - 1]);
    from
}

/// A page is refused for its cursor exactly if the cursor was given out for another
/// commit, tree, path or page size, or names no entry of the directory; otherwise only
/// for want of room.
pub proof fn when_a_page_of_a_directory_is_refused(
    commit: ObjectId,
    tree: ObjectId,
    path: Seq<u8>,
    entries: Seq<TreeEntry>,
    limit: usize,
    after: Option<DirectoryCursor>,
    result: Result<Page<TreeEntry, DirectoryCursor>, Error>,
)
    requires
        is_directory_page(commit, tree, path, entries, limit, after, result),
    ensures
        ({
            let foreign = after matches Some(cursor) && (cursor.commit != commit || cursor.tree
                != tree || cursor.limit != limit || cursor.path@ != path);
            let lost = after matches Some(cursor) && forall|k: int|
                0 <= k < entries.len() ==> crate::path::file_name((#[trigger] entries[k]).path@)
                    != Some(cursor.last_name@);
            &&& foreign ==> result == Err::<Page<TreeEntry, DirectoryCursor>, Error>(
                Error::InvalidCursor { reason: CursorError::ContextMismatch },
            )
            &&& lost ==> result is Err
            &&& result == Err::<Page<TreeEntry, DirectoryCursor>, Error>(
                Error::InvalidCursor { reason: CursorError::ContextMismatch },
            ) ==> foreign || lost
            &&& result is Err && !foreign && !lost ==> crate::memory::refused_exactly::<TreeEntry>(
                limit,
                result->Err_0,
            )
        }),
{
    if let Some(cursor) = after {
        lemma_first_named(entries, cursor.last_name@, 0);
    }
}

/// Where a page of a chain begins: where the page before it continues.
pub open spec fn chain_after(
    pages: Seq<Page<TreeEntry, DirectoryCursor>>,
    at: int,
) -> Option<DirectoryCursor> {
    if at <= 0 {
        None
    } else {
        pages[at - 1].next
    }
}

/// Pages of one size from the beginning of a directory, each continuing the one before
/// it, up to the page that continues nowhere.
pub open spec fn is_directory_chain(
    commit: ObjectId,
    tree: ObjectId,
    path: Seq<u8>,
    entries: Seq<TreeEntry>,
    limit: usize,
    pages: Seq<Page<TreeEntry, DirectoryCursor>>,
) -> bool {
    &&& pages.len() > 0
    &&& forall|i: int|
        0 <= i < pages.len() ==> is_directory_page(
            commit,
            tree,
            path,
            entries,
            limit,
            chain_after(pages, i),
            Ok::<Page<TreeEntry, DirectoryCursor>, Error>(#[trigger] pages[i]),
        )
    &&& forall|i: int|
        0 <= i < pages.len() ==> ((#[trigger] pages[i]).next is Some <==> i < pages.len() - 1)
}

proof fn lemma_directory_page(
    commit: ObjectId,
    tree: ObjectId,
    path: Seq<u8>,
    entries: Seq<TreeEntry>,
    limit: usize,
    after: Option<DirectoryCursor>,
    from: int,
    page: Page<TreeEntry, DirectoryCursor>,
)
    requires
        limit > 0,
        names_are_distinct(entries),
        is_directory_page(
            commit,
            tree,
            path,
            entries,
            limit,
            after,
            Ok::<Page<TreeEntry, DirectoryCursor>, Error>(page),
        ),
        resumes(commit, tree, path, entries, limit, after) == Some(from),
        0 <= from <= entries.len(),
    ensures
        page.items@ == listed(entries, from, limit as int),
        page.next is Some <==> from + limit < entries.len(),
        page.next is Some ==> resumes(commit, tree, path, entries, limit, page.next) == Some(
            from + limit,
        ),
        entries.take(from) + page.items@ == entries.take(
            if from + limit < entries.len() {
                from + limit
            } else {
                entries.len() as int
            },
        ),
{
    if from < entries.len() {
        assert(page.items@.last() == entries[from + page.items@.len() - 1]);
        assert(crate::path::file_name(page.items@.last().path@) is Some);
    }
    if page.next is Some {
        directory_pages_continue(entries, from, limit as int, 0);
    }
    assert(entries.take(from) + page.items@ =~= entries.take(
        if from + limit < entries.len() {
            from + limit
        } else {
            entries.len() as int
        },
    ));
}

proof fn lemma_directory_chain(
    commit: ObjectId,
    tree: ObjectId,
    path: Seq<u8>,
    entries: Seq<TreeEntry>,
    limit: usize,
    pages: Seq<Page<TreeEntry, DirectoryCursor>>,
    at: int,
) -> (from: int)
    requires
        limit > 0,
        names_are_distinct(entries),
        is_directory_chain(commit, tree, path, entries, limit, pages),
        0 <= at < pages.len(),
    ensures
        0 <= from <= entries.len(),
        crate::model::shown_by(pages.take(at)) == entries.take(from),
        resumes(commit, tree, path, entries, limit, chain_after(pages, at)) == Some(from),
    decreases at,
{
    if at == 0 {
        crate::model::one_more_page_is_shown(pages, 1);
        assert(entries.take(0) =~= Seq::empty());
        0
    } else {
        let earlier = lemma_directory_chain(commit, tree, path, entries, limit, pages, at - 1);
        let page = pages[at - 1];
        lemma_directory_page(
            commit,
            tree,
            path,
            entries,
            limit,
            chain_after(pages, at - 1),
            earlier,
            page,
        );
        crate::model::one_more_page_is_shown(pages, at);
        earlier + limit
    }
}

/// The pages of a directory whose entries have distinct names, followed until there is
/// no next one, list every entry exactly once and in order; every page but the last is
/// full.
pub proof fn chained_pages_list_the_directory(
    commit: ObjectId,
    tree: ObjectId,
    path: Seq<u8>,
    entries: Seq<TreeEntry>,
    limit: usize,
    pages: Seq<Page<TreeEntry, DirectoryCursor>>,
)
    requires
        limit > 0,
        names_are_distinct(entries),
        is_directory_chain(commit, tree, path, entries, limit, pages),
    ensures
        crate::model::shown_by(pages) == entries,
        forall|i: int| 0 <= i < pages.len() - 1 ==> (#[trigger] pages[i]).items@.len() == limit,
{
    let at = pages.len() - 1;
    let from = lemma_directory_chain(commit, tree, path, entries, limit, pages, at);
    crate::model::one_more_page_is_shown(pages, pages.len() as int);
    let last = pages[at];
    lemma_directory_page(
        commit,
        tree,
        path,
        entries,
        limit,
        chain_after(pages, at),
        from,
        last,
    );
    assert(entries.take(entries.len() as int) =~= entries);
    assert forall|i: int| 0 <= i < pages.len() - 1 implies (#[trigger] pages[i]).items@.len()
        == limit by {
        let begun = lemma_directory_chain(commit, tree, path, entries, limit, pages, i);
        lemma_directory_page(
            commit,
            tree,
            path,
            entries,
            limit,
            chain_after(pages, i),
            begun,
            pages[i],
        );
    }
}

/// Take the entries of one page out of a directory, and learn whether more
/// follow. A continuation whose entry is not in the tree is refused, and so is a
/// page for which there is no memory.
pub fn select_directory_page(
    entries: Vec<TreeEntry>,
    after: Option<&[u8]>,
    limit: usize,
) -> (result: Result<(Vec<TreeEntry>, bool), Error>)
    ensures
        ({
            let resumed = resume_index(
                entries@,
                match after {
                    Some(name) => Some(name@),
                    None => None,
                },
            );
            match result {
                Ok((items, has_more)) => {
                    &&& room_for_page(limit)
                    &&& resumed matches Some(from)
                    &&& items@ == listed(entries@, from, limit as int)
                    &&& has_more == (entries@.len() > from + limit)
                },
                Err(error) => page_refused(resumed, limit, error),
            }
        }),
{
    let mut items: Vec<TreeEntry> = Vec::new();
    reserve_exact(&mut items, limit)?;
    fill_directory_page(entries, after, limit, items)
}

/// Move the entries of one page into an empty list that has been made for them, and
/// learn whether more follow.
pub fn fill_directory_page(
    entries: Vec<TreeEntry>,
    after: Option<&[u8]>,
    limit: usize,
    items: Vec<TreeEntry>,
) -> (result: Result<(Vec<TreeEntry>, bool), Error>)
    requires
        items@.len() == 0,
    ensures
        match resume_index(
            entries@,
            match after {
                Some(name) => Some(name@),
                None => None,
            },
        ) {
            Some(from) => {
                &&& result is Ok
                &&& (result->Ok_0).0@ == listed(entries@, from, limit as int)
                &&& (result->Ok_0).1 == (entries@.len() > from + limit)
            },
            None => result == Err::<(Vec<TreeEntry>, bool), Error>(
                Error::InvalidCursor { reason: CursorError::ContextMismatch },
            ),
        },
{
    let ghost all = entries@;
    let mut items = items;
    let mut entries = entries;
    let mut from: usize = 0;
    if let Some(name) = after {
        let mut found = false;
        while from < entries.len() && !found
            invariant
                entries@ == all,
                from <= all.len(),
                !found ==> index_behind(all, name@, 0) == index_behind(all, name@, from as int),
                found ==> index_behind(all, name@, 0) == Some(from as int),
            decreases all.len() - from,
        {
            found = entries[from].path.has_name(name);
            from += 1;
        }
        if !found {
            return Err(Error::InvalidCursor { reason: CursorError::ContextMismatch });
        }
    }
    let mut rest = entries.split_off(from);
    let has_more = rest.len() > limit;
    if has_more {
        rest.truncate(limit);
    }
    items.append(&mut rest);
    proof {
        assert(items@ =~= listed(all, from as int, limit as int));
    }
    Ok((items, has_more))
}

/// The continuation behind the last entry of a page, if more entries follow.
pub fn directory_cursor(
    commit: ObjectId,
    tree: ObjectId,
    path: &GitPath,
    limit: usize,
    items: &Vec<TreeEntry>,
    has_more: bool,
) -> (result: Option<DirectoryCursor>)
    ensures
        match result {
            Some(cursor) => {
                &&& has_more
                &&& items@.len() > 0
                &&& crate::path::file_name(items@.last().path@) == Some(cursor.last_name@)
                &&& cursor.belongs_to(commit, tree, path@, limit)
            },
            None => !has_more || items@.len() == 0 || items@.last().path@.len() == 0,
        },
{
    if !has_more || items.len() == 0 {
        return None;
    }
    match items[items.len() - 1].path.last_component() {
        None => None,
        Some(last_name) => Some(
            DirectoryCursor {
                commit,
                tree,
                path: copy_bytes(path.as_bytes()),
                limit: limit as u64,
                last_name,
            },
        ),
    }
}

/// One page of a directory whose entries have been read.
pub fn directory_page(
    commit: ObjectId,
    tree: ObjectId,
    path: &GitPath,
    entries: Vec<TreeEntry>,
    limit: usize,
    after: Option<&DirectoryCursor>,
) -> (result: Result<Page<TreeEntry, DirectoryCursor>, Error>)
    ensures
        is_directory_page(
            commit,
            tree,
            path@,
            entries@,
            limit,
            match after {
                Some(cursor) => Some(*cursor),
                None => None,
            },
            result,
        ),
{
    let mut name: Option<&[u8]> = None;
    if let Some(cursor) = after {
        check_directory_cursor(cursor, commit, tree, path, limit)?;
        name = Some(cursor.last_name.as_slice());
    }
    let ghost all = entries@;
    let (items, has_more) = select_directory_page(entries, name, limit)?;
    proof {
        if let Some(cursor) = after {
            lemma_index_behind(all, cursor.last_name@, 0);
        }
    }
    let next = directory_cursor(commit, tree, path, limit, &items, has_more);
    Ok(Page { items, next })
}

/// How many of the first `count` entries are backed by blobs.
pub open spec fn blobs_before(items: Seq<TreeEntry>, count: int) -> nat
    decreases count,
{
    if count <= 0 {
        0
    } else {
        blobs_before(items, count - 1) + (if items[count - 1].kind.blob_backed() {
            1nat
        } else {
            0nat
        })
    }
}

/// The blobs whose sizes a page shows, in the order of its entries.
pub fn blobs_to_size(items: &Vec<TreeEntry>) -> (oids: Vec<ObjectId>)
    ensures
        oids@.len() == blobs_before(items@, items@.len() as int),
        forall|i: int|
            0 <= i < items@.len() && (#[trigger] items@[i]).kind.blob_backed() ==> oids@[blobs_before(
                items@,
                i,
            ) as int] == items@[i].oid,
{
    let mut oids: Vec<ObjectId> = Vec::new();
    let mut at: usize = 0;
    while at < items.len()
        invariant
            at <= items@.len(),
            oids@.len() == blobs_before(items@, at as int),
            forall|i: int|
                0 <= i < at && (#[trigger] items@[i]).kind.blob_backed() ==> blobs_before(items@, i)
                    < oids@.len() && oids@[blobs_before(items@, i) as int] == items@[i].oid,
        decreases items@.len() - at,
    {
        if items[at].kind.is_blob_backed() {
            oids.push(items[at].oid);
        }
        at += 1;
    }
    oids
}

/// An entry with the size that was read for it.
pub open spec fn sized(items: Seq<TreeEntry>, sizes: Seq<u64>, at: int) -> TreeEntry {
    if items[at].kind.blob_backed() && blobs_before(items, at) < sizes.len() {
        TreeEntry { size: Some(sizes[blobs_before(items, at) as int]), ..items[at] }
    } else {
        items[at]
    }
}

proof fn lemma_blobs_grow(items: Seq<TreeEntry>, count: int, more: int)
    requires
        0 <= count <= more,
    ensures
        blobs_before(items, count) <= blobs_before(items, more),
    decreases more - count,
{
    if count < more {
        lemma_blobs_grow(items, count, more - 1);
    }
}

/// Whether an entry's object is that of a file or of a symbolic link.
pub open spec fn is_file_or_link() -> spec_fn(TreeEntry) -> bool {
    |item: TreeEntry| item.kind == EntryKind::Blob || item.kind == EntryKind::Symlink
}

/// The object of an entry.
pub open spec fn object_of() -> spec_fn(TreeEntry) -> ObjectId {
    |item: TreeEntry| item.oid
}

proof fn lemma_blobs_are_filtered(items: Seq<TreeEntry>, wanted: Seq<ObjectId>, count: int)
    requires
        0 <= count <= items.len(),
        wanted.len() == blobs_before(items, items.len() as int),
        forall|i: int|
            0 <= i < items.len() && (#[trigger] items[i]).kind.blob_backed()
                ==> wanted[blobs_before(items, i) as int] == items[i].oid,
    ensures
        blobs_before(items, count) <= wanted.len(),
        wanted.take(blobs_before(items, count) as int) == items.take(count).filter(
            is_file_or_link(),
        ).map_values(object_of()),
    decreases count,
{
    reveal(Seq::filter);
    let some = items.take(count).filter(is_file_or_link());
    let held = blobs_before(items, count) as int;
    lemma_blobs_grow(items, count, items.len() as int);
    if count > 0 {
        lemma_blobs_are_filtered(items, wanted, count - 1);
        let last = items[count - 1];
        let before = items.take(count - 1).filter(is_file_or_link());
        assert(items.take(count).drop_last() =~= items.take(count - 1));
        assert(items.take(count).last() == last);
        if last.kind.blob_backed() {
            assert(some == before.push(last));
            assert(some.map_values(object_of()) =~= before.map_values(object_of()).push(last.oid));
            assert(wanted[held - 1] == last.oid);
            assert(wanted.take(held) =~= wanted.take(held - 1).push(last.oid));
        } else {
            assert(some == before);
        }
    } else {
        assert(wanted.take(0) =~= some.map_values(object_of()));
    }
}

/// The blobs that a page asks the sizes of are those of its files and symbolic links, in
/// the order of the page; each of these entries is given the size that was read for its
/// own object, and no other entry is touched.
pub proof fn each_blob_is_given_its_own_size(
    items: Seq<TreeEntry>,
    wanted: Seq<ObjectId>,
    size: spec_fn(ObjectId) -> u64,
)
    requires
        wanted.len() == blobs_before(items, items.len() as int),
        forall|i: int|
            0 <= i < items.len() && (#[trigger] items[i]).kind.blob_backed()
                ==> wanted[blobs_before(items, i) as int] == items[i].oid,
    ensures
        wanted == items.filter(is_file_or_link()).map_values(object_of()),
        forall|i: int|
            0 <= i < items.len() ==> #[trigger] sized(items, wanted.map_values(size), i) == (
            if items[i].kind == EntryKind::Blob || items[i].kind == EntryKind::Symlink {
                TreeEntry { size: Some(size(items[i].oid)), ..items[i] }
            } else {
                items[i]
            }),
{
    let count = items.len() as int;
    lemma_blobs_are_filtered(items, wanted, count);
    assert(items.take(count) =~= items);
    assert(wanted.take(wanted.len() as int) =~= wanted);
    assert forall|i: int| 0 <= i < items.len() implies #[trigger] sized(
        items,
        wanted.map_values(size),
        i,
    ) == (if items[i].kind == EntryKind::Blob || items[i].kind == EntryKind::Symlink {
        TreeEntry { size: Some(size(items[i].oid)), ..items[i] }
    } else {
        items[i]
    }) by {
        if items[i].kind.blob_backed() {
            lemma_blobs_grow(items, i + 1, count);
            assert(wanted[blobs_before(items, i) as int] == items[i].oid);
        }
    }
}

/// Record the sizes of a page's blobs, given in the order of its entries.
pub fn record_blob_sizes(items: &mut Vec<TreeEntry>, sizes: &Vec<u64>)
    ensures
        final(items)@ == Seq::new(old(items)@.len(), |i: int| sized(old(items)@, sizes@, i)),
{
    let ghost before = items@;
    let mut at: usize = 0;
    let mut used: usize = 0;
    while at < items.len()
        invariant
            at <= items@.len(),
            items@.len() == before.len(),
            used <= sizes@.len(),
            used == (if blobs_before(before, at as int) < sizes@.len() {
                blobs_before(before, at as int) as int
            } else {
                sizes@.len() as int
            }),
            forall|i: int| 0 <= i < at ==> #[trigger] items@[i] == sized(before, sizes@, i),
            forall|i: int| at <= i < items@.len() ==> #[trigger] items@[i] == before[i],
        decreases items@.len() - at,
    {
        if items[at].kind.is_blob_backed() && used < sizes.len() {
            items[at].size = Some(sizes[used]);
            used += 1;
        }
        at += 1;
    }
    assert(items@ =~= Seq::new(before.len(), |i: int| sized(before, sizes@, i)));
}

} // verus!
