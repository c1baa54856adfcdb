use vstd::prelude::*;

use crate::archive::{archive_response_bytes, ArchiveEntry, ArchiveRequest};
use crate::blame::{blame_response_bytes, Blame};
use crate::compare::CompareRequest;
use crate::diff::{diff_input_bytes, DiffHunk, DiffPlan};
use crate::model::{Blob, BudgetDimension, Charge};
use crate::path_history::PathHistoryRequest;
use crate::reach::ReachRequest;

verus! {

/// The charge for visiting one commit of a history.
pub open spec fn commit_visit() -> Charge {
    Charge { dimension: BudgetDimension::HistoryCommits, amount: 1 }
}

/// The charge for reading a tree at a depth below the root.
pub open spec fn tree_visit(depth: u64) -> Charge {
    Charge { dimension: BudgetDimension::Depth, amount: depth }
}

/// The charge for visiting one commit of a history.
pub fn charge_commit() -> (charge: Charge)
    ensures
        charge == commit_visit(),
{
    Charge { dimension: BudgetDimension::HistoryCommits, amount: 1 }
}

/// The charge for reading a tree at a depth below the root.
pub fn charge_depth(depth: u64) -> (charge: Charge)
    ensures
        charge == tree_visit(depth),
{
    Charge { dimension: BudgetDimension::Depth, amount: depth }
}

/// The charge for looking through so many entries of a tree.
pub fn charge_entries(count: usize) -> (charge: Charge)
    ensures
        charge == (Charge { dimension: BudgetDimension::Entries, amount: count as u64 }),
{
    Charge { dimension: BudgetDimension::Entries, amount: count as u64 }
}

/// The charge for attributing so many lines.
pub fn charge_blame_lines(count: usize) -> (charge: Charge)
    ensures
        charge == (Charge { dimension: BudgetDimension::BlameLines, amount: count as u64 }),
{
    Charge { dimension: BudgetDimension::BlameLines, amount: count as u64 }
}

/// The charge for archiving the content of a blob.
pub fn charge_archived(content: &[u8]) -> (charge: Charge)
    ensures
        charge == (Charge {
            dimension: BudgetDimension::ArchiveBytes,
            amount: content@.len() as u64,
        }),
{
    Charge { dimension: BudgetDimension::ArchiveBytes, amount: content.len() as u64 }
}

/// The charge for answering with the content of a blob.
pub fn charge_blob(blob: &Blob) -> (charge: Charge)
    ensures
        charge == (Charge {
            dimension: BudgetDimension::ResponseBytes,
            amount: blob.bytes@.len() as u64,
        }),
{
    Charge { dimension: BudgetDimension::ResponseBytes, amount: blob.bytes.len() as u64 }
}

/// The charge for reading both versions of a difference.
pub fn charge_diff_input(old_blob: Option<&Blob>, new_blob: Option<&Blob>) -> (charge: Charge)
    ensures
        charge.dimension == BudgetDimension::DiffInputBytes,
        charge.amount == crate::memory::clamp_u64(
            (crate::diff::content(old_blob).len() + crate::diff::content(new_blob).len()) as int,
        ),
{
    Charge {
        dimension: BudgetDimension::DiffInputBytes,
        amount: diff_input_bytes(old_blob, new_blob),
    }
}

/// The charge for the hunk that a plan asks for, if it asks for one.
pub fn charge_diff_output(plan: &DiffPlan) -> (charge: Option<Charge>)
    ensures
        charge == (match *plan {
            DiffPlan::Settled { .. } => None,
            DiffPlan::Replace { output_size, .. } => Some(
                (Charge {
                    dimension: BudgetDimension::DiffOutputBytes,
                    amount: output_size as u64,
                }),
            ),
        }),
{
    match plan {
        DiffPlan::Settled { .. } => None,
        DiffPlan::Replace { output_size, .. } => Some(
            Charge { dimension: BudgetDimension::DiffOutputBytes, amount: *output_size as u64 },
        ),
    }
}

/// The charge for answering with a hunk.
pub fn charge_hunk(hunk: &DiffHunk) -> (charge: Charge)
    ensures
        charge == (Charge {
            dimension: BudgetDimension::ResponseBytes,
            amount: hunk.bytes@.len() as u64,
        }),
{
    Charge { dimension: BudgetDimension::ResponseBytes, amount: hunk.bytes.len() as u64 }
}

/// The charge for comparing the lines of two versions.
pub fn charge_comparison(cells: u64) -> (charge: Charge)
    ensures
        charge == (Charge { dimension: BudgetDimension::BlameComparisons, amount: cells }),
{
    Charge { dimension: BudgetDimension::BlameComparisons, amount: cells }
}

/// The charge for answering with attributed lines.
pub fn charge_blame(blame: &Blame) -> (charge: Charge)
    ensures
        charge.dimension == BudgetDimension::ResponseBytes,
        charge.amount == crate::memory::clamp_u64(
            blame.path@.len() + crate::blame::range_bytes(blame.ranges@),
        ),
{
    Charge { dimension: BudgetDimension::ResponseBytes, amount: blame_response_bytes(blame) }
}

/// The charge for answering with a whole archive.
pub fn charge_archive(entries: &Vec<ArchiveEntry>) -> (charge: Charge)
    ensures
        charge.dimension == BudgetDimension::ResponseBytes,
        charge.amount == crate::memory::clamp_u64(crate::archive::archive_bytes(entries@)),
{
    Charge { dimension: BudgetDimension::ResponseBytes, amount: archive_response_bytes(entries) }
}

/// The charge for answering with one entry of an archive.
pub fn charge_archive_entry(entry: &ArchiveEntry) -> (charge: Charge)
    ensures
        charge.dimension == BudgetDimension::ResponseBytes,
        charge.amount == crate::memory::clamp_u64(entry.response_bytes()),
{
    Charge { dimension: BudgetDimension::ResponseBytes, amount: entry.count_response_bytes() }
}

impl ArchiveRequest {
    /// What is charged before the request is answered: an entry counts with its
    /// depth, a tree was counted as an entry already.
    pub open spec fn cost(self) -> Seq<Charge> {
        match self {
            ArchiveRequest::Entry { depth, .. } => seq![
                tree_visit(depth),
                Charge { dimension: BudgetDimension::ArchiveEntries, amount: 1 },
            ],
            _ => Seq::empty(),
        }
    }

    /// The charges of the request, in the order in which they are made.
    pub fn charges(&self) -> (charges: Vec<Charge>)
        ensures
            charges@ == self.cost(),
    {
        match self {
            ArchiveRequest::Entry { depth, .. } => vec![
                charge_depth(*depth),
                Charge { dimension: BudgetDimension::ArchiveEntries, amount: 1 },
            ],
            _ => Vec::new(),
        }
    }
}

impl CompareRequest {
    /// What is charged before the request is answered: trees with their depth,
    /// and each change as an entry and with its size in the answer.
    pub open spec fn cost(self) -> Seq<Charge> {
        match self {
            CompareRequest::Trees { depth, .. } => seq![tree_visit(depth)],
            CompareRequest::Tree { depth, .. } => seq![tree_visit(depth)],
            CompareRequest::Change { depth, response_bytes } => {
                let reported = seq![
                    Charge { dimension: BudgetDimension::Entries, amount: 1 },
                    Charge { dimension: BudgetDimension::ResponseBytes, amount: response_bytes },
                ];
                match depth {
                    Some(depth) => seq![tree_visit(depth)] + reported,
                    None => reported,
                }
            },
            CompareRequest::Done => Seq::empty(),
        }
    }

    /// The charges of the request, in the order in which they are made.
    pub fn charges(&self) -> (charges: Vec<Charge>)
        ensures
            charges@ == self.cost(),
    {
        let mut charges: Vec<Charge> = Vec::new();
        match self {
            CompareRequest::Trees { depth, .. } => {
                charges.push(charge_depth(*depth));
            },
            CompareRequest::Tree { depth, .. } => {
                charges.push(charge_depth(*depth));
            },
            CompareRequest::Change { depth, response_bytes } => {
                if let Some(depth) = depth {
                    charges.push(charge_depth(*depth));
                }
                charges.push(Charge { dimension: BudgetDimension::Entries, amount: 1 });
                charges.push(
                    Charge {
                        dimension: BudgetDimension::ResponseBytes,
                        amount: *response_bytes,
                    },
                );
            },
            CompareRequest::Done => {},
        }
        assert(charges@ =~= self.cost());
        charges
    }
}

impl PathHistoryRequest {
    /// What is charged before the request is answered: a visited commit, the
    /// depth of a tree, the size of an item. A parent that is only compared with
    /// costs nothing.
    pub open spec fn cost(self) -> Seq<Charge> {
        match self {
            PathHistoryRequest::Visit { .. } => seq![commit_visit()],
            PathHistoryRequest::Tree { depth, .. } => seq![tree_visit(depth)],
            PathHistoryRequest::Show { response_bytes } => seq![
                Charge { dimension: BudgetDimension::ResponseBytes, amount: response_bytes },
            ],
            _ => Seq::empty(),
        }
    }

    /// The charges of the request, in the order in which they are made.
    pub fn charges(&self) -> (charges: Vec<Charge>)
        ensures
            charges@ == self.cost(),
    {
        match self {
            PathHistoryRequest::Visit { .. } => vec![charge_commit()],
            PathHistoryRequest::Tree { depth, .. } => vec![charge_depth(*depth)],
            PathHistoryRequest::Show { response_bytes } => vec![
                Charge { dimension: BudgetDimension::ResponseBytes, amount: *response_bytes },
            ],
            _ => Vec::new(),
        }
    }
}

impl ReachRequest {
    /// What is charged before the request is answered: every commit that the
    /// search takes, the target too.
    pub open spec fn cost(self) -> Seq<Charge> {
        match self {
            ReachRequest::Unreachable => Seq::empty(),
            _ => seq![commit_visit()],
        }
    }

    /// The charges of the request, in the order in which they are made.
    pub fn charges(&self) -> (charges: Vec<Charge>)
        ensures
            charges@ == self.cost(),
    {
        match self {
            ReachRequest::Unreachable => Vec::new(),
            _ => vec![charge_commit()],
        }
    }
}

/// Whether charges are exactly one amount in one dimension.
pub open spec fn charges_only(
    charges: Seq<Charge>,
    dimension: BudgetDimension,
    amount: int,
) -> bool {
    charges.len() == 1 && charges[0].dimension == dimension && charges[0].amount == amount
}

/// An archived entry is charged with its depth and as one; a tree was counted as an
/// entry already.
pub proof fn what_archiving_is_charged(request: ArchiveRequest)
    ensures
        !(request is Entry) ==> request.cost().len() == 0,
        request is Entry ==> request.cost().len() == 2 && charges_only(
            request.cost().take(1),
            BudgetDimension::Depth,
            request->depth as int,
        ) && charges_only(request.cost().skip(1), BudgetDimension::ArchiveEntries, 1),
{
}

/// Trees that are compared are charged with their depth; a change is charged as one and
/// with its size, and before that with its depth where it has one.
pub proof fn what_comparing_is_charged(request: CompareRequest)
    ensures
        request is Done ==> request.cost().len() == 0,
        request is Trees ==> charges_only(
            request.cost(),
            BudgetDimension::Depth,
            request->Trees_depth as int,
        ),
        request is Tree ==> charges_only(
            request.cost(),
            BudgetDimension::Depth,
            request->Tree_depth as int,
        ),
        request is Change ==> ({
            let costs = request.cost();
            let reported = costs.len() - 2;
            &&& reported == if request->Change_depth is Some {
                1int
            } else {
                0
            }
            &&& request->Change_depth is Some ==> charges_only(
                costs.take(1),
                BudgetDimension::Depth,
                (request->Change_depth)->0 as int,
            )
            &&& costs[reported].dimension == BudgetDimension::Entries
            &&& costs[reported].amount == 1
            &&& costs[reported + 1].dimension == BudgetDimension::ResponseBytes
            &&& costs[reported + 1].amount == request->response_bytes
        }),
{
}

/// A visited commit is charged as one, a tree with its depth and a shown item with its
/// size; nothing else is charged for.
pub proof fn what_a_path_history_is_charged(request: PathHistoryRequest)
    ensures
        request is Visit ==> charges_only(request.cost(), BudgetDimension::HistoryCommits, 1),
        request is Tree ==> charges_only(
            request.cost(),
            BudgetDimension::Depth,
            request->depth as int,
        ),
        request is Show ==> charges_only(
            request.cost(),
            BudgetDimension::ResponseBytes,
            request->response_bytes as int,
        ),
        !(request is Visit || request is Tree || request is Show) ==> request.cost().len() == 0,
{
}

/// Every commit that a search takes is charged as one, and its end is free.
pub proof fn what_a_search_is_charged(request: ReachRequest)
    ensures
        request is Unreachable ==> request.cost().len() == 0,
        !(request is Unreachable) ==> charges_only(
            request.cost(),
            BudgetDimension::HistoryCommits,
            1,
        ),
        commit_visit().dimension == BudgetDimension::HistoryCommits,
        commit_visit().amount == 1,
        forall|depth: u64|
            (#[trigger] tree_visit(depth)).dimension == BudgetDimension::Depth && tree_visit(
                depth,
            ).amount == depth,
{
}

} // verus!
