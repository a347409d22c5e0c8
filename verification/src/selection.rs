//! What the worker-selection policies share.
use vstd::prelude::*;

use crate::choice::{best, lemma_pick, pick, place_of, Candidates};
use crate::ieee::Real64;
use crate::worker::WorkerWithDpRank;

verus! {

/// Why no worker is selected.
#[derive(Clone, Copy, Debug, PartialEq, Eq, Structural)]
pub enum SelectionError {
    LoadUnavailable,
    CacheUnavailable,
    LoadMismatch,
    InvalidOverlap,
    CostNotFinite,
    PrimaryLoadNotFinite,
    PrefillTrackingRequired,
    WorkerLoadUnavailable,
    NoEligibleWorker,
    NoLeastLoadedWorker,
}

impl SelectionError {
    /// The error in words.
    pub open spec fn text(self) -> Seq<char> {
        match self {
            SelectionError::LoadUnavailable => "load input unavailable"@,
            SelectionError::CacheUnavailable => "cache input unavailable"@,
            SelectionError::LoadMismatch => "load input does not match the candidate table"@,
            SelectionError::InvalidOverlap => "device overlap must be finite and non-negative"@,
            SelectionError::CostNotFinite => "worker cost must be finite"@,
            SelectionError::PrimaryLoadNotFinite => "worker primary load must be finite"@,
            SelectionError::PrefillTrackingRequired =>
                "sticky-until-saturated requires prefill-token tracking"@,
            SelectionError::WorkerLoadUnavailable => "worker load unavailable"@,
            SelectionError::NoEligibleWorker => "no eligible worker"@,
            SelectionError::NoLeastLoadedWorker => "no least-loaded worker"@,
        }
    }

    /// The error in words.
    pub fn message(&self) -> (message: &'static str)
        ensures
            message@ == self.text(),
    {
        match self {
            SelectionError::LoadUnavailable => "load input unavailable",
            SelectionError::CacheUnavailable => "cache input unavailable",
            SelectionError::LoadMismatch => "load input does not match the candidate table",
            SelectionError::InvalidOverlap => "device overlap must be finite and non-negative",
            SelectionError::CostNotFinite => "worker cost must be finite",
            SelectionError::PrimaryLoadNotFinite => "worker primary load must be finite",
            SelectionError::PrefillTrackingRequired =>
                "sticky-until-saturated requires prefill-token tracking",
            SelectionError::WorkerLoadUnavailable => "worker load unavailable",
            SelectionError::NoEligibleWorker => "no eligible worker",
            SelectionError::NoLeastLoadedWorker => "no least-loaded worker",
        }
    }
}

/// Whether a device overlap can be used: finite and not negative.
pub open spec fn is_overlap(overlap: Real64) -> bool {
    overlap.finite() && overlap.rank() >= 0
}

/// Check a device overlap.
pub fn cache_overlap(overlap: Real64) -> (checked: Result<Real64, SelectionError>)
    ensures
        checked == (if is_overlap(overlap) {
            Ok(overlap)
        } else {
            Err(SelectionError::InvalidOverlap)
        }),
{
    if overlap.is_finite() && !overlap.lt(&Real64 { bits: 0 }) {
        Ok(overlap)
    } else {
        Err(SelectionError::InvalidOverlap)
    }
}

/// Check a worker's cost.
pub fn finite_cost(cost: Real64) -> (checked: Result<Real64, SelectionError>)
    ensures
        checked == (if cost.finite() {
            Ok(cost)
        } else {
            Err(SelectionError::CostNotFinite)
        }),
{
    if cost.is_finite() {
        Ok(cost)
    } else {
        Err(SelectionError::CostNotFinite)
    }
}

/// A candidate with its cost.
#[derive(Clone, Copy, Debug, PartialEq, Eq, Structural)]
pub struct CostRow {
    pub worker: WorkerWithDpRank,
    pub cost: Real64,
}

/// Of two rows the cheaper one; of two equally cheap ones that of the lower worker, or else the
/// earlier one.
pub open spec fn cheaper(rows: Seq<CostRow>) -> spec_fn(int, int) -> bool {
    |a: int, b: int| lower_cost(rows[a].cost, rows[a].worker, a, rows[b].cost, rows[b].worker, b)
}

/// Lower cost first, then the lower worker, then the earlier row.
pub open spec fn lower_cost(
    cost: Real64,
    worker: WorkerWithDpRank,
    row: int,
    other_cost: Real64,
    other_worker: WorkerWithDpRank,
    other_row: int,
) -> bool {
    if cost != other_cost {
        cost.totally_before(other_cost)
    } else if worker != other_worker {
        worker.is_before(other_worker)
    } else {
        row < other_row
    }
}

/// Whether a row comes first by cost, worker and position.
pub fn has_lower_cost(
    cost: Real64,
    worker: WorkerWithDpRank,
    row: usize,
    other_cost: Real64,
    other_worker: WorkerWithDpRank,
    other_row: usize,
) -> (lower: bool)
    ensures
        lower == lower_cost(cost, worker, row as int, other_cost, other_worker, other_row as int),
{
    if cost != other_cost {
        cost.total_lt(&other_cost)
    } else if worker != other_worker {
        worker.before(&other_worker)
    } else {
        row < other_row
    }
}

/// The cheapest row.
pub open spec fn cheapest(rows: Seq<CostRow>) -> Option<int> {
    pick(rows.len() as int, |at: int| true, cheaper(rows))
}

struct ByCost<'a> {
    rows: &'a Vec<CostRow>,
}

impl<'a> Candidates for ByCost<'a> {
    closed spec fn total(&self) -> int {
        self.rows@.len() as int
    }

    closed spec fn allowed(&self) -> spec_fn(int) -> bool {
        |at: int| true
    }

    closed spec fn preferred(&self) -> spec_fn(int, int) -> bool {
        cheaper(self.rows@)
    }

    fn count(&self) -> usize {
        self.rows.len()
    }

    fn allows(&self, at: usize) -> bool {
        true
    }

    fn prefers(&self, a: usize, b: usize) -> bool {
        has_lower_cost(
            self.rows[a].cost,
            self.rows[a].worker,
            a,
            self.rows[b].cost,
            self.rows[b].worker,
            b,
        )
    }

    proof fn lemma_ordered(&self) {
    }
}

/// Find the cheapest row.
pub fn lowest_cost(rows: &Vec<CostRow>) -> (found: Option<usize>)
    ensures
        place_of(found) == cheapest(rows@),
        found matches Some(at) ==> at < rows@.len(),
        found is None <==> rows@.len() == 0,
{
    let found = best(&ByCost { rows });
    proof {
        if found is None && rows@.len() > 0 {
            assert(!(ByCost { rows }).allowed()(0));
        }
    }
    found
}

/// An overlap can be used where its bits are those of a finite number that is not below zero.
pub proof fn lemma_usable_overlap(overlap: Real64)
    ensures
        is_overlap(overlap) <==> overlap.bits < 0x7ff0_0000_0000_0000 || overlap.bits
            == 0x8000_0000_0000_0000,
{
}

/// The cheapest row exists where there is a row. None is cheaper; of equally cheap ones none is of
/// a lower worker, and of one worker's equally cheap rows none is earlier.
pub proof fn lemma_cheapest(rows: Seq<CostRow>)
    ensures
        match cheapest(rows) {
            Some(row) => {
                &&& 0 <= row < rows.len()
                &&& forall|at: int|
                    0 <= at < rows.len() ==> !(#[trigger] rows[at]).cost.totally_before(
                        rows[row].cost,
                    )
                &&& forall|at: int|
                    0 <= at < rows.len() && (#[trigger] rows[at]).cost == rows[row].cost
                        ==> !rows[at].worker.is_before(rows[row].worker)
                &&& forall|at: int| 0 <= at < row ==> #[trigger] rows[at] != rows[row]
            },
            None => rows.len() == 0,
        },
{
    let all = |at: int| true;
    lemma_pick(rows.len() as int, all, cheaper(rows));
    match cheapest(rows) {
        Some(row) => {
            assert forall|at: int| 0 <= at < rows.len() && at != row implies #[trigger] cheaper(
                rows,
            )(row, at) by {
                assert(all(at));
            }
            assert forall|at: int| 0 <= at < rows.len() implies !(
            #[trigger] rows[at]).cost.totally_before(rows[row].cost) by {
                if at != row {
                    assert(cheaper(rows)(row, at));
                }
            }
            assert forall|at: int|
                0 <= at < rows.len() && (#[trigger] rows[at]).cost == rows[row].cost implies
                !rows[at].worker.is_before(rows[row].worker) by {
                if at != row {
                    assert(cheaper(rows)(row, at));
                }
            }
            assert forall|at: int| 0 <= at < row implies #[trigger] rows[at] != rows[row] by {
                assert(cheaper(rows)(row, at));
            }
        },
        None => {
            if rows.len() > 0 {
                assert(all(0));
            }
        },
    }
}

/// What an error says.
pub proof fn lemma_words()
    ensures
        SelectionError::LoadUnavailable.text() == "load input unavailable"@,
        SelectionError::CacheUnavailable.text() == "cache input unavailable"@,
        SelectionError::LoadMismatch.text() == "load input does not match the candidate table"@,
        SelectionError::InvalidOverlap.text() == "device overlap must be finite and non-negative"@,
        SelectionError::CostNotFinite.text() == "worker cost must be finite"@,
        SelectionError::PrimaryLoadNotFinite.text() == "worker primary load must be finite"@,
        SelectionError::PrefillTrackingRequired.text()
            == "sticky-until-saturated requires prefill-token tracking"@,
        SelectionError::WorkerLoadUnavailable.text() == "worker load unavailable"@,
        SelectionError::NoEligibleWorker.text() == "no eligible worker"@,
        SelectionError::NoLeastLoadedWorker.text() == "no least-loaded worker"@,
{
}

} // verus!
