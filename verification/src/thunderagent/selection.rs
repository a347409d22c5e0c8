//! Stateless worker selection that honours the classifier's target.
use vstd::prelude::*;

use crate::choice::{is_pick, pick};
use crate::selection::{
    cheaper, cheapest, lemma_cheapest, lowest_cost, CostRow, SelectionError,
};
use crate::worker::{WorkerAffinityTarget, WorkerWithDpRank};

verus! {

/// The first row that a test accepts.
pub open spec fn first_row(count: int, accepts: spec_fn(int) -> bool) -> Option<int> {
    pick(count, accepts, |a: int, b: int| a < b)
}

/// The rows of one worker.
pub open spec fn rows_of(rows: Seq<CostRow>, worker: WorkerWithDpRank) -> spec_fn(int) -> bool {
    |at: int| rows[at].worker == worker
}

/// The rows that a target names.
pub open spec fn rows_for(rows: Seq<CostRow>, target: WorkerAffinityTarget) -> spec_fn(int) -> bool {
    |at: int| target.covers(rows[at].worker)
}

/// The preferred row where there is one, or else the cheapest.
pub open spec fn preferred_or_cheapest(rows: Seq<CostRow>, preferred: Option<int>) -> Option<int> {
    match preferred {
        Some(at) => Some(at),
        None => cheapest(rows),
    }
}

/// What a selection returns for the row it comes to.
pub open spec fn selected(row: Option<int>) -> Result<usize, SelectionError> {
    match row {
        Some(at) => Ok(at as usize),
        None => Err(SelectionError::NoEligibleWorker),
    }
}

/// The load that a candidate is scored by; without it there is no score. The host turns it into a
/// cost in tokens.
pub fn scored_load<L>(load: Option<L>) -> (checked: Result<L, SelectionError>)
    ensures
        checked == (match load {
            Some(load) => Ok(load),
            None => Err(SelectionError::WorkerLoadUnavailable),
        }),
{
    match load {
        Some(load) => Ok(load),
        None => Err(SelectionError::WorkerLoadUnavailable),
    }
}

fn cheapest_row(rows: &Vec<CostRow>) -> (row: Result<usize, SelectionError>)
    ensures
        row == selected(cheapest(rows@)),
{
    match lowest_cost(rows) {
        Some(at) => Ok(at),
        None => Err(SelectionError::NoEligibleWorker),
    }
}

/// Select the worker that the session is assigned to, or else the cheapest.
pub fn pick_assigned(rows: &Vec<CostRow>, assigned: Option<WorkerWithDpRank>) -> (row: Result<
    usize,
    SelectionError,
>)
    ensures
        row == selected(
            preferred_or_cheapest(
                rows@,
                match assigned {
                    Some(worker) => first_row(rows@.len() as int, rows_of(rows@, worker)),
                    None => None,
                },
            ),
        ),
        row == assigned_selection(rows@, assigned),
{
    if let Some(worker) = assigned {
        let ghost accepts = rows_of(rows@, worker);
        for at in 0..rows.len()
            invariant
                assigned == Some(worker),
                accepts == rows_of(rows@, worker),
                forall|k: int| 0 <= k < at ==> !#[trigger] accepts(k),
        {
            if rows[at].worker == worker {
                proof {
                    lemma_first_row(rows@.len() as int, accepts, at as int);
                }
                return Ok(at);
            }
        }
        proof {
            lemma_no_row(rows@.len() as int, accepts);
        }
    }
    cheapest_row(rows)
}

/// Select a worker that the request's target names, or else the cheapest.
pub fn pick_target(rows: &Vec<CostRow>, target: Option<WorkerAffinityTarget>) -> (row: Result<
    usize,
    SelectionError,
>)
    ensures
        row == selected(
            preferred_or_cheapest(
                rows@,
                match target {
                    Some(target) => first_row(rows@.len() as int, rows_for(rows@, target)),
                    None => None,
                },
            ),
        ),
        row == target_selection(rows@, target),
{
    if let Some(named) = target {
        let ghost accepts = rows_for(rows@, named);
        for at in 0..rows.len()
            invariant
                target == Some(named),
                accepts == rows_for(rows@, named),
                forall|k: int| 0 <= k < at ==> !#[trigger] accepts(k),
        {
            if named.matches(&rows[at].worker) {
                proof {
                    lemma_first_row(rows@.len() as int, accepts, at as int);
                }
                return Ok(at);
            }
        }
        proof {
            lemma_no_row(rows@.len() as int, accepts);
        }
    }
    cheapest_row(rows)
}

/// The first accepted row is found.
pub proof fn lemma_first_row(count: int, accepts: spec_fn(int) -> bool, at: int)
    requires
        0 <= at < count,
        accepts(at),
        forall|k: int| 0 <= k < at ==> !#[trigger] accepts(k),
    ensures
        first_row(count, accepts) == Some(at),
{
    let earlier = |a: int, b: int| a < b;
    assert(is_pick(at, count, accepts, earlier));
    let found = choose|found: int| is_pick(found, count, accepts, earlier);
    assert(is_pick(found, count, accepts, earlier));
    if found != at {
        assert(accepts(found) && accepts(at));
    }
}

/// Without an accepted row none is found.
pub proof fn lemma_no_row(count: int, accepts: spec_fn(int) -> bool)
    requires
        forall|k: int| 0 <= k < count ==> !#[trigger] accepts(k),
    ensures
        first_row(count, accepts) is None,
{
}

/// An eligible target is honoured.
pub proof fn lemma_eligible_target_is_selected(
    rows: Seq<CostRow>,
    target: WorkerAffinityTarget,
    at: int,
)
    requires
        0 <= at < rows.len(),
        target.covers(rows[at].worker),
    ensures
        first_row(rows.len() as int, rows_for(rows, target)) matches Some(row) && 0 <= row
            < rows.len() && target.covers(rows[row].worker),
{
    lemma_accepted_row(rows.len() as int, rows_for(rows, target), at);
}

/// An eligible assignment is honoured.
pub proof fn lemma_eligible_assignment_is_selected(
    rows: Seq<CostRow>,
    worker: WorkerWithDpRank,
    at: int,
)
    requires
        0 <= at < rows.len(),
        rows[at].worker == worker,
    ensures
        first_row(rows.len() as int, rows_of(rows, worker)) matches Some(row) && 0 <= row
            < rows.len() && rows[row].worker == worker,
{
    lemma_accepted_row(rows.len() as int, rows_of(rows, worker), at);
}

proof fn lemma_accepted_row(count: int, accepts: spec_fn(int) -> bool, at: int)
    requires
        0 <= at < count,
        accepts(at),
    ensures
        first_row(count, accepts) matches Some(row) && 0 <= row <= at && accepts(row),
    decreases at,
{
    if exists|k: int| 0 <= k < at && #[trigger] accepts(k) {
        let k = choose|k: int| 0 <= k < at && #[trigger] accepts(k);
        lemma_accepted_row(count, accepts, k);
    } else {
        lemma_first_row(count, accepts, at);
    }
}

/// Without an eligible target no worker is cheaper than the selected one, and of equally cheap
/// ones it is the lowest.
pub proof fn lemma_fallback_is_cheapest(rows: Seq<CostRow>, row: int, other: int)
    requires
        cheapest(rows) == Some(row),
        0 <= other < rows.len(),
    ensures
        0 <= row < rows.len(),
        !rows[other].cost.totally_before(rows[row].cost),
        rows[other].cost == rows[row].cost ==> !rows[other].worker.is_before(rows[row].worker),
{
    let all = |at: int| true;
    assert(is_pick(row, rows.len() as int, all, cheaper(rows)));
    assert(all(other));
    if other != row {
        assert(cheaper(rows)(row, other));
    }
}

/// What `pick_assigned` returns.
pub open spec fn assigned_selection(
    rows: Seq<CostRow>,
    assigned: Option<WorkerWithDpRank>,
) -> Result<usize, SelectionError> {
    selected(
        preferred_or_cheapest(
            rows,
            match assigned {
                Some(worker) => first_row(rows.len() as int, rows_of(rows, worker)),
                None => None,
            },
        ),
    )
}

/// What `pick_target` returns.
pub open spec fn target_selection(
    rows: Seq<CostRow>,
    target: Option<WorkerAffinityTarget>,
) -> Result<usize, SelectionError> {
    selected(
        preferred_or_cheapest(
            rows,
            match target {
                Some(target) => first_row(rows.len() as int, rows_for(rows, target)),
                None => None,
            },
        ),
    )
}

/// A session goes to the first row of its assigned worker where there is one, however cheap others
/// are. Otherwise no row is cheaper than its own, and of equally cheap ones it is the lowest
/// worker's. Without rows no worker is eligible.
pub proof fn lemma_assignment_decides(
    rows: Seq<CostRow>,
    assigned: Option<WorkerWithDpRank>,
    at: int,
)
    requires
        rows.len() <= usize::MAX,
    ensures
        ({
            let row = assigned_selection(rows, assigned);
            &&& rows.len() == 0 ==> row == Err::<usize, SelectionError>(
                SelectionError::NoEligibleWorker,
            )
            &&& 0 <= at < rows.len() && assigned == Some(rows[at].worker) && (forall|k: int|
                0 <= k < at ==> (#[trigger] rows[k]).worker != rows[at].worker) ==> row == Ok::<
                usize,
                SelectionError,
            >(at as usize)
            &&& rows.len() > 0 && (forall|k: int|
                0 <= k < rows.len() ==> assigned != Some((#[trigger] rows[k]).worker)) ==> (
            row matches Ok(row) && is_cheapest_row(rows, row as int))
        }),
{
    lemma_cheapest(rows);
    if 0 <= at < rows.len() && assigned == Some(rows[at].worker) && (forall|k: int|
        0 <= k < at ==> (#[trigger] rows[k]).worker != rows[at].worker) {
        lemma_first_row(rows.len() as int, rows_of(rows, rows[at].worker), at);
    }
    if let Some(worker) = assigned {
        if forall|k: int| 0 <= k < rows.len() ==> assigned != Some((#[trigger] rows[k]).worker) {
            let accepts = rows_of(rows, worker);
            assert forall|k: int| 0 <= k < rows.len() implies !#[trigger] accepts(k) by {
                assert(assigned != Some(rows[k].worker));
            }
            lemma_no_row(rows.len() as int, accepts);
        }
    }
}

/// No row is cheaper, and of equally cheap ones none is of a lower worker.
pub open spec fn is_cheapest_row(rows: Seq<CostRow>, row: int) -> bool {
    &&& 0 <= row < rows.len()
    &&& forall|at: int|
        0 <= at < rows.len() ==> !(#[trigger] rows[at]).cost.totally_before(rows[row].cost) && (
        rows[at].cost == rows[row].cost ==> !rows[at].worker.is_before(rows[row].worker))
}

/// A request goes to the first row that its target names: the worker, and the rank where the target
/// has one. Otherwise no row is cheaper than its own, and of equally cheap ones it is the lowest
/// worker's. Without rows no worker is eligible.
pub proof fn lemma_target_decides(
    rows: Seq<CostRow>,
    target: Option<WorkerAffinityTarget>,
    at: int,
)
    requires
        rows.len() <= usize::MAX,
    ensures
        ({
            let row = target_selection(rows, target);
            &&& rows.len() == 0 ==> row == Err::<usize, SelectionError>(
                SelectionError::NoEligibleWorker,
            )
            &&& target matches Some(named) ==> {
                &&& 0 <= at < rows.len() && rows[at].worker.worker_id == named.worker_id && (
                named.dp_rank is None || named.dp_rank == Some(rows[at].worker.dp_rank)) && (
                forall|k: int|
                    0 <= k < at ==> (#[trigger] rows[k]).worker.worker_id != named.worker_id || (
                    named.dp_rank is Some && named.dp_rank != Some(rows[k].worker.dp_rank)))
                    ==> row == Ok::<usize, SelectionError>(at as usize)
                &&& rows.len() > 0 && (forall|k: int|
                    0 <= k < rows.len() ==> (#[trigger] rows[k]).worker.worker_id
                        != named.worker_id || (named.dp_rank is Some && named.dp_rank != Some(
                        rows[k].worker.dp_rank,
                    ))) ==> (row matches Ok(row) && is_cheapest_row(rows, row as int))
            }
            &&& target is None && rows.len() > 0 ==> (row matches Ok(row) && is_cheapest_row(
                rows,
                row as int,
            ))
        }),
{
    lemma_cheapest(rows);
    if let Some(named) = target {
        let accepts = rows_for(rows, named);
        if 0 <= at < rows.len() && rows[at].worker.worker_id == named.worker_id && (
        named.dp_rank is None || named.dp_rank == Some(rows[at].worker.dp_rank)) && (forall|k: int|
            0 <= k < at ==> (#[trigger] rows[k]).worker.worker_id != named.worker_id || (
            named.dp_rank is Some && named.dp_rank != Some(rows[k].worker.dp_rank))) {
            assert forall|k: int| 0 <= k < at implies !#[trigger] accepts(k) by {
                assert(rows[k].worker.worker_id != named.worker_id || named.dp_rank is Some);
            }
            lemma_first_row(rows.len() as int, accepts, at);
        }
        if forall|k: int|
            0 <= k < rows.len() ==> (#[trigger] rows[k]).worker.worker_id != named.worker_id || (
            named.dp_rank is Some && named.dp_rank != Some(rows[k].worker.dp_rank)) {
            assert forall|k: int| 0 <= k < rows.len() implies !#[trigger] accepts(k) by {
                assert(rows[k].worker.worker_id != named.worker_id || named.dp_rank is Some);
            }
            lemma_no_row(rows.len() as int, accepts);
        }
    }
}

} // verus!
