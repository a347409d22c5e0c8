//! Laws of session affinity.
use vstd::prelude::*;

use crate::choice::{is_pick, lemma_pick};
use crate::ieee::Real64;
use crate::selection::SelectionError;
use crate::session_affinity::picker::{
    all_finite, cheaper_row, cheapest_row, choice, joined, last_row, remembered_after, selection,
    within_slack, AffinityRow, Choice, SessionTurn,
};
use crate::session_affinity::placements::{lemma_forgotten, lemma_looked_up, lemma_recorded, Memory};
use crate::session_affinity::recency::{entry_at, has_entry};
use crate::worker::WorkerWithDpRank;

verus! {

/// A kept session is on a row of its remembered worker, whose requests in flight are at most the
/// slack above those of every row.
pub proof fn lemma_sticky_is_within_slack(
    rows: Seq<AffinityRow>,
    remembered: Option<WorkerWithDpRank>,
    slack: usize,
    row: usize,
    other: int,
)
    requires
        choice(rows, remembered, slack) == Some(Choice::Sticky(row)),
        rows.len() <= usize::MAX,
        0 <= other < rows.len(),
    ensures
        row < rows.len(),
        remembered == Some(rows[row as int].worker),
        rows[row as int].active_requests <= rows[other].active_requests + slack,
{
    let worker = remembered->0;
    let found = last_row(rows, worker)->0;
    assert(is_pick(
        found,
        rows.len() as int,
        |at: int| rows[at].worker == worker,
        |a: int, b: int| a > b,
    ));
    assert(found == row);
    assert(rows[found].active_requests <= rows[other].active_requests.saturating_add(slack));
}

/// Without slack a session stays on its worker only while that worker is among the least loaded.
pub proof fn lemma_zero_slack_needs_a_least_loaded_worker(
    rows: Seq<AffinityRow>,
    remembered: Option<WorkerWithDpRank>,
    row: usize,
    other: int,
)
    requires
        choice(rows, remembered, 0) == Some(Choice::Sticky(row)),
        rows.len() <= usize::MAX,
        0 <= other < rows.len(),
    ensures
        rows[row as int].active_requests <= rows[other].active_requests,
{
    lemma_sticky_is_within_slack(rows, remembered, 0, row, other);
}

/// With the largest slack a session never leaves a worker that is eligible.
pub proof fn lemma_largest_slack_never_migrates(
    rows: Seq<AffinityRow>,
    worker: WorkerWithDpRank,
    at: int,
)
    requires
        0 <= at < rows.len(),
        rows[at].worker == worker,
    ensures
        choice(rows, Some(worker), usize::MAX) matches Some(Choice::Sticky(_)),
{
    lemma_last_row_exists(rows, worker, rows.len() as int);
    let row = last_row(rows, worker)->0;
    assert(within_slack(rows, row, usize::MAX));
}

proof fn lemma_last_row_exists(rows: Seq<AffinityRow>, worker: WorkerWithDpRank, count: int)
    requires
        0 <= count <= rows.len(),
        exists|at: int| 0 <= at < count && (#[trigger] rows[at]).worker == worker,
        forall|at: int|
            count <= at < rows.len() ==> (#[trigger] rows[at]).worker != worker,
    ensures
        last_row(rows, worker) is Some,
    decreases count,
{
    if rows[count - 1].worker == worker {
        assert(is_pick(
            count - 1,
            rows.len() as int,
            |at: int| rows[at].worker == worker,
            |a: int, b: int| a > b,
        ));
    } else {
        lemma_last_row_exists(rows, worker, count - 1);
    }
}

/// A session that is not kept goes to a row than which none is cheaper; of equally cheap rows the
/// lowest worker's, wherever it is in the table.
pub proof fn lemma_fallback_is_cheapest(
    rows: Seq<AffinityRow>,
    remembered: Option<WorkerWithDpRank>,
    slack: usize,
    row: usize,
    other: int,
)
    requires
        choice(rows, remembered, slack) == Some(Choice::Fallback(row)),
        rows.len() <= usize::MAX,
        0 <= other < rows.len(),
    ensures
        row < rows.len(),
        !rows[other].cost.totally_before(rows[row as int].cost),
        rows[other].cost == rows[row as int].cost ==> !rows[other].worker.is_before(
            rows[row as int].worker,
        ),
{
    let found = cheapest_row(rows)->0;
    let all = |at: int| true;
    assert(is_pick(found, rows.len() as int, all, cheaper_row(rows)));
    assert(found == row);
    assert(all(other));
    if other != found {
        assert(cheaper_row(rows)(found, other));
    }
}

proof fn lemma_last_row(rows: Seq<AffinityRow>, worker: WorkerWithDpRank, row: int)
    requires
        0 <= row < rows.len(),
        rows[row].worker == worker,
        forall|at: int| row < at < rows.len() ==> (#[trigger] rows[at]).worker != worker,
    ensures
        last_row(rows, worker) == Some(row),
{
    let own = |at: int| rows[at].worker == worker;
    let later = |a: int, b: int| a > b;
    assert(is_pick(row, rows.len() as int, own, later));
    let found = last_row(rows, worker)->0;
    assert(is_pick(found, rows.len() as int, own, later));
    if found != row {
        assert(own(found) && own(row));
        assert(later(found, row));
    }
}

/// A session stays on its remembered worker where that worker's requests in flight are at most the
/// slack above those of every row. Where a worker has several rows, its last one counts.
pub proof fn lemma_within_slack_stays(
    rows: Seq<AffinityRow>,
    worker: WorkerWithDpRank,
    slack: usize,
    row: int,
)
    requires
        rows.len() <= usize::MAX,
        0 <= row < rows.len(),
        rows[row].worker == worker,
        forall|at: int| row < at < rows.len() ==> (#[trigger] rows[at]).worker != worker,
        forall|at: int|
            0 <= at < rows.len() ==> rows[row].active_requests <= (
            #[trigger] rows[at]).active_requests + slack,
    ensures
        choice(rows, Some(worker), slack) == Some(Choice::Sticky(row as usize)),
{
    lemma_last_row(rows, worker, row);
    assert forall|at: int| 0 <= at < rows.len() implies rows[row].active_requests <= (
    #[trigger] rows[at]).active_requests.saturating_add(slack) by {
    }
}

/// A session leaves its remembered worker where some row has more than the slack fewer requests in
/// flight.
pub proof fn lemma_beyond_slack_migrates(
    rows: Seq<AffinityRow>,
    worker: WorkerWithDpRank,
    slack: usize,
    row: int,
    other: int,
)
    requires
        0 <= row < rows.len(),
        0 <= other < rows.len(),
        rows[row].worker == worker,
        forall|at: int| row < at < rows.len() ==> (#[trigger] rows[at]).worker != worker,
        rows[row].active_requests > rows[other].active_requests + slack,
    ensures
        choice(rows, Some(worker), slack) matches Some(Choice::Fallback(_)),
{
    lemma_last_row(rows, worker, row);
    assert(!within_slack(rows, row, slack)) by {
        assert(rows[row].active_requests > rows[other].active_requests.saturating_add(slack));
    }
    lemma_cheapest_exists(rows);
}

/// A session without a remembered worker, or whose worker has no row, falls back; without rows there
/// is no choice.
pub proof fn lemma_unplaced_falls_back(
    rows: Seq<AffinityRow>,
    remembered: Option<WorkerWithDpRank>,
    slack: usize,
)
    requires
        forall|at: int| 0 <= at < rows.len() ==> remembered != Some((#[trigger] rows[at]).worker),
    ensures
        rows.len() > 0 ==> choice(rows, remembered, slack) matches Some(Choice::Fallback(_)),
        rows.len() == 0 ==> choice(rows, remembered, slack) is None,
{
    lemma_cheapest_exists(rows);
    if let Some(worker) = remembered {
        let own = |at: int| rows[at].worker == worker;
        let later = |a: int, b: int| a > b;
        lemma_pick(rows.len() as int, own, later);
    }
}

proof fn lemma_cheapest_exists(rows: Seq<AffinityRow>)
    ensures
        cheapest_row(rows) is Some <==> rows.len() > 0,
{
    let all = |at: int| true;
    lemma_pick(rows.len() as int, all, cheaper_row(rows));
    if rows.len() > 0 {
        assert(all(0));
    }
}

/// Of one worker's equally cheap rows the fallback takes the earliest.
pub proof fn lemma_fallback_is_earliest(
    rows: Seq<AffinityRow>,
    remembered: Option<WorkerWithDpRank>,
    slack: usize,
    row: usize,
    other: int,
)
    requires
        choice(rows, remembered, slack) == Some(Choice::Fallback(row)),
        rows.len() <= usize::MAX,
        0 <= other < row,
    ensures
        row < rows.len(),
        rows[other].cost != rows[row as int].cost || rows[other].worker
            != rows[row as int].worker,
{
    let found = cheapest_row(rows)->0;
    let all = |at: int| true;
    assert(is_pick(found, rows.len() as int, all, cheaper_row(rows)));
    assert(all(other));
    assert(cheaper_row(rows)(found, other));
}

/// A remembered worker, by its place among the entries.
proof fn lemma_remembered(memory: Memory, at: int)
    requires
        memory.valid(),
        0 <= at < memory.entries.len(),
    ensures
        memory.worker(memory.entries[at].0) == Some(
            WorkerWithDpRank {
                worker_id: (memory.entries[at].1).0,
                dp_rank: (memory.entries[at].1).1,
            },
        ),
{
    let found = entry_at(memory.entries, memory.entries[at].0);
    assert(has_entry(memory.entries, memory.entries[at].0));
    assert(memory.entries[found].0 == memory.entries[at].0);
}

/// A remembered session is routed to its worker where that worker is a candidate with at most the
/// slack more requests in flight than every candidate.
pub proof fn lemma_session_is_routed_back(
    memory: Memory,
    slack: usize,
    turn: SessionTurn,
    candidates: Seq<(WorkerWithDpRank, Real64)>,
    loads: Seq<usize>,
    entry: int,
    row: int,
)
    requires
        memory.valid(),
        candidates.len() == loads.len(),
        candidates.len() <= usize::MAX,
        0 <= entry < memory.entries.len(),
        memory.entries[entry].0 == turn.session_id@,
        0 <= row < candidates.len(),
        candidates[row].0.worker_id == (memory.entries[entry].1).0,
        candidates[row].0.dp_rank == (memory.entries[entry].1).1,
        forall|at: int|
            row < at < candidates.len() ==> (#[trigger] candidates[at]).0 != candidates[row].0,
        forall|at: int| 0 <= at < candidates.len() ==> (#[trigger] candidates[at]).1.finite(),
        forall|at: int| 0 <= at < loads.len() ==> loads[row] <= #[trigger] loads[at] + slack,
    ensures
        selection(memory, slack, Some(turn), candidates, Some(loads)) == Ok::<
            usize,
            SelectionError,
        >(row as usize),
{
    let rows = joined(candidates, loads);
    lemma_remembered(memory, entry);
    assert(memory.worker(turn.session_id@) == Some(candidates[row].0));
    assert forall|at: int| row < at < rows.len() implies (#[trigger] rows[at]).worker
        != candidates[row].0 by {
        assert(candidates[at].0 != candidates[row].0);
    }
    assert forall|at: int| 0 <= at < rows.len() implies rows[row].active_requests <= (
    #[trigger] rows[at]).active_requests + slack by {
        assert(loads[row] <= loads[at] + slack);
    }
    assert(all_finite(rows)) by {
        assert forall|at: int| 0 <= at < rows.len() implies (#[trigger] rows[at]).cost.finite() by {
            assert(candidates[at].1.finite());
        }
    }
    lemma_within_slack_stays(rows, candidates[row].0, slack, row);
}

/// A remembered session leaves a worker that has more than the slack more requests in flight than
/// some candidate: it is routed to a candidate than which none is cheaper.
pub proof fn lemma_session_leaves_a_loaded_worker(
    memory: Memory,
    slack: usize,
    turn: SessionTurn,
    candidates: Seq<(WorkerWithDpRank, Real64)>,
    loads: Seq<usize>,
    entry: int,
    row: int,
    light: int,
    other: int,
)
    requires
        memory.valid(),
        candidates.len() == loads.len(),
        candidates.len() <= usize::MAX,
        0 <= entry < memory.entries.len(),
        memory.entries[entry].0 == turn.session_id@,
        0 <= row < candidates.len(),
        candidates[row].0.worker_id == (memory.entries[entry].1).0,
        candidates[row].0.dp_rank == (memory.entries[entry].1).1,
        forall|at: int|
            row < at < candidates.len() ==> (#[trigger] candidates[at]).0 != candidates[row].0,
        forall|at: int| 0 <= at < candidates.len() ==> (#[trigger] candidates[at]).1.finite(),
        0 <= light < loads.len(),
        loads[row] > loads[light] + slack,
        0 <= other < candidates.len(),
    ensures
        selection(memory, slack, Some(turn), candidates, Some(loads)) matches Ok(found) && {
            &&& found < candidates.len()
            &&& !candidates[other].1.totally_before(candidates[found as int].1)
            &&& candidates[other].1 == candidates[found as int].1
                ==> !candidates[other].0.is_before(candidates[found as int].0)
        },
{
    let rows = joined(candidates, loads);
    lemma_remembered(memory, entry);
    let worker = candidates[row].0;
    assert(memory.worker(turn.session_id@) == Some(worker));
    assert forall|at: int| row < at < rows.len() implies (#[trigger] rows[at]).worker
        != worker by {
        assert(candidates[at].0 != worker);
    }
    assert(all_finite(rows)) by {
        assert forall|at: int| 0 <= at < rows.len() implies (#[trigger] rows[at]).cost.finite() by {
            assert(candidates[at].1.finite());
        }
    }
    lemma_beyond_slack_migrates(rows, worker, slack, row, light);
    let found = choice(rows, Some(worker), slack)->0->Fallback_0;
    lemma_fallback_is_cheapest(rows, Some(worker), slack, found, other);
}

/// Without loads, with as many loads as not candidates, with a cost that is not finite, or without
/// candidates, no worker is selected; otherwise one is.
pub proof fn lemma_selection_succeeds(
    memory: Memory,
    slack: usize,
    session: Option<SessionTurn>,
    candidates: Seq<(WorkerWithDpRank, Real64)>,
    loads: Option<Seq<usize>>,
)
    requires
        candidates.len() <= usize::MAX,
    ensures
        ({
            let selected = selection(memory, slack, session, candidates, loads);
            &&& loads is None ==> selected == Err::<usize, SelectionError>(
                SelectionError::LoadUnavailable,
            )
            &&& loads matches Some(loads) ==> {
                &&& loads.len() != candidates.len() ==> selected == Err::<usize, SelectionError>(
                    SelectionError::LoadMismatch,
                )
                &&& loads.len() == candidates.len() && (exists|at: int|
                    0 <= at < candidates.len() && !(#[trigger] candidates[at]).1.finite())
                    ==> selected == Err::<usize, SelectionError>(SelectionError::CostNotFinite)
                &&& loads.len() == candidates.len() && candidates.len() == 0 ==> selected == Err::<
                    usize,
                    SelectionError,
                >(SelectionError::NoEligibleWorker)
                &&& loads.len() == candidates.len() && candidates.len() > 0 && (forall|at: int|
                    0 <= at < candidates.len() ==> (#[trigger] candidates[at]).1.finite())
                    ==> selected is Ok
            }
        }),
{
    if let Some(found) = loads {
        let rows = joined(candidates, found);
        lemma_cheapest_exists(rows);
        if exists|at: int| 0 <= at < candidates.len() && !(#[trigger] candidates[at]).1.finite() {
            let at = choose|at: int|
                0 <= at < candidates.len() && !(#[trigger] candidates[at]).1.finite();
            assert(!rows[at].cost.finite());
        }
        if forall|at: int| 0 <= at < candidates.len() ==> (#[trigger] candidates[at]).1.finite() {
            assert forall|at: int| 0 <= at < rows.len() implies (#[trigger] rows[at]).cost.finite() by {
                assert(candidates[at].1.finite());
            }
        }
        if candidates.len() == 0 {
            if let Some(turn) = session {
                if let Some(worker) = memory.worker(turn.session_id@) {
                    let own = |at: int| rows[at].worker == worker;
                    lemma_pick(0, own, |a: int, b: int| a > b);
                }
            }
        }
    }
}

/// A session that is not kept goes to a candidate than which none is cheaper.
pub proof fn lemma_new_session_goes_to_the_cheapest(
    memory: Memory,
    slack: usize,
    session: Option<SessionTurn>,
    candidates: Seq<(WorkerWithDpRank, Real64)>,
    loads: Seq<usize>,
    row: usize,
    other: int,
)
    requires
        candidates.len() <= usize::MAX,
        loads.len() == candidates.len(),
        session matches Some(turn) ==> forall|at: int|
            0 <= at < memory.entries.len() ==> (#[trigger] memory.entries[at]).0
                != turn.session_id@,
        selection(memory, slack, session, candidates, Some(loads)) == Ok::<usize, SelectionError>(
            row,
        ),
        0 <= other < candidates.len(),
    ensures
        row < candidates.len(),
        !candidates[other].1.totally_before(candidates[row as int].1),
        candidates[other].1 == candidates[row as int].1 ==> !candidates[other].0.is_before(
            candidates[row as int].0,
        ),
{
    let rows = joined(candidates, loads);
    if let Some(turn) = session {
        assert(!has_entry(memory.entries, turn.session_id@));
    }
    lemma_unplaced_falls_back(rows, None, slack);
    lemma_fallback_is_cheapest(rows, None, slack, row, other);
}

/// A routed session is remembered first among the entries, with the worker of its row. The others
/// are remembered as before, but for the last entry, which makes room for a new session where the
/// memory is full.
pub proof fn lemma_routing_is_remembered(
    memory: Memory,
    turn: SessionTurn,
    candidates: Seq<(WorkerWithDpRank, Real64)>,
    loads: Seq<usize>,
    row: usize,
    entry: int,
)
    requires
        memory.valid(),
        candidates.len() == loads.len(),
        row < candidates.len(),
        !turn.session_final,
        0 <= entry < memory.entries.len(),
        memory.entries[entry].0 != turn.session_id@,
    ensures
        ({
            let next = remembered_after(
                memory,
                Some(turn),
                candidates,
                Some(loads),
                Ok::<usize, SelectionError>(row),
            );
            let worker = candidates[row as int].0;
            let known = exists|at: int|
                0 <= at < memory.entries.len() && (#[trigger] memory.entries[at]).0
                    == turn.session_id@;
            let stays = known || memory.entries.len() < memory.capacity || entry
                < memory.entries.len() - 1;
            &&& next.capacity == memory.capacity
            &&& next.entries.len() > 0
            &&& next.entries[0] == (turn.session_id@, (worker.worker_id, worker.dp_rank))
            &&& stays <==> next.entries.contains(memory.entries[entry])
        }),
{
    let seen = memory.looked_up(turn.session_id@);
    let worker = candidates[row as int].0;
    let next = seen.recorded(turn.session_id@, worker);
    let known = has_entry(memory.entries, turn.session_id@);
    lemma_looked_up(memory, turn.session_id@);
    assert(next.entries[0] == (turn.session_id@, (worker.worker_id, worker.dp_rank)));
    let mine = memory.entries[entry];
    if known {
        let at = entry_at(memory.entries, turn.session_id@);
        assert(memory.entries[at].0 == turn.session_id@);
        assert(seen.entries[0] == memory.entries[at]);
        assert(has_entry(seen.entries, turn.session_id@));
        let front = entry_at(seen.entries, turn.session_id@);
        assert(seen.entries[front].0 == turn.session_id@);
        assert(front == 0) by {
            if front > 0 {
                assert(seen.entries[0].0 != seen.entries[front].0);
            }
        }
        let moved = if entry < at {
            entry + 1
        } else {
            entry
        };
        assert(seen.entries[moved] == mine);
        assert(next.entries[moved] == mine);
    } else {
        assert(seen == memory);
        if memory.entries.len() < memory.capacity || entry < memory.entries.len() - 1 {
            assert(next.entries[entry + 1] == mine);
        } else {
            if next.entries.contains(mine) {
                let k = choose|k: int| 0 <= k < next.entries.len() && next.entries[k] == mine;
                assert(next.entries[k] == memory.entries[k - 1]);
                assert(memory.entries[k - 1].0 != memory.entries[entry].0);
            }
        }
    }
}

/// After its final turn a session is no longer remembered, and every other one is.
pub proof fn lemma_final_turn_is_forgotten(
    memory: Memory,
    turn: SessionTurn,
    candidates: Seq<(WorkerWithDpRank, Real64)>,
    loads: Seq<usize>,
    row: usize,
    at: int,
)
    requires
        memory.valid(),
        candidates.len() == loads.len(),
        row < candidates.len(),
        turn.session_final,
    ensures
        ({
            let next = remembered_after(
                memory,
                Some(turn),
                candidates,
                Some(loads),
                Ok::<usize, SelectionError>(row),
            );
            &&& 0 <= at < next.entries.len() ==> next.entries[at].0 != turn.session_id@
            &&& 0 <= at < memory.entries.len() && memory.entries[at].0 != turn.session_id@
                ==> next.worker(memory.entries[at].0) == Some(
                WorkerWithDpRank {
                    worker_id: (memory.entries[at].1).0,
                    dp_rank: (memory.entries[at].1).1,
                },
            )
        }),
{
    let seen = memory.looked_up(turn.session_id@);
    let next = seen.forgotten(turn.session_id@);
    lemma_looked_up(memory, turn.session_id@);
    lemma_forgotten(seen, turn.session_id@);
    if 0 <= at < next.entries.len() && next.entries[at].0 == turn.session_id@ {
        lemma_remembered(next, at);
    }
    if 0 <= at < memory.entries.len() && memory.entries[at].0 != turn.session_id@ {
        lemma_remembered(memory, at);
        assert(seen.worker(memory.entries[at].0) == memory.worker(memory.entries[at].0));
    }
}

/// Where no worker is selected, every session is remembered as before; without loads, or without a
/// session, nothing is even looked up.
pub proof fn lemma_refusal_keeps_memory(
    memory: Memory,
    session: Option<SessionTurn>,
    candidates: Seq<(WorkerWithDpRank, Real64)>,
    loads: Option<Seq<usize>>,
    selected: Result<usize, SelectionError>,
    name: Seq<char>,
)
    requires
        memory.valid(),
        selected is Err || session is None || loads is None,
    ensures
        remembered_after(memory, session, candidates, loads, selected).worker(name)
            == memory.worker(name),
        session is None || loads is None ==> remembered_after(
            memory,
            session,
            candidates,
            loads,
            selected,
        ) == memory,
{
    if let Some(turn) = session {
        lemma_looked_up(memory, turn.session_id@);
        assert(memory.looked_up(turn.session_id@).worker(name) == memory.worker(name));
    }
}

/// A remembered session that was looked up and not routed is the most recent one, and the others keep
/// their order.
pub proof fn lemma_refused_turn_counts_as_use(
    memory: Memory,
    turn: SessionTurn,
    candidates: Seq<(WorkerWithDpRank, Real64)>,
    loads: Seq<usize>,
    error: SelectionError,
    at: int,
)
    requires
        memory.valid(),
        candidates.len() == loads.len(),
        0 <= at < memory.entries.len(),
        memory.entries[at].0 == turn.session_id@,
    ensures
        remembered_after(
            memory,
            Some(turn),
            candidates,
            Some(loads),
            Err::<usize, SelectionError>(error),
        ).entries == seq![memory.entries[at]] + memory.entries.remove(at),
{
    assert(has_entry(memory.entries, turn.session_id@));
    let found = entry_at(memory.entries, turn.session_id@);
    assert(memory.entries[found].0 == turn.session_id@);
    if found < at {
        assert(memory.entries[found].0 != memory.entries[at].0);
    }
    if at < found {
        assert(memory.entries[at].0 != memory.entries[found].0);
    }
}

/// Two turns of a session: the second is routed where the first was, while that worker stays within
/// the slack.
pub proof fn lemma_next_turn_follows(
    memory: Memory,
    slack: usize,
    turn: SessionTurn,
    next_turn: SessionTurn,
    candidates: Seq<(WorkerWithDpRank, Real64)>,
    loads: Seq<usize>,
    row: usize,
    next_loads: Seq<usize>,
)
    requires
        memory.valid(),
        candidates.len() == loads.len(),
        candidates.len() == next_loads.len(),
        candidates.len() <= usize::MAX,
        row < candidates.len(),
        !turn.session_final,
        next_turn.session_id@ == turn.session_id@,
        forall|at: int|
            row < at < candidates.len() ==> (#[trigger] candidates[at]).0
                != candidates[row as int].0,
        forall|at: int| 0 <= at < candidates.len() ==> (#[trigger] candidates[at]).1.finite(),
        forall|at: int|
            0 <= at < next_loads.len() ==> next_loads[row as int] <= #[trigger] next_loads[at]
                + slack,
    ensures
        selection(
            remembered_after(
                memory,
                Some(turn),
                candidates,
                Some(loads),
                Ok::<usize, SelectionError>(row),
            ),
            slack,
            Some(next_turn),
            candidates,
            Some(next_loads),
        ) == Ok::<usize, SelectionError>(row),
{
    let seen = memory.looked_up(turn.session_id@);
    let next = seen.recorded(turn.session_id@, candidates[row as int].0);
    lemma_looked_up(memory, turn.session_id@);
    lemma_recorded(seen, turn.session_id@, candidates[row as int].0);
    lemma_session_is_routed_back(
        next,
        slack,
        next_turn,
        candidates,
        next_loads,
        0,
        row as int,
    );
}

} // verus!
