//! Selecting a worker for a session.
use vstd::prelude::*;

use crate::choice::{best, pick, Candidates};
use crate::ieee::Real64;
use crate::selection::{
    cache_overlap, has_lower_cost, is_overlap, lower_cost, SelectionError,
};
use crate::session_affinity::config::SessionAffinityConfig;
use crate::session_affinity::placements::{Memory, SessionPlacements};
use crate::worker::WorkerWithDpRank;

verus! {

/// A candidate with its cost and its requests in flight.
#[derive(Clone, Copy, Debug, PartialEq, Eq, Structural)]
pub struct AffinityRow {
    pub worker: WorkerWithDpRank,
    pub cost: Real64,
    pub active_requests: usize,
}

/// Which worker was chosen and why.
#[derive(Clone, Copy, Debug, PartialEq, Eq, Structural)]
pub enum Choice {
    /// The remembered worker, kept because it passed the load gate.
    Sticky(usize),
    /// The lowest-cost worker, used when there is no remembered worker, it is not eligible, or it
    /// failed the load gate.
    Fallback(usize),
}

/// Whether every cost is finite.
pub open spec fn all_finite(rows: Seq<AffinityRow>) -> bool {
    forall|at: int| 0 <= at < rows.len() ==> (#[trigger] rows[at]).cost.finite()
}

/// Of two rows the cheaper one; of two equally cheap ones that of the lower worker, or else the
/// earlier one.
pub open spec fn cheaper_row(rows: Seq<AffinityRow>) -> spec_fn(int, int) -> bool {
    |a: int, b: int| lower_cost(rows[a].cost, rows[a].worker, a, rows[b].cost, rows[b].worker, b)
}

/// The cheapest row.
pub open spec fn cheapest_row(rows: Seq<AffinityRow>) -> Option<int> {
    pick(rows.len() as int, |at: int| true, cheaper_row(rows))
}

/// The last row of a worker.
pub open spec fn last_row(rows: Seq<AffinityRow>, worker: WorkerWithDpRank) -> Option<int> {
    pick(rows.len() as int, |at: int| rows[at].worker == worker, |a: int, b: int| a > b)
}

/// Whether a row's requests in flight are at most `slack` above those of every row.
pub open spec fn within_slack(rows: Seq<AffinityRow>, row: int, slack: usize) -> bool {
    forall|at: int|
        0 <= at < rows.len() ==> rows[row].active_requests <= (
        #[trigger] rows[at]).active_requests.saturating_add(slack)
}

/// The choice: the remembered worker within the slack, or else the cheapest.
pub open spec fn choice(
    rows: Seq<AffinityRow>,
    remembered: Option<WorkerWithDpRank>,
    slack: usize,
) -> Option<Choice> {
    let own = match remembered {
        Some(worker) => last_row(rows, worker),
        None => None,
    };
    match (own, cheapest_row(rows)) {
        (Some(row), _) if within_slack(rows, row, slack) => Some(Choice::Sticky(row as usize)),
        (_, Some(row)) => Some(Choice::Fallback(row as usize)),
        (_, None) => None,
    }
}

struct Cheapest<'a> {
    rows: &'a Vec<AffinityRow>,
}

impl<'a> Candidates for Cheapest<'a> {
    closed spec fn total(&self) -> int {
        self.rows@.len() as int
    }

    closed spec fn allowed(&self) -> spec_fn(int) -> bool {
        |at: int| true
    }

    closed spec fn preferred(&self) -> spec_fn(int, int) -> bool {
        cheaper_row(self.rows@)
    }

    fn count(&self) -> usize {
        self.rows.len()
    }

    fn allows(&self, at: usize) -> bool {
        true
    }

    fn prefers(&self, a: usize, b: usize) -> bool {
        has_lower_cost(
            self.rows[a].cost,
            self.rows[a].worker,
            a,
            self.rows[b].cost,
            self.rows[b].worker,
            b,
        )
    }

    proof fn lemma_ordered(&self) {
    }
}

struct LastOf<'a> {
    rows: &'a Vec<AffinityRow>,
    worker: WorkerWithDpRank,
}

impl<'a> Candidates for LastOf<'a> {
    closed spec fn total(&self) -> int {
        self.rows@.len() as int
    }

    closed spec fn allowed(&self) -> spec_fn(int) -> bool {
        let rows = self.rows@;
        let worker = self.worker;
        |at: int| rows[at].worker == worker
    }

    closed spec fn preferred(&self) -> spec_fn(int, int) -> bool {
        |a: int, b: int| a > b
    }

    fn count(&self) -> usize {
        self.rows.len()
    }

    fn allows(&self, at: usize) -> bool {
        self.rows[at].worker == self.worker
    }

    fn prefers(&self, a: usize, b: usize) -> bool {
        a > b
    }

    proof fn lemma_ordered(&self) {
    }
}

/// Decide between the remembered worker and the cheapest.
///
/// The remembered worker wins while its in-flight request count is at most `slack_requests` above
/// the least-loaded row. Otherwise the lowest cost wins, with exact ties broken by the stable
/// worker order.
pub fn decide(
    rows: &Vec<AffinityRow>,
    remembered: Option<WorkerWithDpRank>,
    slack_requests: usize,
) -> (decision: Result<Option<Choice>, SelectionError>)
    ensures
        decision == (if all_finite(rows@) {
            Ok(choice(rows@, remembered, slack_requests))
        } else {
            Err(SelectionError::CostNotFinite)
        }),
        decision matches Ok(Some(Choice::Sticky(row))) ==> row < rows@.len(),
        decision matches Ok(Some(Choice::Fallback(row))) ==> row < rows@.len(),
        decision matches Ok(None) ==> rows@.len() == 0,
{
    let mut min_active: usize = usize::MAX;
    for at in 0..rows.len()
        invariant
            forall|k: int| 0 <= k < at ==> (#[trigger] rows@[k]).cost.finite(),
            forall|k: int| 0 <= k < at ==> min_active <= (#[trigger] rows@[k]).active_requests,
            min_active == usize::MAX || exists|k: int|
                0 <= k < at && (#[trigger] rows@[k]).active_requests == min_active,
    {
        if !rows[at].cost.is_finite() {
            assert(!rows@[at as int].cost.finite());
            return Err(SelectionError::CostNotFinite);
        }
        if rows[at].active_requests < min_active {
            min_active = rows[at].active_requests;
            assert(rows@[at as int].active_requests == min_active);
        }
    }
    let fallback = best(&Cheapest { rows });
    proof {
        if fallback is None && rows@.len() > 0 {
            assert(!(Cheapest { rows }).allowed()(0));
        }
    }
    if let Some(worker) = remembered {
        let own = best(&LastOf { rows, worker });
        assert((LastOf { rows, worker }).allowed() =~= |at: int| rows@[at].worker == worker);
        if let Some(row) = own {
            let active: usize = rows[row].active_requests;
            let open: bool = active <= min_active.saturating_add(slack_requests);
            assert(open == within_slack(rows@, row as int, slack_requests)) by {
                if !open {
                    let k = choose|k: int|
                        0 <= k < rows@.len() && (#[trigger] rows@[k]).active_requests == min_active;
                    assert(rows@[k].active_requests == min_active);
                } else {
                    assert forall|k: int| 0 <= k < rows@.len() implies active <= (
                    #[trigger] rows@[k]).active_requests.saturating_add(slack_requests) by {
                    }
                }
            }
            if open {
                return Ok(Some(Choice::Sticky(row)));
            }
        }
    }
    match fallback {
        Some(row) => Ok(Some(Choice::Fallback(row))),
        None => Ok(None),
    }
}

/// What a candidate's fallback cost needs: its load and a usable device overlap. The host turns
/// both into a cost in tokens.
pub fn cost_inputs<L>(load: Option<L>, device_overlap_blocks: Option<Real64>) -> (checked: Result<
    (L, Real64),
    SelectionError,
>)
    ensures
        checked == (match (load, device_overlap_blocks) {
            (None, _) => Err(SelectionError::LoadUnavailable),
            (_, None) => Err(SelectionError::CacheUnavailable),
            (Some(load), Some(overlap)) => if is_overlap(overlap) {
                Ok((load, overlap))
            } else {
                Err(SelectionError::InvalidOverlap)
            },
        }),
{
    match load {
        None => Err(SelectionError::LoadUnavailable),
        Some(load) => match device_overlap_blocks {
            None => Err(SelectionError::CacheUnavailable),
            Some(overlap) => match cache_overlap(overlap) {
                Ok(overlap) => Ok((load, overlap)),
                Err(error) => Err(error),
            },
        },
    }
}

/// The session of a request.
pub struct SessionTurn {
    pub session_id: String,
    pub session_final: bool,
}

/// The row of a choice.
pub open spec fn chosen_row(choice: Choice) -> usize {
    match choice {
        Choice::Sticky(row) => row,
        Choice::Fallback(row) => row,
    }
}

/// The candidate rows of a costed table and its loads.
pub open spec fn joined(candidates: Seq<(WorkerWithDpRank, Real64)>, loads: Seq<usize>) -> Seq<
    AffinityRow,
> {
    Seq::new(
        candidates.len(),
        |at: int|
            AffinityRow {
                worker: candidates[at].0,
                cost: candidates[at].1,
                active_requests: loads[at],
            },
    )
}

/// What a request's selection returns.
pub open spec fn selection(
    memory: Memory,
    slack: usize,
    session: Option<SessionTurn>,
    candidates: Seq<(WorkerWithDpRank, Real64)>,
    loads: Option<Seq<usize>>,
) -> Result<usize, SelectionError> {
    let remembered = match session {
        Some(turn) => memory.worker(turn.session_id@),
        None => None,
    };
    match loads {
        None => Err(SelectionError::LoadUnavailable),
        Some(loads) => if loads.len() != candidates.len() {
            Err(SelectionError::LoadMismatch)
        } else if !all_finite(joined(candidates, loads)) {
            Err(SelectionError::CostNotFinite)
        } else {
            match choice(joined(candidates, loads), remembered, slack) {
                Some(choice) => Ok(chosen_row(choice)),
                None => Err(SelectionError::NoEligibleWorker),
            }
        },
    }
}

/// What is remembered after a request's selection: a looked up session is the most recent one; a
/// routed one is remembered with its worker, or forgotten after its final turn.
pub open spec fn remembered_after(
    memory: Memory,
    session: Option<SessionTurn>,
    candidates: Seq<(WorkerWithDpRank, Real64)>,
    loads: Option<Seq<usize>>,
    selected: Result<usize, SelectionError>,
) -> Memory {
    match (session, loads) {
        (Some(turn), Some(loads)) if loads.len() == candidates.len() => {
            let seen = memory.looked_up(turn.session_id@);
            match selected {
                Ok(row) => if turn.session_final {
                    seen.forgotten(turn.session_id@)
                } else {
                    seen.recorded(turn.session_id@, candidates[row as int].0)
                },
                Err(_) => seen,
            }
        },
        _ => memory,
    }
}

/// Keeps a session on the worker that served its previous turn while that worker is within
/// `slack_requests` of the least-loaded eligible worker.
pub struct SessionAffinityPicker {
    slack_requests: usize,
    placements: SessionPlacements,
}

impl SessionAffinityPicker {
    pub closed spec fn slack(&self) -> usize {
        self.slack_requests
    }

    pub closed spec fn memory(&self) -> Memory {
        self.placements@
    }

    pub fn new(config: SessionAffinityConfig) -> (picker: Self)
        requires
            config.max_sessions * 128 <= usize::MAX,
        ensures
            picker.slack() == config.slack_requests,
            picker.memory().valid(),
            picker.memory().entries.len() == 0,
            picker.memory().capacity == (if config.max_sessions == 0 {
                1
            } else {
                config.max_sessions as nat
            }),
    {
        SessionAffinityPicker {
            slack_requests: config.slack_requests,
            placements: SessionPlacements::new(config.max_sessions()),
        }
    }

    /// Select a worker and remember it for the session.
    ///
    /// `loads` holds the requests in flight of each candidate, where the host has them.
    pub fn pick(
        &mut self,
        session: Option<SessionTurn>,
        candidates: &Vec<(WorkerWithDpRank, Real64)>,
        loads: Option<&Vec<usize>>,
    ) -> (selected: Result<usize, SelectionError>)
        ensures
            selected == selection(
                old(self).memory(),
                old(self).slack(),
                session,
                candidates@,
                match loads {
                    Some(loads) => Some(loads@),
                    None => None,
                },
            ),
            selected matches Ok(row) ==> row < candidates@.len(),
            final(self).memory() == remembered_after(
                old(self).memory(),
                session,
                candidates@,
                match loads {
                    Some(loads) => Some(loads@),
                    None => None,
                },
                selected,
            ),
            final(self).slack() == old(self).slack(),
            old(self).memory().valid() ==> final(self).memory().valid(),
    {
        let loads: &Vec<usize> = match loads {
            Some(loads) => loads,
            None => {
                return Err(SelectionError::LoadUnavailable);
            },
        };
        if loads.len() != candidates.len() {
            return Err(SelectionError::LoadMismatch);
        }
        let remembered: Option<WorkerWithDpRank> = match &session {
            Some(turn) => self.placements.get(turn.session_id.as_str()),
            None => None,
        };
        let mut rows: Vec<AffinityRow> = Vec::new();
        for at in 0..candidates.len()
            invariant
                loads@.len() == candidates@.len(),
                rows@.len() == at,
                forall|k: int|
                    0 <= k < at ==> #[trigger] rows@[k] == joined(candidates@, loads@)[k],
        {
            rows.push(
                AffinityRow {
                    worker: candidates[at].0,
                    cost: candidates[at].1,
                    active_requests: loads[at],
                },
            );
        }
        assert(rows@ =~= joined(candidates@, loads@));
        let row: usize = match decide(&rows, remembered, self.slack_requests) {
            Ok(Some(Choice::Sticky(row))) => row,
            Ok(Some(Choice::Fallback(row))) => row,
            Ok(None) => {
                return Err(SelectionError::NoEligibleWorker);
            },
            Err(error) => {
                return Err(error);
            },
        };
        if let Some(turn) = &session {
            if turn.session_final {
                self.placements.forget(turn.session_id.as_str());
            } else {
                self.placements.record(turn.session_id.as_str(), candidates[row].0);
            }
        }
        Ok(row)
    }
}

} // verus!
