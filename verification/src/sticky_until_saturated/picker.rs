//! Selecting a warm worker until it is saturated.
use vstd::prelude::*;

use crate::choice::{best, pick, Candidates};
use crate::ieee::Real64;
use crate::selection::{cache_overlap, has_lower_cost, is_overlap, lower_cost, SelectionError};
use crate::sticky_until_saturated::config::StickyUntilSaturatedConfig;
use crate::worker::WorkerWithDpRank;

verus! {

/// What a pool of workers is for.
#[derive(Clone, Copy, Debug, PartialEq, Eq, Structural)]
pub enum WorkerRole {
    Prefill,
    Decode,
    Encode,
    Aggregated,
}

/// What workers are compared by.
#[derive(Clone, Copy, Debug, PartialEq, Eq, Structural)]
pub enum PrimaryLoad {
    ProjectedPrefill,
    ActiveRequests,
}

/// What a policy needs to know of each worker.
#[derive(Clone, Copy, Debug, PartialEq, Eq, Structural)]
pub struct RequiredInputs {
    pub load: bool,
    pub cache: bool,
}

impl PrimaryLoad {
    /// Pools that prefill are compared by projected prefill, the others by active requests.
    pub open spec fn of_role(role: WorkerRole) -> PrimaryLoad {
        match role {
            WorkerRole::Prefill => PrimaryLoad::ProjectedPrefill,
            WorkerRole::Aggregated => PrimaryLoad::ProjectedPrefill,
            WorkerRole::Decode => PrimaryLoad::ActiveRequests,
            WorkerRole::Encode => PrimaryLoad::ActiveRequests,
        }
    }

    pub fn for_role(role: WorkerRole) -> (load: PrimaryLoad)
        ensures
            load == PrimaryLoad::of_role(role),
    {
        match role {
            WorkerRole::Prefill | WorkerRole::Aggregated => PrimaryLoad::ProjectedPrefill,
            WorkerRole::Decode | WorkerRole::Encode => PrimaryLoad::ActiveRequests,
        }
    }

    pub fn requires_prefill_tracking(self) -> (required: bool)
        ensures
            required == (self == PrimaryLoad::ProjectedPrefill),
    {
        self == PrimaryLoad::ProjectedPrefill
    }

    pub fn uses_cache_affinity(self) -> (used: bool)
        ensures
            used == (self == PrimaryLoad::ProjectedPrefill),
    {
        self == PrimaryLoad::ProjectedPrefill
    }

    pub fn required_worker_inputs(self) -> (inputs: RequiredInputs)
        ensures
            inputs.load,
            inputs.cache == (self == PrimaryLoad::ProjectedPrefill),
    {
        RequiredInputs { load: true, cache: self.uses_cache_affinity() }
    }
}

/// The load of a candidate.
#[derive(Clone, Copy, Debug, PartialEq, Eq, Structural)]
pub struct StickyLoad {
    /// Prefill tokens in flight.
    pub active_prefill_tokens: usize,
    /// The number of active requests, as a number to compare by.
    pub active_requests: Real64,
}

/// A candidate as far as the host knows it.
///
/// `cached_fraction` is the device overlap over the request's blocks, and `projected_prefill` the
/// prefill tokens in flight plus those that the request would add; the host computes both.
#[derive(Clone, Copy, Debug, PartialEq, Eq, Structural)]
pub struct StickyRow {
    pub worker: WorkerWithDpRank,
    pub load: Option<StickyLoad>,
    pub device_overlap_blocks: Option<Real64>,
    pub cached_fraction: Real64,
    pub projected_prefill: Real64,
}

impl StickyRow {
    /// What keeps a row from being used.
    pub open spec fn defect(self, primary: PrimaryLoad) -> Option<SelectionError> {
        if self.load is None {
            Some(SelectionError::LoadUnavailable)
        } else if primary == PrimaryLoad::ProjectedPrefill {
            match self.device_overlap_blocks {
                None => Some(SelectionError::CacheUnavailable),
                Some(overlap) => if is_overlap(overlap) {
                    None
                } else {
                    Some(SelectionError::InvalidOverlap)
                },
            }
        } else {
            None
        }
    }

    /// The number that a row is compared by.
    pub open spec fn cost(self, primary: PrimaryLoad) -> Real64 {
        match (primary, self.load) {
            (PrimaryLoad::ActiveRequests, Some(load)) => load.active_requests,
            _ => self.projected_prefill,
        }
    }

    /// Whether the row's worker holds enough of the request's blocks.
    pub open spec fn warm(self, primary: PrimaryLoad, request_blocks: u64, threshold: Real64) -> bool {
        &&& primary == PrimaryLoad::ProjectedPrefill
        &&& request_blocks > 0
        &&& threshold.at_most(self.cached_fraction)
    }

    fn check(&self, primary: PrimaryLoad) -> (checked: Result<StickyLoad, SelectionError>)
        ensures
            match checked {
                Ok(load) => self.defect(primary) is None && self.load == Some(load),
                Err(error) => self.defect(primary) == Some(error),
            },
    {
        let load = match self.load {
            Some(load) => load,
            None => {
                return Err(SelectionError::LoadUnavailable);
            },
        };
        if primary.uses_cache_affinity() {
            let overlap = match self.device_overlap_blocks {
                Some(overlap) => overlap,
                None => {
                    return Err(SelectionError::CacheUnavailable);
                },
            };
            match cache_overlap(overlap) {
                Ok(_) => {},
                Err(error) => {
                    return Err(error);
                },
            }
        }
        Ok(load)
    }

    fn is_warm(&self, primary: PrimaryLoad, request_blocks: u64, threshold: Real64) -> (warm: bool)
        ensures
            warm == self.warm(primary, request_blocks, threshold),
    {
        primary.uses_cache_affinity() && request_blocks > 0 && threshold.le(&self.cached_fraction)
    }

    fn row_cost(&self, primary: PrimaryLoad) -> (cost: Real64)
        ensures
            cost == self.cost(primary),
    {
        match primary {
            PrimaryLoad::ProjectedPrefill => self.projected_prefill,
            PrimaryLoad::ActiveRequests => match self.load {
                Some(load) => load.active_requests,
                None => self.projected_prefill,
            },
        }
    }

    /// The number that the row is compared by, if it is finite.
    fn primary_cost(&self, primary: PrimaryLoad) -> (cost: Result<Real64, SelectionError>)
        ensures
            cost == (if self.cost(primary).finite() {
                Ok(self.cost(primary))
            } else {
                Err(SelectionError::PrimaryLoadNotFinite)
            }),
    {
        let cost = self.row_cost(primary);
        if cost.is_finite() {
            Ok(cost)
        } else {
            Err(SelectionError::PrimaryLoadNotFinite)
        }
    }
}

/// What is known of the request.
#[derive(Clone, Copy, Debug, PartialEq, Eq, Structural)]
pub struct RequestContext {
    pub request_blocks: u64,
    pub tracks_prefill_tokens: bool,
}

/// Whether prefill tokens are compared but not tracked.
pub open spec fn lacks_tracking(context: RequestContext, primary: PrimaryLoad) -> bool {
    primary == PrimaryLoad::ProjectedPrefill && !context.tracks_prefill_tokens
}

fn require_prefill_tracking(context: RequestContext, primary: PrimaryLoad) -> (checked: Result<
    (),
    SelectionError,
>)
    ensures
        checked == (if lacks_tracking(context, primary) {
            Err(SelectionError::PrefillTrackingRequired)
        } else {
            Ok(())
        }),
{
    if primary.requires_prefill_tracking() && !context.tracks_prefill_tokens {
        return Err(SelectionError::PrefillTrackingRequired);
    }
    Ok(())
}

/// The primary, lower-is-better signal of one candidate.
pub struct StickyUntilSaturatedScorer {
    pub primary_load: PrimaryLoad,
}

impl StickyUntilSaturatedScorer {
    pub fn new(primary_load: PrimaryLoad) -> (scorer: Self)
        ensures
            scorer.primary_load == primary_load,
    {
        StickyUntilSaturatedScorer { primary_load }
    }

    pub fn score(&self, context: RequestContext, row: &StickyRow) -> (score: Result<
        Real64,
        SelectionError,
    >)
        ensures
            score == (if lacks_tracking(context, self.primary_load) {
                Err(SelectionError::PrefillTrackingRequired)
            } else {
                match row.defect(self.primary_load) {
                    Some(error) => Err(error),
                    None => if row.cost(self.primary_load).finite() {
                        Ok(row.cost(self.primary_load))
                    } else {
                        Err(SelectionError::PrimaryLoadNotFinite)
                    },
                }
            }),
    {
        if let Err(error) = require_prefill_tracking(context, self.primary_load) {
            return Err(error);
        }
        match row.check(self.primary_load) {
            Ok(_) => row.primary_cost(self.primary_load),
            Err(error) => Err(error),
        }
    }
}

/// The least prefill tokens in flight on warm workers and on cold ones.
#[derive(Clone, Copy, Debug, PartialEq, Eq, Structural)]
pub struct InFlight {
    pub best_warm: Option<usize>,
    pub best_cold: Option<usize>,
}

/// The smaller of a number and one that may be absent.
pub open spec fn least(held: Option<usize>, next: usize) -> Option<usize> {
    match held {
        Some(held) if held <= next => Some(held),
        _ => Some(next),
    }
}

/// The first defect of a row, in row order.
pub open spec fn first_defect(rows: Seq<StickyRow>, primary: PrimaryLoad) -> Option<SelectionError>
    decreases rows.len(),
{
    if rows.len() == 0 {
        None
    } else {
        match first_defect(rows.drop_last(), primary) {
            Some(error) => Some(error),
            None => rows.last().defect(primary),
        }
    }
}

/// The least in-flight prefill of rows without a defect.
pub open spec fn in_flight(
    rows: Seq<StickyRow>,
    primary: PrimaryLoad,
    request_blocks: u64,
    threshold: Real64,
) -> InFlight
    decreases rows.len(),
{
    if rows.len() == 0 {
        InFlight { best_warm: None, best_cold: None }
    } else {
        let earlier = in_flight(rows.drop_last(), primary, request_blocks, threshold);
        let tokens = rows.last().load->0.active_prefill_tokens;
        if rows.last().warm(primary, request_blocks, threshold) {
            InFlight { best_warm: least(earlier.best_warm, tokens), ..earlier }
        } else {
            InFlight { best_cold: least(earlier.best_cold, tokens), ..earlier }
        }
    }
}

/// Whether only warm workers are considered: while there are any and the best cold one is not
/// less loaded by more than the margin. `lead` is what the best warm worker has in flight beyond
/// the best cold one.
pub open spec fn keeps_warm(
    loads: InFlight,
    max_ttft_penalty_ms: u64,
    lead: Real64,
    margin: Real64,
) -> bool {
    loads.best_warm is Some && (max_ttft_penalty_ms == 0 || loads.best_cold is None
        || lead.at_most(margin))
}

/// The rows that are considered.
pub open spec fn considered(
    rows: Seq<StickyRow>,
    primary: PrimaryLoad,
    request_blocks: u64,
    threshold: Real64,
    keep: bool,
) -> spec_fn(int) -> bool {
    |at: int| !keep || rows[at].warm(primary, request_blocks, threshold)
}

/// The less loaded of two rows; of two equal ones that of the lower worker, or else the earlier
/// one.
pub open spec fn less_loaded(rows: Seq<StickyRow>, primary: PrimaryLoad) -> spec_fn(int, int) -> bool {
    |a: int, b: int|
        lower_cost(
            rows[a].cost(primary),
            rows[a].worker,
            a,
            rows[b].cost(primary),
            rows[b].worker,
            b,
        )
}

/// The first row that cannot be compared, in row order.
pub open spec fn first_problem(
    rows: Seq<StickyRow>,
    primary: PrimaryLoad,
    request_blocks: u64,
    threshold: Real64,
    keep: bool,
) -> Option<SelectionError>
    decreases rows.len(),
{
    if rows.len() == 0 {
        None
    } else {
        let row = rows.last();
        match first_problem(rows.drop_last(), primary, request_blocks, threshold, keep) {
            Some(error) => Some(error),
            None => match row.defect(primary) {
                Some(error) => Some(error),
                None => if (!keep || row.warm(primary, request_blocks, threshold)) && !row.cost(
                    primary,
                ).finite() {
                    Some(SelectionError::PrimaryLoadNotFinite)
                } else {
                    None
                },
            },
        }
    }
}

/// The row that is selected.
pub open spec fn sticky_selection(
    config: StickyUntilSaturatedConfig,
    primary: PrimaryLoad,
    context: RequestContext,
    rows: Seq<StickyRow>,
    lead: Real64,
    margin: Real64,
) -> Result<usize, SelectionError> {
    let blocks = context.request_blocks;
    let threshold = config.affinity_threshold;
    let affinity = primary == PrimaryLoad::ProjectedPrefill;
    let loads = in_flight(rows, primary, blocks, threshold);
    let keep = affinity && keeps_warm(loads, config.max_ttft_penalty_ms, lead, margin);
    if lacks_tracking(context, primary) {
        Err(SelectionError::PrefillTrackingRequired)
    } else if affinity && first_defect(rows, primary) is Some {
        Err(first_defect(rows, primary)->0)
    } else {
        match first_problem(rows, primary, blocks, threshold, keep) {
            Some(error) => Err(error),
            None => match pick(
                rows.len() as int,
                considered(rows, primary, blocks, threshold, keep),
                less_loaded(rows, primary),
            ) {
                Some(at) => Ok(at as usize),
                None => Err(SelectionError::NoEligibleWorker),
            },
        }
    }
}

struct Considered<'a> {
    rows: &'a Vec<StickyRow>,
    primary: PrimaryLoad,
    request_blocks: u64,
    threshold: Real64,
    keep: bool,
}

impl<'a> Candidates for Considered<'a> {
    closed spec fn total(&self) -> int {
        self.rows@.len() as int
    }

    closed spec fn allowed(&self) -> spec_fn(int) -> bool {
        considered(self.rows@, self.primary, self.request_blocks, self.threshold, self.keep)
    }

    closed spec fn preferred(&self) -> spec_fn(int, int) -> bool {
        less_loaded(self.rows@, self.primary)
    }

    fn count(&self) -> usize {
        self.rows.len()
    }

    fn allows(&self, at: usize) -> bool {
        !self.keep || self.rows[at].is_warm(self.primary, self.request_blocks, self.threshold)
    }

    fn prefers(&self, a: usize, b: usize) -> bool {
        has_lower_cost(
            self.rows[a].row_cost(self.primary),
            self.rows[a].worker,
            a,
            self.rows[b].row_cost(self.primary),
            self.rows[b].worker,
            b,
        )
    }

    proof fn lemma_ordered(&self) {
    }
}

/// Chooses a warm worker until a cold worker clears the token-based saturation margin.
pub struct StickyUntilSaturatedPicker {
    pub config: StickyUntilSaturatedConfig,
    pub primary_load: PrimaryLoad,
}

impl StickyUntilSaturatedPicker {
    pub fn new(config: StickyUntilSaturatedConfig, primary_load: PrimaryLoad) -> (picker: Self)
        ensures
            picker.config == config,
            picker.primary_load == primary_load,
    {
        StickyUntilSaturatedPicker { config, primary_load }
    }

    /// The least in-flight prefill of warm and of cold workers, from which the host
    /// computes the lead.
    pub fn in_flight(&self, request_blocks: u64, rows: &Vec<StickyRow>) -> (loads: Result<
        InFlight,
        SelectionError,
    >)
        ensures
            loads == (match first_defect(rows@, self.primary_load) {
                Some(error) => Err(error),
                None => Ok(
                    in_flight(
                        rows@,
                        self.primary_load,
                        request_blocks,
                        self.config.affinity_threshold,
                    ),
                ),
            }),
    {
        let primary = self.primary_load;
        let threshold = self.config.affinity_threshold;
        let mut loads = InFlight { best_warm: None, best_cold: None };
        assert(rows@.take(0) =~= Seq::<StickyRow>::empty());
        for at in 0..rows.len()
            invariant
                primary == self.primary_load,
                threshold == self.config.affinity_threshold,
                first_defect(rows@.take(at as int), primary) is None,
                loads == in_flight(rows@.take(at as int), primary, request_blocks, threshold),
        {
            assert(rows@.take(at + 1).drop_last() =~= rows@.take(at as int));
            let row: StickyRow = rows[at];
            match row.check(primary) {
                Ok(load) => {
                    if row.is_warm(primary, request_blocks, threshold) {
                        loads.best_warm = least_of(loads.best_warm, load.active_prefill_tokens);
                    } else {
                        loads.best_cold = least_of(loads.best_cold, load.active_prefill_tokens);
                    }
                },
                Err(error) => {
                    proof {
                        lemma_first_defect_stays(rows@, at + 1, primary);
                    }
                    return Err(error);
                },
            }
        }
        assert(rows@.take(rows@.len() as int) =~= rows@);
        Ok(loads)
    }

    fn check_rows(&self, request_blocks: u64, rows: &Vec<StickyRow>, keep: bool) -> (checked: Result<
        (),
        SelectionError,
    >)
        ensures
            first_problem(
                rows@,
                self.primary_load,
                request_blocks,
                self.config.affinity_threshold,
                keep,
            ) == (match checked {
                Ok(()) => None,
                Err(error) => Some(error),
            }),
    {
        let primary = self.primary_load;
        let threshold = self.config.affinity_threshold;
        assert(rows@.take(0) =~= Seq::<StickyRow>::empty());
        for at in 0..rows.len()
            invariant
                primary == self.primary_load,
                threshold == self.config.affinity_threshold,
                first_problem(rows@.take(at as int), primary, request_blocks, threshold, keep)
                    is None,
        {
            assert(rows@.take(at + 1).drop_last() =~= rows@.take(at as int));
            let row: StickyRow = rows[at];
            let found: Result<(), SelectionError> = match row.check(primary) {
                Ok(_) => if !keep || row.is_warm(primary, request_blocks, threshold) {
                    match row.primary_cost(primary) {
                        Ok(_) => Ok(()),
                        Err(error) => Err(error),
                    }
                } else {
                    Ok(())
                },
                Err(error) => Err(error),
            };
            if let Err(error) = found {
                proof {
                    lemma_first_problem_stays(
                        rows@,
                        at + 1,
                        primary,
                        request_blocks,
                        threshold,
                        keep,
                    );
                }
                return Err(error);
            }
        }
        assert(rows@.take(rows@.len() as int) =~= rows@);
        Ok(())
    }

    /// Whether only warm workers are considered.
    fn sticky_set_is_eligible(
        &self,
        request_blocks: u64,
        rows: &Vec<StickyRow>,
        lead: Real64,
        margin: Real64,
    ) -> (keep: Result<bool, SelectionError>)
        ensures
            keep == (match first_defect(rows@, self.primary_load) {
                Some(error) => Err(error),
                None => Ok(
                    keeps_warm(
                        in_flight(
                            rows@,
                            self.primary_load,
                            request_blocks,
                            self.config.affinity_threshold,
                        ),
                        self.config.max_ttft_penalty_ms,
                        lead,
                        margin,
                    ),
                ),
            }),
    {
        match self.in_flight(request_blocks, rows) {
            Ok(loads) => Ok(
                loads.best_warm.is_some() && (self.config.max_ttft_penalty_ms == 0
                    || loads.best_cold.is_none() || lead.le(&margin)),
            ),
            Err(error) => Err(error),
        }
    }

    /// Select a worker.
    ///
    /// `lead` is the best warm worker's in-flight prefill less the best cold worker's, and `margin`
    /// the tokens that it may come to; the host computes both. Without both workers they do not
    /// matter.
    pub fn pick(
        &self,
        context: RequestContext,
        rows: &Vec<StickyRow>,
        lead: Real64,
        margin: Real64,
    ) -> (row: Result<usize, SelectionError>)
        ensures
            row == sticky_selection(
                self.config,
                self.primary_load,
                context,
                rows@,
                lead,
                margin,
            ),
            row matches Ok(at) ==> at < rows@.len(),
    {
        if let Err(error) = require_prefill_tracking(context, self.primary_load) {
            return Err(error);
        }
        let request_blocks: u64 = context.request_blocks;
        let keep: bool = if self.primary_load.uses_cache_affinity() {
            match self.sticky_set_is_eligible(request_blocks, rows, lead, margin) {
                Ok(keep) => keep,
                Err(error) => {
                    return Err(error);
                },
            }
        } else {
            false
        };
        if let Err(error) = self.check_rows(request_blocks, rows, keep) {
            return Err(error);
        }
        let found = best(
            &Considered {
                rows,
                primary: self.primary_load,
                request_blocks,
                threshold: self.config.affinity_threshold,
                keep,
            },
        );
        match found {
            Some(at) => Ok(at),
            None => Err(SelectionError::NoEligibleWorker),
        }
    }
}

fn least_of(held: Option<usize>, next: usize) -> (smaller: Option<usize>)
    ensures
        smaller == least(held, next),
{
    match held {
        Some(held) => if held <= next {
            Some(held)
        } else {
            Some(next)
        },
        None => Some(next),
    }
}

proof fn lemma_first_defect_stays(rows: Seq<StickyRow>, at: int, primary: PrimaryLoad)
    requires
        0 <= at <= rows.len(),
        first_defect(rows.take(at), primary) is Some,
    ensures
        first_defect(rows, primary) == first_defect(rows.take(at), primary),
    decreases rows.len() - at,
{
    if at == rows.len() {
        assert(rows.take(at) =~= rows);
    } else {
        assert(rows.take(at + 1).drop_last() =~= rows.take(at));
        lemma_first_defect_stays(rows, at + 1, primary);
    }
}

proof fn lemma_first_problem_stays(
    rows: Seq<StickyRow>,
    at: int,
    primary: PrimaryLoad,
    request_blocks: u64,
    threshold: Real64,
    keep: bool,
)
    requires
        0 <= at <= rows.len(),
        first_problem(rows.take(at), primary, request_blocks, threshold, keep) is Some,
    ensures
        first_problem(rows, primary, request_blocks, threshold, keep) == first_problem(
            rows.take(at),
            primary,
            request_blocks,
            threshold,
            keep,
        ),
    decreases rows.len() - at,
{
    if at == rows.len() {
        assert(rows.take(at) =~= rows);
    } else {
        assert(rows.take(at + 1).drop_last() =~= rows.take(at));
        lemma_first_problem_stays(rows, at + 1, primary, request_blocks, threshold, keep);
    }
}

} // verus!
