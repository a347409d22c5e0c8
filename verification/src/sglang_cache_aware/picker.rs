//! Selecting by load where the pool is unbalanced, and by cached prefix where it is not.
use vstd::prelude::*;

use crate::choice::{best, pick, Candidates};
use crate::ieee::Real64;
use crate::selection::{cache_overlap, is_overlap, SelectionError};
use crate::sglang_cache_aware::config::SglangCacheAwareConfig;
use crate::worker::WorkerWithDpRank;

verus! {

/// The requests in flight on a worker.
///
/// `requests` is their number, and `limit` that number times the balance ratio, both as numbers to
/// compare by; the host computes them.
#[derive(Clone, Copy, Debug, PartialEq, Eq, Structural)]
pub struct RequestLoad {
    pub active_requests: usize,
    pub requests: Real64,
    pub limit: Real64,
}

/// A candidate as far as the host knows it. `cached_fraction` is the device overlap over the
/// request's blocks; the host computes it.
#[derive(Clone, Copy, Debug, PartialEq, Eq, Structural)]
pub struct CacheRow {
    pub worker: WorkerWithDpRank,
    pub load: Option<RequestLoad>,
    pub device_overlap_blocks: Option<Real64>,
    pub cached_fraction: Real64,
}

impl CacheRow {
    /// What keeps a row from being used.
    pub open spec fn defect(self) -> Option<SelectionError> {
        match (self.device_overlap_blocks, self.load) {
            (None, _) => Some(SelectionError::CacheUnavailable),
            (_, None) => Some(SelectionError::LoadUnavailable),
            (Some(overlap), _) => if is_overlap(overlap) {
                None
            } else {
                Some(SelectionError::InvalidOverlap)
            },
        }
    }
}

/// The first defect of a row, in row order.
pub open spec fn first_defect(rows: Seq<CacheRow>) -> Option<SelectionError>
    decreases rows.len(),
{
    if rows.len() == 0 {
        None
    } else {
        match first_defect(rows.drop_last()) {
            Some(error) => Some(error),
            None => rows.last().defect(),
        }
    }
}

/// A row without a defect.
#[derive(Clone, Copy, Debug, PartialEq, Eq, Structural)]
pub struct Metrics {
    pub worker: WorkerWithDpRank,
    pub load: RequestLoad,
    pub device_overlap_blocks: Real64,
    pub cached_fraction: Real64,
}

/// The metrics of rows without a defect.
pub open spec fn metrics(rows: Seq<CacheRow>) -> Seq<Metrics> {
    rows.map_values(
        |row: CacheRow|
            Metrics {
                worker: row.worker,
                load: row.load->0,
                device_overlap_blocks: row.device_overlap_blocks->0,
                cached_fraction: row.cached_fraction,
            },
    )
}

/// Of two loads the smaller one first, or else the earlier.
pub open spec fn fewer_requests(rows: Seq<Metrics>) -> spec_fn(int, int) -> bool {
    |a: int, b: int|
        rows[a].load.active_requests < rows[b].load.active_requests || (
        rows[a].load.active_requests == rows[b].load.active_requests && a < b)
}

/// Of two loads the larger one first, or else the earlier.
pub open spec fn more_requests(rows: Seq<Metrics>) -> spec_fn(int, int) -> bool {
    |a: int, b: int|
        rows[a].load.active_requests > rows[b].load.active_requests || (
        rows[a].load.active_requests == rows[b].load.active_requests && a < b)
}

/// The lower of two workers, or else the earlier row.
pub open spec fn lower_worker(rows: Seq<Metrics>) -> spec_fn(int, int) -> bool {
    |a: int, b: int|
        if rows[a].worker != rows[b].worker {
            rows[a].worker.is_before(rows[b].worker)
        } else {
            a < b
        }
}

/// Of two rows that with the larger overlap; of two equal ones that of the lower worker, or else
/// the earlier one.
pub open spec fn larger_overlap(rows: Seq<Metrics>) -> spec_fn(int, int) -> bool {
    |a: int, b: int|
        if rows[a].device_overlap_blocks != rows[b].device_overlap_blocks {
            rows[b].device_overlap_blocks.totally_before(rows[a].device_overlap_blocks)
        } else {
            lower_worker(rows)(a, b)
        }
}

/// Whether a pool is unbalanced: the largest load exceeds the smallest by more than the absolute
/// threshold and by more than the ratio.
pub open spec fn imbalanced(smallest: RequestLoad, largest: RequestLoad, threshold: usize) -> bool {
    largest.active_requests - smallest.active_requests > threshold && smallest.limit.below(
        largest.requests,
    )
}

/// Whether a pool is unbalanced.
pub fn is_imbalanced(smallest: &RequestLoad, largest: &RequestLoad, threshold: usize) -> (unbalanced:
    bool)
    ensures
        unbalanced == imbalanced(*smallest, *largest, threshold),
{
    largest.active_requests.saturating_sub(smallest.active_requests) > threshold
        && smallest.limit.lt(&largest.requests)
}

/// The least loaded row; of two equally loaded ones that of the lower worker.
pub open spec fn least_loaded_row(rows: Seq<Metrics>, load: usize) -> Option<int> {
    pick(
        rows.len() as int,
        |at: int| rows[at].load.active_requests == load,
        lower_worker(rows),
    )
}

/// The rows that hold enough of the request's blocks.
pub open spec fn cached_enough(
    rows: Seq<Metrics>,
    request_blocks: u64,
    threshold: Real64,
) -> spec_fn(int) -> bool {
    |at: int| !shown_fraction(rows[at], request_blocks).at_most(threshold)
}

/// The cached fraction of a row; of a request without blocks nothing is cached.
pub open spec fn shown_fraction(row: Metrics, request_blocks: u64) -> Real64 {
    if request_blocks > 0 {
        row.cached_fraction
    } else {
        Real64 { bits: 0 }
    }
}

/// The row of the largest cached prefix, where one is large enough.
pub open spec fn best_cached_row(
    rows: Seq<Metrics>,
    request_blocks: u64,
    threshold: Real64,
) -> Option<int> {
    pick(
        rows.len() as int,
        cached_enough(rows, request_blocks, threshold),
        larger_overlap(rows),
    )
}

/// A row, or an error where there is none.
pub open spec fn row_or(row: Option<int>, error: SelectionError) -> Result<usize, SelectionError> {
    match row {
        Some(at) => Ok(at as usize),
        None => Err(error),
    }
}

/// The row that is selected among rows without a defect.
pub open spec fn gated_selection(
    config: SglangCacheAwareConfig,
    request_blocks: u64,
    rows: Seq<Metrics>,
) -> Result<usize, SelectionError> {
    let all = |at: int| true;
    match (
        pick(rows.len() as int, all, fewer_requests(rows)),
        pick(rows.len() as int, all, more_requests(rows)),
    ) {
        (Some(least), Some(most)) if rows[least].load.active_requests != usize::MAX => {
            let smallest = rows[least].load;
            let fallback = row_or(
                least_loaded_row(rows, smallest.active_requests),
                SelectionError::NoLeastLoadedWorker,
            );
            if imbalanced(smallest, rows[most].load, config.balance_abs_threshold) {
                fallback
            } else {
                match best_cached_row(rows, request_blocks, config.cache_threshold) {
                    Some(at) => Ok(at as usize),
                    None => fallback,
                }
            }
        },
        _ => Err(SelectionError::NoEligibleWorker),
    }
}

/// The row that is selected.
pub open spec fn cache_aware_selection(
    config: SglangCacheAwareConfig,
    request_blocks: u64,
    rows: Seq<CacheRow>,
) -> Result<usize, SelectionError> {
    match first_defect(rows) {
        Some(error) => Err(error),
        None => gated_selection(config, request_blocks, metrics(rows)),
    }
}

struct FewestRequests<'a> {
    rows: &'a Vec<Metrics>,
}

struct MostRequests<'a> {
    rows: &'a Vec<Metrics>,
}

struct LeastLoaded<'a> {
    rows: &'a Vec<Metrics>,
    load: usize,
}

struct BestCached<'a> {
    rows: &'a Vec<Metrics>,
    request_blocks: u64,
    threshold: Real64,
}

impl<'a> Candidates for FewestRequests<'a> {
    closed spec fn total(&self) -> int {
        self.rows@.len() as int
    }

    closed spec fn allowed(&self) -> spec_fn(int) -> bool {
        |at: int| true
    }

    closed spec fn preferred(&self) -> spec_fn(int, int) -> bool {
        fewer_requests(self.rows@)
    }

    fn count(&self) -> usize {
        self.rows.len()
    }

    fn allows(&self, at: usize) -> bool {
        true
    }

    fn prefers(&self, a: usize, b: usize) -> bool {
        let left: usize = self.rows[a].load.active_requests;
        let right: usize = self.rows[b].load.active_requests;
        left < right || (left == right && a < b)
    }

    proof fn lemma_ordered(&self) {
    }
}

impl<'a> Candidates for MostRequests<'a> {
    closed spec fn total(&self) -> int {
        self.rows@.len() as int
    }

    closed spec fn allowed(&self) -> spec_fn(int) -> bool {
        |at: int| true
    }

    closed spec fn preferred(&self) -> spec_fn(int, int) -> bool {
        more_requests(self.rows@)
    }

    fn count(&self) -> usize {
        self.rows.len()
    }

    fn allows(&self, at: usize) -> bool {
        true
    }

    fn prefers(&self, a: usize, b: usize) -> bool {
        let left: usize = self.rows[a].load.active_requests;
        let right: usize = self.rows[b].load.active_requests;
        left > right || (left == right && a < b)
    }

    proof fn lemma_ordered(&self) {
    }
}

fn has_lower_worker(rows: &Vec<Metrics>, a: usize, b: usize) -> (lower: bool)
    requires
        a < rows@.len(),
        b < rows@.len(),
    ensures
        lower == lower_worker(rows@)(a as int, b as int),
{
    if rows[a].worker != rows[b].worker {
        rows[a].worker.before(&rows[b].worker)
    } else {
        a < b
    }
}

impl<'a> Candidates for LeastLoaded<'a> {
    closed spec fn total(&self) -> int {
        self.rows@.len() as int
    }

    closed spec fn allowed(&self) -> spec_fn(int) -> bool {
        let rows = self.rows@;
        let load = self.load;
        |at: int| rows[at].load.active_requests == load
    }

    closed spec fn preferred(&self) -> spec_fn(int, int) -> bool {
        lower_worker(self.rows@)
    }

    fn count(&self) -> usize {
        self.rows.len()
    }

    fn allows(&self, at: usize) -> bool {
        self.rows[at].load.active_requests == self.load
    }

    fn prefers(&self, a: usize, b: usize) -> bool {
        has_lower_worker(self.rows, a, b)
    }

    proof fn lemma_ordered(&self) {
    }
}

impl<'a> Candidates for BestCached<'a> {
    closed spec fn total(&self) -> int {
        self.rows@.len() as int
    }

    closed spec fn allowed(&self) -> spec_fn(int) -> bool {
        cached_enough(self.rows@, self.request_blocks, self.threshold)
    }

    closed spec fn preferred(&self) -> spec_fn(int, int) -> bool {
        larger_overlap(self.rows@)
    }

    fn count(&self) -> usize {
        self.rows.len()
    }

    fn allows(&self, at: usize) -> bool {
        let fraction: Real64 = if self.request_blocks > 0 {
            self.rows[at].cached_fraction
        } else {
            Real64 { bits: 0 }
        };
        !fraction.le(&self.threshold)
    }

    fn prefers(&self, a: usize, b: usize) -> bool {
        let left = self.rows[a].device_overlap_blocks;
        let right = self.rows[b].device_overlap_blocks;
        if left != right {
            right.total_lt(&left)
        } else {
            has_lower_worker(self.rows, a, b)
        }
    }

    proof fn lemma_ordered(&self) {
    }
}

fn lowest_load_row(rows: &Vec<Metrics>, minimum_load: usize) -> (row: Result<usize, SelectionError>)
    ensures
        row == row_or(
            least_loaded_row(rows@, minimum_load),
            SelectionError::NoLeastLoadedWorker,
        ),
        row matches Ok(at) ==> at < rows@.len(),
{
    let search = LeastLoaded { rows, load: minimum_load };
    let found = best(&search);
    assert(search.allowed() =~= |at: int| rows@[at].load.active_requests == minimum_load);
    match found {
        Some(at) => Ok(at),
        None => Err(SelectionError::NoLeastLoadedWorker),
    }
}

/// Applies the load gate before it considers cache affinity.
pub struct SglangCacheAwarePicker {
    pub config: SglangCacheAwareConfig,
}

impl SglangCacheAwarePicker {
    pub fn new(config: SglangCacheAwareConfig) -> (picker: Self)
        ensures
            picker.config == config,
    {
        SglangCacheAwarePicker { config }
    }

    /// Select a worker.
    pub fn pick(&self, request_blocks: u64, rows: &Vec<CacheRow>) -> (row: Result<
        usize,
        SelectionError,
    >)
        ensures
            row == cache_aware_selection(self.config, request_blocks, rows@),
            row matches Ok(at) ==> at < rows@.len(),
    {
        let found = match read_metrics(rows) {
            Ok(found) => found,
            Err(error) => {
                return Err(error);
            },
        };
        let least = best(&FewestRequests { rows: &found });
        let most = best(&MostRequests { rows: &found });
        proof {
            if found@.len() > 0 {
                if least is None {
                    assert(!(FewestRequests { rows: &found }).allowed()(0));
                }
                if most is None {
                    assert(!(MostRequests { rows: &found }).allowed()(0));
                }
            }
        }
        match (least, most) {
            (Some(least), Some(most)) => {
                let minimum_load: usize = found[least].load.active_requests;
                if minimum_load == usize::MAX {
                    return Err(SelectionError::NoEligibleWorker);
                }
                if is_imbalanced(
                    &found[least].load,
                    &found[most].load,
                    self.config.balance_abs_threshold,
                ) {
                    return lowest_load_row(&found, minimum_load);
                }
                match best(
                    &BestCached {
                        rows: &found,
                        request_blocks,
                        threshold: self.config.cache_threshold,
                    },
                ) {
                    Some(at) => Ok(at),
                    None => lowest_load_row(&found, minimum_load),
                }
            },
            _ => Err(SelectionError::NoEligibleWorker),
        }
    }
}

/// Read the metrics of all rows.
fn read_metrics(rows: &Vec<CacheRow>) -> (found: Result<Vec<Metrics>, SelectionError>)
    ensures
        match found {
            Ok(found) => first_defect(rows@) is None && found@ == metrics(rows@),
            Err(error) => first_defect(rows@) == Some(error),
        },
{
    let mut found: Vec<Metrics> = Vec::new();
    assert(rows@.take(0) =~= Seq::<CacheRow>::empty());
    for at in 0..rows.len()
        invariant
            first_defect(rows@.take(at as int)) is None,
            found@.len() == at,
            forall|k: int| 0 <= k < at ==> #[trigger] found@[k] == metrics(rows@)[k],
    {
        assert(rows@.take(at + 1).drop_last() =~= rows@.take(at as int));
        let row: CacheRow = rows[at];
        let checked: Result<Metrics, SelectionError> = match row.device_overlap_blocks {
            None => Err(SelectionError::CacheUnavailable),
            Some(overlap) => match row.load {
                None => Err(SelectionError::LoadUnavailable),
                Some(load) => match cache_overlap(overlap) {
                    Ok(overlap) => Ok(
                        Metrics {
                            worker: row.worker,
                            load,
                            device_overlap_blocks: overlap,
                            cached_fraction: row.cached_fraction,
                        },
                    ),
                    Err(error) => Err(error),
                },
            },
        };
        match checked {
            Ok(metrics) => {
                found.push(metrics);
            },
            Err(error) => {
                proof {
                    lemma_first_defect_stays(rows@, at + 1);
                }
                return Err(error);
            },
        }
    }
    assert(rows@.take(rows@.len() as int) =~= rows@);
    assert(found@ =~= metrics(rows@));
    Ok(found)
}

proof fn lemma_first_defect_stays(rows: Seq<CacheRow>, at: int)
    requires
        0 <= at <= rows.len(),
        first_defect(rows.take(at)) is Some,
    ensures
        first_defect(rows) == first_defect(rows.take(at)),
    decreases rows.len() - at,
{
    if at == rows.len() {
        assert(rows.take(at) =~= rows);
    } else {
        assert(rows.take(at + 1).drop_last() =~= rows.take(at));
        lemma_first_defect_stays(rows, at + 1);
    }
}

} // verus!
