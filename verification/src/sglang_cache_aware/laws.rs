//! Laws of load-gated cache affinity.
use vstd::prelude::*;

use crate::choice::{is_pick, lemma_pick, pick};
use crate::selection::{is_overlap, SelectionError};
use crate::sglang_cache_aware::config::SglangCacheAwareConfig;
use crate::sglang_cache_aware::picker::{
    best_cached_row, cache_aware_selection, cached_enough, fewer_requests, first_defect,
    gated_selection, imbalanced, larger_overlap, least_loaded_row, lower_worker, metrics,
    more_requests, shown_fraction, CacheRow, Metrics,
};

verus! {

/// The least and the most loaded rows.
proof fn lemma_extremes(rows: Seq<Metrics>)
    requires
        pick(rows.len() as int, |at: int| true, fewer_requests(rows)) is Some,
        pick(rows.len() as int, |at: int| true, more_requests(rows)) is Some,
    ensures
        ({
            let all = |at: int| true;
            let least = pick(rows.len() as int, all, fewer_requests(rows))->0;
            let most = pick(rows.len() as int, all, more_requests(rows))->0;
            &&& 0 <= least < rows.len()
            &&& 0 <= most < rows.len()
            &&& forall|at: int|
                0 <= at < rows.len() ==> rows[least].load.active_requests <= (
                #[trigger] rows[at]).load.active_requests <= rows[most].load.active_requests
        }),
{
    let all = |at: int| true;
    let least = pick(rows.len() as int, all, fewer_requests(rows))->0;
    let most = pick(rows.len() as int, all, more_requests(rows))->0;
    assert(is_pick(least, rows.len() as int, all, fewer_requests(rows)));
    assert(is_pick(most, rows.len() as int, all, more_requests(rows)));
    assert forall|at: int| 0 <= at < rows.len() implies rows[least].load.active_requests <= (
    #[trigger] rows[at]).load.active_requests <= rows[most].load.active_requests by {
        assert(all(at));
        if at != least {
            assert(fewer_requests(rows)(least, at));
        }
        if at != most {
            assert(more_requests(rows)(most, at));
        }
    }
}

/// In an unbalanced pool a least loaded worker is selected, whatever is cached.
pub proof fn lemma_imbalance_overrides_cache(
    config: SglangCacheAwareConfig,
    request_blocks: u64,
    rows: Seq<Metrics>,
    row: usize,
    smallest: int,
    largest: int,
    other: int,
)
    requires
        rows.len() <= usize::MAX,
        0 <= other < rows.len(),
        gated_selection(config, request_blocks, rows) == Ok::<usize, SelectionError>(row),
        pick(rows.len() as int, |at: int| true, fewer_requests(rows)) == Some(
            smallest,
        ),
        pick(rows.len() as int, |at: int| true, more_requests(rows)) == Some(
            largest,
        ),
        imbalanced(rows[smallest].load, rows[largest].load, config.balance_abs_threshold),
    ensures
        row < rows.len(),
        rows[row as int].load.active_requests <= rows[other].load.active_requests,
{
    lemma_extremes(rows);
    lemma_least_loaded(rows, rows[smallest].load.active_requests, row);
}

proof fn lemma_least_loaded(rows: Seq<Metrics>, load: usize, row: usize)
    requires
        rows.len() <= usize::MAX,
        least_loaded_row(rows, load) matches Some(at) && at as usize == row,
    ensures
        row < rows.len(),
        rows[row as int].load.active_requests == load,
        least_loaded_row(rows, load) == Some(row as int),
{
    let at = least_loaded_row(rows, load)->0;
    let allowed = |at: int| rows[at].load.active_requests == load;
    assert(is_pick(at, rows.len() as int, allowed, lower_worker(rows)));
}

/// In a balanced pool the selected worker holds more than the threshold of the request's blocks
/// and no qualifying worker holds more; where none qualifies, none is less loaded.
pub proof fn lemma_balanced_pool_prefers_cache(
    config: SglangCacheAwareConfig,
    request_blocks: u64,
    rows: Seq<Metrics>,
    row: usize,
    smallest: int,
    largest: int,
    other: int,
)
    requires
        rows.len() <= usize::MAX,
        0 <= other < rows.len(),
        gated_selection(config, request_blocks, rows) == Ok::<usize, SelectionError>(row),
        pick(rows.len() as int, |at: int| true, fewer_requests(rows)) == Some(
            smallest,
        ),
        pick(rows.len() as int, |at: int| true, more_requests(rows)) == Some(
            largest,
        ),
        !imbalanced(rows[smallest].load, rows[largest].load, config.balance_abs_threshold),
    ensures
        row < rows.len(),
        match best_cached_row(rows, request_blocks, config.cache_threshold) {
            Some(_) => {
                &&& !shown_fraction(rows[row as int], request_blocks).at_most(
                    config.cache_threshold,
                )
                &&& !shown_fraction(rows[other], request_blocks).at_most(config.cache_threshold)
                    ==> !rows[row as int].device_overlap_blocks.totally_before(
                    rows[other].device_overlap_blocks,
                )
            },
            None => rows[row as int].load.active_requests <= rows[other].load.active_requests,
        },
{
    lemma_extremes(rows);
    if best_cached_row(rows, request_blocks, config.cache_threshold) is None {
        lemma_least_loaded(rows, rows[smallest].load.active_requests, row);
    } else {
        let at = best_cached_row(rows, request_blocks, config.cache_threshold)->0;
        let allowed = cached_enough(rows, request_blocks, config.cache_threshold);
        let better = larger_overlap(rows);
        assert(is_pick(at, rows.len() as int, allowed, better));
        assert(at == row);
        if allowed(other) && other != at {
            assert(better(at, other));
        }
    }
}

/// Of equally good workers the lowest is selected, wherever it is in the table.
pub proof fn lemma_ties_use_worker_identity(rows: Seq<Metrics>, load: usize, row: usize, other: int)
    requires
        rows.len() <= usize::MAX,
        least_loaded_row(rows, load) matches Some(at) && at as usize == row,
        0 <= other < rows.len(),
        rows[other].load.active_requests == load,
    ensures
        !rows[other].worker.is_before(rows[row as int].worker),
{
    lemma_least_loaded(rows, load, row);
    let allowed = |at: int| rows[at].load.active_requests == load;
    assert(is_pick(row as int, rows.len() as int, allowed, lower_worker(rows)));
    assert(allowed(other));
    if other != row {
        assert(lower_worker(rows)(row as int, other));
    }
}

/// A row that can be used.
pub open spec fn usable(row: CacheRow) -> bool {
    &&& row.load is Some
    &&& row.device_overlap_blocks is Some
    &&& is_overlap(row.device_overlap_blocks->0)
}

proof fn lemma_no_defect(rows: Seq<CacheRow>)
    requires
        forall|at: int| 0 <= at < rows.len() ==> usable(#[trigger] rows[at]),
    ensures
        first_defect(rows) is None,
    decreases rows.len(),
{
    if rows.len() > 0 {
        let rest = rows.drop_last();
        assert forall|at: int| 0 <= at < rest.len() implies usable(#[trigger] rest[at]) by {
            assert(rest[at] == rows[at]);
        }
        lemma_no_defect(rest);
        assert(usable(rows[rows.len() - 1]));
    }
}

/// The first of the least loaded rows and the first of the most loaded ones are those that the pool
/// is judged by.
proof fn lemma_judged_by(rows: Seq<Metrics>, least: int, most: int)
    requires
        0 <= least < rows.len(),
        0 <= most < rows.len(),
        forall|at: int|
            0 <= at < rows.len() ==> rows[least].load.active_requests <= (
            #[trigger] rows[at]).load.active_requests <= rows[most].load.active_requests,
        forall|at: int|
            0 <= at < least ==> (#[trigger] rows[at]).load.active_requests
                > rows[least].load.active_requests,
        forall|at: int|
            0 <= at < most ==> (#[trigger] rows[at]).load.active_requests
                < rows[most].load.active_requests,
    ensures
        pick(rows.len() as int, |at: int| true, fewer_requests(rows)) == Some(least),
        pick(rows.len() as int, |at: int| true, more_requests(rows)) == Some(most),
{
    let all = |at: int| true;
    lemma_pick(rows.len() as int, all, fewer_requests(rows));
    lemma_pick(rows.len() as int, all, more_requests(rows));
    assert(all(least) && all(most));
    let a = pick(rows.len() as int, all, fewer_requests(rows))->0;
    let b = pick(rows.len() as int, all, more_requests(rows))->0;
    if a != least {
        assert(fewer_requests(rows)(a, least));
        assert(rows[least].load.active_requests <= rows[a].load.active_requests);
    }
    if b != most {
        assert(more_requests(rows)(b, most));
        assert(rows[b].load.active_requests <= rows[most].load.active_requests);
    }
}

proof fn lemma_fallback(rows: Seq<Metrics>, least: int)
    requires
        0 <= least < rows.len() <= usize::MAX,
    ensures
        least_loaded_row(rows, rows[least].load.active_requests) matches Some(row) && {
            &&& 0 <= row < rows.len()
            &&& rows[row].load.active_requests == rows[least].load.active_requests
            &&& forall|at: int|
                0 <= at < rows.len() && (#[trigger] rows[at]).load.active_requests
                    == rows[row].load.active_requests ==> !rows[at].worker.is_before(
                    rows[row].worker,
                )
        },
{
    let load = rows[least].load.active_requests;
    let allowed = |at: int| rows[at].load.active_requests == load;
    lemma_pick(rows.len() as int, allowed, lower_worker(rows));
    assert(allowed(least));
    let row = least_loaded_row(rows, load)->0;
    assert forall|at: int|
        0 <= at < rows.len() && (#[trigger] rows[at]).load.active_requests
            == rows[row].load.active_requests implies !rows[at].worker.is_before(
        rows[row].worker,
    ) by {
        assert(allowed(at));
        if at != row {
            assert(lower_worker(rows)(row, at));
        }
    }
}

/// The pool is unbalanced where its largest count of requests exceeds its smallest by more than the
/// absolute threshold and also exceeds the limit of the smallest. There, and where no row's cached
/// fraction exceeds the threshold, a least loaded row is selected, of equals the lowest worker's.
/// Elsewhere the selected row exceeds the threshold, no row that does has a larger overlap, and of
/// equals it is the lowest worker's.
pub proof fn lemma_load_gates_cache(
    config: SglangCacheAwareConfig,
    request_blocks: u64,
    rows: Seq<CacheRow>,
    least: int,
    most: int,
)
    requires
        rows.len() <= usize::MAX,
        forall|at: int| 0 <= at < rows.len() ==> usable(#[trigger] rows[at]),
        0 <= least < rows.len(),
        0 <= most < rows.len(),
        forall|at: int|
            0 <= at < rows.len() ==> rows[least].load->0.active_requests <= (
            #[trigger] rows[at]).load->0.active_requests <= rows[most].load->0.active_requests,
        forall|at: int|
            0 <= at < least ==> (#[trigger] rows[at]).load->0.active_requests
                > rows[least].load->0.active_requests,
        forall|at: int|
            0 <= at < most ==> (#[trigger] rows[at]).load->0.active_requests
                < rows[most].load->0.active_requests,
        rows[least].load->0.active_requests < usize::MAX,
        request_blocks > 0 || config.cache_threshold.bits <= 0x7ff0_0000_0000_0000
            || config.cache_threshold.bits == 0x8000_0000_0000_0000,
    ensures
        ({
            let unbalanced = rows[most].load->0.active_requests
                - rows[least].load->0.active_requests > config.balance_abs_threshold
                && rows[least].load->0.limit.below(rows[most].load->0.requests);
            let cached = request_blocks > 0 && exists|at: int|
                0 <= at < rows.len() && !(#[trigger] rows[at]).cached_fraction.at_most(
                    config.cache_threshold,
                );
            cache_aware_selection(config, request_blocks, rows) matches Ok(row) && {
                &&& row < rows.len()
                &&& unbalanced || !cached ==> forall|at: int|
                    0 <= at < rows.len() ==> rows[row as int].load->0.active_requests <= (
                    #[trigger] rows[at]).load->0.active_requests && (rows[at].load->0.active_requests
                        == rows[row as int].load->0.active_requests ==> !rows[at].worker.is_before(
                        rows[row as int].worker,
                    ))
                &&& !unbalanced && cached ==> !rows[row as int].cached_fraction.at_most(
                    config.cache_threshold,
                ) && forall|at: int|
                    0 <= at < rows.len() && !(#[trigger] rows[at]).cached_fraction.at_most(
                        config.cache_threshold,
                    ) ==> !rows[row as int].device_overlap_blocks->0.totally_before(
                        rows[at].device_overlap_blocks->0,
                    ) && (rows[at].device_overlap_blocks == rows[row as int].device_overlap_blocks
                        ==> !rows[at].worker.is_before(rows[row as int].worker))
            }
        }),
{
    lemma_no_defect(rows);
    let found = metrics(rows);
    assert forall|at: int| 0 <= at < rows.len() implies {
        &&& (#[trigger] found[at]).load == rows[at].load->0
        &&& found[at].worker == rows[at].worker
        &&& found[at].device_overlap_blocks == rows[at].device_overlap_blocks->0
        &&& found[at].cached_fraction == rows[at].cached_fraction
    } by {
    }
    assert forall|at: int| 0 <= at < rows.len() implies #[trigger] rows[at].load->0
        == found[at].load by {
    }
    assert forall|at: int| 0 <= at < found.len() implies found[least].load.active_requests <= (
    #[trigger] found[at]).load.active_requests <= found[most].load.active_requests by {
        assert(rows[least].load->0.active_requests <= rows[at].load->0.active_requests);
    }
    assert forall|at: int| 0 <= at < least implies (#[trigger] found[at]).load.active_requests
        > found[least].load.active_requests by {
        assert(rows[at].load->0.active_requests > rows[least].load->0.active_requests);
    }
    assert forall|at: int| 0 <= at < most implies (#[trigger] found[at]).load.active_requests
        < found[most].load.active_requests by {
        assert(rows[at].load->0.active_requests < rows[most].load->0.active_requests);
    }
    lemma_judged_by(found, least, most);
    lemma_fallback(found, least);
    let fallback = least_loaded_row(found, found[least].load.active_requests)->0;
    assert forall|at: int| 0 <= at < rows.len() implies rows[fallback].load->0.active_requests <= (
    #[trigger] rows[at]).load->0.active_requests && (rows[at].load->0.active_requests
        == rows[fallback].load->0.active_requests ==> !rows[at].worker.is_before(
        rows[fallback].worker,
    )) by {
        assert(found[least].load.active_requests <= found[at].load.active_requests);
    }
    let allowed = cached_enough(found, request_blocks, config.cache_threshold);
    let better = larger_overlap(found);
    lemma_pick(found.len() as int, allowed, better);
    let best = best_cached_row(found, request_blocks, config.cache_threshold);
    match best {
        Some(row) => {
            assert(allowed(row));
            assert(request_blocks > 0);
            assert(!rows[row].cached_fraction.at_most(config.cache_threshold));
            assert forall|at: int|
                0 <= at < rows.len() && !(#[trigger] rows[at]).cached_fraction.at_most(
                    config.cache_threshold,
                ) implies !rows[row].device_overlap_blocks->0.totally_before(
                rows[at].device_overlap_blocks->0,
            ) && (rows[at].device_overlap_blocks == rows[row].device_overlap_blocks
                ==> !rows[at].worker.is_before(rows[row].worker)) by {
                assert(allowed(at));
                if at != row {
                    assert(better(row, at));
                }
                assert(found[at].device_overlap_blocks == rows[at].device_overlap_blocks->0);
                assert(found[row].device_overlap_blocks == rows[row].device_overlap_blocks->0);
            }
        },
        None => {
            assert forall|at: int|
                0 <= at < rows.len() && request_blocks > 0 implies (
            #[trigger] rows[at]).cached_fraction.at_most(config.cache_threshold) by {
                assert(!allowed(at));
                assert(found[at].cached_fraction == rows[at].cached_fraction);
            }
        },
    }
}

/// Without rows, or where every row is at the largest count of requests, no worker is eligible.
pub proof fn lemma_nothing_is_eligible(
    config: SglangCacheAwareConfig,
    request_blocks: u64,
    rows: Seq<CacheRow>,
)
    requires
        forall|at: int|
            0 <= at < rows.len() ==> usable(#[trigger] rows[at])
                && rows[at].load->0.active_requests == usize::MAX,
    ensures
        cache_aware_selection(config, request_blocks, rows) == Err::<usize, SelectionError>(
            SelectionError::NoEligibleWorker,
        ),
{
    lemma_no_defect(rows);
    let found = metrics(rows);
    let all = |at: int| true;
    lemma_pick(found.len() as int, all, fewer_requests(found));
    if let Some(least) = pick(found.len() as int, all, fewer_requests(found)) {
        assert(usable(rows[least]) && rows[least].load->0.active_requests == usize::MAX);
    }
}

/// The first row without an overlap, without a load or with an overlap that cannot be used names the
/// error.
pub proof fn lemma_first_bad_row_is_reported(
    config: SglangCacheAwareConfig,
    request_blocks: u64,
    rows: Seq<CacheRow>,
    bad: int,
)
    requires
        0 <= bad < rows.len(),
        forall|at: int| 0 <= at < bad ==> usable(#[trigger] rows[at]),
    ensures
        ({
            let selected = cache_aware_selection(config, request_blocks, rows);
            let row = rows[bad];
            &&& row.device_overlap_blocks is None ==> selected == Err::<usize, SelectionError>(
                SelectionError::CacheUnavailable,
            )
            &&& row.device_overlap_blocks is Some && row.load is None ==> selected == Err::<
                usize,
                SelectionError,
            >(SelectionError::LoadUnavailable)
            &&& row.load is Some && row.device_overlap_blocks is Some && !is_overlap(
                row.device_overlap_blocks->0,
            ) ==> selected == Err::<usize, SelectionError>(SelectionError::InvalidOverlap)
        }),
    decreases rows.len(),
{
    let rest = rows.drop_last();
    if bad < rest.len() {
        assert(rest[bad] == rows[bad]);
        assert forall|at: int| 0 <= at < bad implies usable(#[trigger] rest[at]) by {
            assert(rest[at] == rows[at]);
        }
        lemma_first_bad_row_is_reported(config, request_blocks, rest, bad);
    } else {
        assert forall|at: int| 0 <= at < rest.len() implies usable(#[trigger] rest[at]) by {
            assert(rest[at] == rows[at]);
        }
        lemma_no_defect(rest);
    }
}

/// What is wrong with parameters: a threshold outside of [0, 1], or a ratio that is not a finite
/// number of at least one, in this order.
pub proof fn lemma_parameters(config: SglangCacheAwareConfig)
    ensures
        ({
            let threshold = config.cache_threshold.bits;
            let ratio = config.balance_rel_threshold.bits;
            let fraction = threshold <= 0x3ff0_0000_0000_0000 || threshold == 0x8000_0000_0000_0000;
            let at_least_one = 0x3ff0_0000_0000_0000 <= ratio < 0x7ff0_0000_0000_0000;
            &&& config.problem() is None <==> fraction && at_least_one
            &&& !fraction ==> config.problem() == Some(
                "cache_threshold must be finite and in [0, 1]"@,
            )
            &&& fraction && !at_least_one ==> config.problem() == Some(
                "balance_rel_threshold must be finite and greater than or equal to 1"@,
            )
        }),
{
}

} // verus!
