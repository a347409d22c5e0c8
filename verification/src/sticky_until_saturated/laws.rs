//! Laws of token-aware cache affinity.
use vstd::prelude::*;

use crate::choice::{is_pick, lemma_pick, pick};
use crate::ieee::Real64;
use crate::selection::{is_overlap, SelectionError};
use crate::sticky_until_saturated::config::StickyUntilSaturatedConfig;
use crate::sticky_until_saturated::picker::{
    considered, first_defect, first_problem, in_flight, keeps_warm, lacks_tracking, less_loaded,
    sticky_selection, PrimaryLoad, RequestContext, StickyLoad, StickyRow, WorkerRole,
};

verus! {

/// Whether a row is warm for a request.
pub open spec fn warm_row(
    config: StickyUntilSaturatedConfig,
    context: RequestContext,
    row: StickyRow,
) -> bool {
    row.warm(PrimaryLoad::ProjectedPrefill, context.request_blocks, config.affinity_threshold)
}

proof fn lemma_selected(
    config: StickyUntilSaturatedConfig,
    primary: PrimaryLoad,
    context: RequestContext,
    rows: Seq<StickyRow>,
    lead: Real64,
    margin: Real64,
    row: usize,
)
    requires
        rows.len() <= usize::MAX,
        sticky_selection(config, primary, context, rows, lead, margin) == Ok::<
            usize,
            SelectionError,
        >(row),
    ensures
        ({
            let blocks = context.request_blocks;
            let loads = in_flight(rows, primary, blocks, config.affinity_threshold);
            let keep = primary == PrimaryLoad::ProjectedPrefill && keeps_warm(
                loads,
                config.max_ttft_penalty_ms,
                lead,
                margin,
            );
            is_pick(
                row as int,
                rows.len() as int,
                considered(rows, primary, blocks, config.affinity_threshold, keep),
                less_loaded(rows, primary),
            )
        }),
{
    let blocks = context.request_blocks;
    let loads = in_flight(rows, primary, blocks, config.affinity_threshold);
    let keep = primary == PrimaryLoad::ProjectedPrefill && keeps_warm(
        loads,
        config.max_ttft_penalty_ms,
        lead,
        margin,
    );
    let allowed = considered(rows, primary, blocks, config.affinity_threshold, keep);
    let better = less_loaded(rows, primary);
    let at = pick(rows.len() as int, allowed, better)->0;
    assert(is_pick(at, rows.len() as int, allowed, better));
    assert(at == row);
}

/// Some row is warm exactly where the least in-flight prefill of warm rows is known.
proof fn lemma_best_warm(
    rows: Seq<StickyRow>,
    config: StickyUntilSaturatedConfig,
    context: RequestContext,
    at: int,
)
    requires
        0 <= at < rows.len(),
        warm_row(config, context, rows[at]),
    ensures
        in_flight(
            rows,
            PrimaryLoad::ProjectedPrefill,
            context.request_blocks,
            config.affinity_threshold,
        ).best_warm is Some,
    decreases rows.len(),
{
    if at < rows.len() - 1 {
        assert(rows.drop_last()[at] == rows[at]);
        lemma_best_warm(rows.drop_last(), config, context, at);
    }
}

/// Without a penalty to spend, a warm worker is selected wherever there is one, however loaded.
pub proof fn lemma_zero_penalty_keeps_the_warm_set(
    config: StickyUntilSaturatedConfig,
    context: RequestContext,
    rows: Seq<StickyRow>,
    lead: Real64,
    margin: Real64,
    row: usize,
    at: int,
)
    requires
        rows.len() <= usize::MAX,
        config.max_ttft_penalty_ms == 0,
        0 <= at < rows.len(),
        warm_row(config, context, rows[at]),
        sticky_selection(
            config,
            PrimaryLoad::ProjectedPrefill,
            context,
            rows,
            lead,
            margin,
        ) == Ok::<usize, SelectionError>(row),
    ensures
        row < rows.len(),
        warm_row(config, context, rows[row as int]),
{
    lemma_best_warm(rows, config, context, at);
    lemma_selected(config, PrimaryLoad::ProjectedPrefill, context, rows, lead, margin, row);
}

/// While the margin is not exceeded, a warm worker is selected wherever there is one.
pub proof fn lemma_margin_keeps_the_warm_set(
    config: StickyUntilSaturatedConfig,
    context: RequestContext,
    rows: Seq<StickyRow>,
    lead: Real64,
    margin: Real64,
    row: usize,
    at: int,
)
    requires
        rows.len() <= usize::MAX,
        lead.at_most(margin),
        0 <= at < rows.len(),
        warm_row(config, context, rows[at]),
        sticky_selection(config, PrimaryLoad::ProjectedPrefill, context, rows, lead, margin)
            == Ok::<usize, SelectionError>(row),
    ensures
        row < rows.len(),
        warm_row(config, context, rows[row as int]),
{
    lemma_best_warm(rows, config, context, at);
    lemma_selected(config, PrimaryLoad::ProjectedPrefill, context, rows, lead, margin, row);
}

/// Once the margin is exceeded, every worker is considered again: none is less loaded than the
/// selected one, and of equally loaded ones it is the lowest.
pub proof fn lemma_saturation_restores_all_workers(
    config: StickyUntilSaturatedConfig,
    context: RequestContext,
    rows: Seq<StickyRow>,
    lead: Real64,
    margin: Real64,
    row: usize,
    other: int,
)
    requires
        rows.len() <= usize::MAX,
        config.max_ttft_penalty_ms > 0,
        !lead.at_most(margin),
        in_flight(
            rows,
            PrimaryLoad::ProjectedPrefill,
            context.request_blocks,
            config.affinity_threshold,
        ).best_cold is Some,
        0 <= other < rows.len(),
        sticky_selection(config, PrimaryLoad::ProjectedPrefill, context, rows, lead, margin)
            == Ok::<usize, SelectionError>(row),
    ensures
        row < rows.len(),
        !rows[other].projected_prefill.totally_before(rows[row as int].projected_prefill),
        rows[other].projected_prefill == rows[row as int].projected_prefill
            ==> !rows[other].worker.is_before(rows[row as int].worker),
{
    let primary = PrimaryLoad::ProjectedPrefill;
    lemma_selected(config, primary, context, rows, lead, margin, row);
    let allowed = considered(
        rows,
        primary,
        context.request_blocks,
        config.affinity_threshold,
        false,
    );
    assert(allowed(other));
    if other != row {
        assert(less_loaded(rows, primary)(row as int, other));
    }
}

/// A pool that does not prefill selects a worker with the fewest active requests.
pub proof fn lemma_decode_pool_selects_by_requests(
    config: StickyUntilSaturatedConfig,
    context: RequestContext,
    rows: Seq<StickyRow>,
    lead: Real64,
    margin: Real64,
    row: usize,
    other: int,
)
    requires
        rows.len() <= usize::MAX,
        0 <= other < rows.len(),
        sticky_selection(config, PrimaryLoad::ActiveRequests, context, rows, lead, margin)
            == Ok::<usize, SelectionError>(row),
    ensures
        row < rows.len(),
        !rows[other].cost(PrimaryLoad::ActiveRequests).totally_before(
            rows[row as int].cost(PrimaryLoad::ActiveRequests),
        ),
{
    let primary = PrimaryLoad::ActiveRequests;
    lemma_selected(config, primary, context, rows, lead, margin, row);
    let allowed = considered(
        rows,
        primary,
        context.request_blocks,
        config.affinity_threshold,
        false,
    );
    assert(allowed(other));
    if other != row {
        assert(less_loaded(rows, primary)(row as int, other));
    }
}

/// Where prefill is compared it has to be tracked.
pub proof fn lemma_prefill_pool_requires_tracking(
    config: StickyUntilSaturatedConfig,
    context: RequestContext,
    rows: Seq<StickyRow>,
    lead: Real64,
    margin: Real64,
)
    requires
        !context.tracks_prefill_tokens,
    ensures
        sticky_selection(config, PrimaryLoad::ProjectedPrefill, context, rows, lead, margin)
            == Err::<usize, SelectionError>(SelectionError::PrefillTrackingRequired),
{
}

/// Pools that prefill are compared by projected prefill, and the others by active requests.
pub proof fn lemma_roles()
    ensures
        PrimaryLoad::of_role(WorkerRole::Prefill) == PrimaryLoad::ProjectedPrefill,
        PrimaryLoad::of_role(WorkerRole::Aggregated) == PrimaryLoad::ProjectedPrefill,
        PrimaryLoad::of_role(WorkerRole::Decode) == PrimaryLoad::ActiveRequests,
        PrimaryLoad::of_role(WorkerRole::Encode) == PrimaryLoad::ActiveRequests,
{
}

/// The least in-flight prefill of warm rows is that of a row whose cached fraction reaches the
/// threshold, and no such row has less; the least of cold rows is that of the others. Without blocks
/// every row is cold.
pub proof fn lemma_least_in_flight(
    rows: Seq<StickyRow>,
    request_blocks: u64,
    threshold: Real64,
)
    requires
        forall|at: int| 0 <= at < rows.len() ==> (#[trigger] rows[at]).load is Some,
    ensures
        ({
            let loads = in_flight(rows, PrimaryLoad::ProjectedPrefill, request_blocks, threshold);
            &&& match loads.best_warm {
                Some(tokens) => {
                    &&& exists|at: int|
                        0 <= at < rows.len() && request_blocks > 0 && threshold.at_most(
                            (#[trigger] rows[at]).cached_fraction,
                        ) && rows[at].load->0.active_prefill_tokens == tokens
                    &&& forall|at: int|
                        0 <= at < rows.len() && threshold.at_most(
                            (#[trigger] rows[at]).cached_fraction,
                        ) ==> rows[at].load->0.active_prefill_tokens >= tokens
                },
                None => request_blocks == 0 || forall|at: int|
                    0 <= at < rows.len() ==> !threshold.at_most(
                        (#[trigger] rows[at]).cached_fraction,
                    ),
            }
            &&& match loads.best_cold {
                Some(tokens) => {
                    &&& exists|at: int|
                        0 <= at < rows.len() && (request_blocks == 0 || !threshold.at_most(
                            (#[trigger] rows[at]).cached_fraction,
                        )) && rows[at].load->0.active_prefill_tokens == tokens
                    &&& forall|at: int|
                        0 <= at < rows.len() && (request_blocks == 0 || !threshold.at_most(
                            (#[trigger] rows[at]).cached_fraction,
                        )) ==> rows[at].load->0.active_prefill_tokens >= tokens
                },
                None => forall|at: int|
                    0 <= at < rows.len() ==> request_blocks > 0 && threshold.at_most(
                        (#[trigger] rows[at]).cached_fraction,
                    ),
            }
        }),
    decreases rows.len(),
{
    if rows.len() > 0 {
        let rest = rows.drop_last();
        assert forall|at: int| 0 <= at < rest.len() implies (#[trigger] rest[at]).load is Some by {
            assert(rest[at] == rows[at]);
        }
        lemma_least_in_flight(rest, request_blocks, threshold);
        let last = rows.len() - 1;
        let loads = in_flight(rows, PrimaryLoad::ProjectedPrefill, request_blocks, threshold);
        let earlier = in_flight(rest, PrimaryLoad::ProjectedPrefill, request_blocks, threshold);
        let tokens = rows[last].load->0.active_prefill_tokens;
        assert forall|at: int| 0 <= at < rows.len() && at != last implies rest[at]
            == #[trigger] rows[at] by {
        }
        let is_warm = request_blocks > 0 && threshold.at_most(rows[last].cached_fraction);
        if is_warm {
            if earlier.best_warm is Some && loads.best_warm == earlier.best_warm {
                let at = choose|at: int|
                    0 <= at < rest.len() && request_blocks > 0 && threshold.at_most(
                        (#[trigger] rest[at]).cached_fraction,
                    ) && rest[at].load->0.active_prefill_tokens == earlier.best_warm->0;
                assert(rows[at] == rest[at]);
            } else {
                assert(rows[last].load->0.active_prefill_tokens == loads.best_warm->0);
            }
            if earlier.best_cold is Some {
                let at = choose|at: int|
                    0 <= at < rest.len() && (request_blocks == 0 || !threshold.at_most(
                        (#[trigger] rest[at]).cached_fraction,
                    )) && rest[at].load->0.active_prefill_tokens == earlier.best_cold->0;
                assert(rows[at] == rest[at]);
            }
        } else {
            if earlier.best_cold is Some && loads.best_cold == earlier.best_cold {
                let at = choose|at: int|
                    0 <= at < rest.len() && (request_blocks == 0 || !threshold.at_most(
                        (#[trigger] rest[at]).cached_fraction,
                    )) && rest[at].load->0.active_prefill_tokens == earlier.best_cold->0;
                assert(rows[at] == rest[at]);
            } else {
                assert(rows[last].load->0.active_prefill_tokens == loads.best_cold->0);
            }
            if earlier.best_warm is Some {
                let at = choose|at: int|
                    0 <= at < rest.len() && request_blocks > 0 && threshold.at_most(
                        (#[trigger] rest[at]).cached_fraction,
                    ) && rest[at].load->0.active_prefill_tokens == earlier.best_warm->0;
                assert(rows[at] == rest[at]);
            }
        }
    }
}

/// Rows with a load, a usable overlap and, as far as they are considered, a finite projection have
/// nothing that keeps them from being compared.
proof fn lemma_sound_rows(
    rows: Seq<StickyRow>,
    primary: PrimaryLoad,
    request_blocks: u64,
    threshold: Real64,
    keep: bool,
)
    requires
        forall|at: int|
            0 <= at < rows.len() ==> {
                let row = #[trigger] rows[at];
                &&& row.load is Some
                &&& primary == PrimaryLoad::ProjectedPrefill ==> row.device_overlap_blocks is Some
                    && is_overlap(row.device_overlap_blocks->0) && (!keep || (request_blocks > 0
                    && threshold.at_most(row.cached_fraction)) ==> row.projected_prefill.finite())
                &&& primary == PrimaryLoad::ActiveRequests ==> row.load->0.active_requests.finite()
            },
    ensures
        first_defect(rows, primary) is None,
        first_problem(rows, primary, request_blocks, threshold, keep) is None,
    decreases rows.len(),
{
    if rows.len() > 0 {
        let rest = rows.drop_last();
        assert forall|at: int| 0 <= at < rest.len() implies {
            let row = #[trigger] rest[at];
            &&& row.load is Some
            &&& primary == PrimaryLoad::ProjectedPrefill ==> row.device_overlap_blocks is Some
                && is_overlap(row.device_overlap_blocks->0) && (!keep || (request_blocks > 0
                && threshold.at_most(row.cached_fraction)) ==> row.projected_prefill.finite())
            &&& primary == PrimaryLoad::ActiveRequests ==> row.load->0.active_requests.finite()
        } by {
            assert(rest[at] == rows[at]);
        }
        lemma_sound_rows(rest, primary, request_blocks, threshold, keep);
        assert(rows[rows.len() - 1].load is Some);
    }
}

/// In a pool that prefills, where some row's cached fraction reaches the threshold and the margin is
/// not exceeded, or there is no penalty to spend, or every row reaches the threshold, the selected
/// row reaches it too, and no such row projects less prefill; of equals it is the lowest worker's.
pub proof fn lemma_cached_rows_are_kept(
    config: StickyUntilSaturatedConfig,
    context: RequestContext,
    rows: Seq<StickyRow>,
    lead: Real64,
    margin: Real64,
    cached: int,
)
    requires
        rows.len() <= usize::MAX,
        context.tracks_prefill_tokens,
        context.request_blocks > 0,
        forall|at: int|
            0 <= at < rows.len() ==> {
                let row = #[trigger] rows[at];
                &&& row.load is Some
                &&& row.device_overlap_blocks is Some
                &&& is_overlap(row.device_overlap_blocks->0)
                &&& config.affinity_threshold.at_most(row.cached_fraction)
                    ==> row.projected_prefill.finite()
            },
        0 <= cached < rows.len(),
        config.affinity_threshold.at_most(rows[cached].cached_fraction),
        lead.at_most(margin) || config.max_ttft_penalty_ms == 0 || forall|at: int|
            0 <= at < rows.len() ==> config.affinity_threshold.at_most(
                (#[trigger] rows[at]).cached_fraction,
            ),
    ensures
        sticky_selection(
            config,
            PrimaryLoad::ProjectedPrefill,
            context,
            rows,
            lead,
            margin,
        ) matches Ok(row) && {
            &&& row < rows.len()
            &&& config.affinity_threshold.at_most(rows[row as int].cached_fraction)
            &&& forall|at: int|
                0 <= at < rows.len() && config.affinity_threshold.at_most(
                    (#[trigger] rows[at]).cached_fraction,
                ) ==> !rows[at].projected_prefill.totally_before(
                    rows[row as int].projected_prefill,
                ) && (rows[at].projected_prefill == rows[row as int].projected_prefill
                    ==> !rows[at].worker.is_before(rows[row as int].worker))
        },
{
    let primary = PrimaryLoad::ProjectedPrefill;
    let blocks = context.request_blocks;
    let threshold = config.affinity_threshold;
    lemma_least_in_flight(rows, blocks, threshold);
    let loads = in_flight(rows, primary, blocks, threshold);
    assert(threshold.at_most(rows[cached].cached_fraction));
    assert(loads.best_warm is Some);
    assert(keeps_warm(loads, config.max_ttft_penalty_ms, lead, margin)) by {
        if forall|at: int|
            0 <= at < rows.len() ==> threshold.at_most((#[trigger] rows[at]).cached_fraction) {
            if loads.best_cold is Some {
                let at = choose|at: int|
                    0 <= at < rows.len() && (blocks == 0 || !threshold.at_most(
                        (#[trigger] rows[at]).cached_fraction,
                    )) && rows[at].load->0.active_prefill_tokens == loads.best_cold->0;
                assert(threshold.at_most(rows[at].cached_fraction));
            }
        }
    }
    lemma_sound_rows(rows, primary, blocks, threshold, true);
    let allowed = considered(rows, primary, blocks, threshold, true);
    lemma_pick(rows.len() as int, allowed, less_loaded(rows, primary));
    assert(allowed(cached));
    let row = pick(rows.len() as int, allowed, less_loaded(rows, primary))->0;
    assert(allowed(row));
    assert forall|at: int|
        0 <= at < rows.len() && threshold.at_most(
            (#[trigger] rows[at]).cached_fraction,
        ) implies !rows[at].projected_prefill.totally_before(rows[row].projected_prefill) && (
    rows[at].projected_prefill == rows[row].projected_prefill ==> !rows[at].worker.is_before(
        rows[row].worker,
    )) by {
        assert(allowed(at));
        if at != row {
            assert(less_loaded(rows, primary)(row, at));
        }
    }
}

/// In a pool that prefills, where no row's cached fraction reaches the threshold, or the request has
/// no blocks, or some row does not reach it and the margin is exceeded with a penalty to spend, no
/// row at all projects less prefill than the selected one; of equals it is the lowest worker's.
pub proof fn lemma_saturated_rows_are_left(
    config: StickyUntilSaturatedConfig,
    context: RequestContext,
    rows: Seq<StickyRow>,
    lead: Real64,
    margin: Real64,
)
    requires
        0 < rows.len() <= usize::MAX,
        context.tracks_prefill_tokens,
        forall|at: int|
            0 <= at < rows.len() ==> {
                let row = #[trigger] rows[at];
                &&& row.load is Some
                &&& row.device_overlap_blocks is Some
                &&& is_overlap(row.device_overlap_blocks->0)
                &&& row.projected_prefill.finite()
            },
        context.request_blocks == 0 || (forall|at: int|
            0 <= at < rows.len() ==> !config.affinity_threshold.at_most(
                (#[trigger] rows[at]).cached_fraction,
            )) || (!lead.at_most(margin) && config.max_ttft_penalty_ms > 0 && exists|at: int|
            0 <= at < rows.len() && !config.affinity_threshold.at_most(
                (#[trigger] rows[at]).cached_fraction,
            )),
    ensures
        sticky_selection(
            config,
            PrimaryLoad::ProjectedPrefill,
            context,
            rows,
            lead,
            margin,
        ) matches Ok(row) && {
            &&& row < rows.len()
            &&& forall|at: int|
                0 <= at < rows.len() ==> !(#[trigger] rows[at]).projected_prefill.totally_before(
                    rows[row as int].projected_prefill,
                ) && (rows[at].projected_prefill == rows[row as int].projected_prefill
                    ==> !rows[at].worker.is_before(rows[row as int].worker))
        },
{
    let primary = PrimaryLoad::ProjectedPrefill;
    let blocks = context.request_blocks;
    let threshold = config.affinity_threshold;
    lemma_least_in_flight(rows, blocks, threshold);
    let loads = in_flight(rows, primary, blocks, threshold);
    assert(!keeps_warm(loads, config.max_ttft_penalty_ms, lead, margin)) by {
        if loads.best_warm is Some {
            let at = choose|at: int|
                0 <= at < rows.len() && blocks > 0 && threshold.at_most(
                    (#[trigger] rows[at]).cached_fraction,
                ) && rows[at].load->0.active_prefill_tokens == loads.best_warm->0;
            assert(threshold.at_most(rows[at].cached_fraction));
            let other = choose|at: int|
                0 <= at < rows.len() && !threshold.at_most((#[trigger] rows[at]).cached_fraction);
            assert(!threshold.at_most(rows[other].cached_fraction));
            assert(loads.best_cold is Some);
        }
    }
    lemma_sound_rows(rows, primary, blocks, threshold, false);
    let allowed = considered(rows, primary, blocks, threshold, false);
    lemma_pick(rows.len() as int, allowed, less_loaded(rows, primary));
    assert(allowed(0));
    let row = pick(rows.len() as int, allowed, less_loaded(rows, primary))->0;
    assert forall|at: int| 0 <= at < rows.len() implies !(
    #[trigger] rows[at]).projected_prefill.totally_before(rows[row].projected_prefill) && (
    rows[at].projected_prefill == rows[row].projected_prefill ==> !rows[at].worker.is_before(
        rows[row].worker,
    )) by {
        assert(allowed(at));
        if at != row {
            assert(less_loaded(rows, primary)(row, at));
        }
    }
}

/// In a pool that does not prefill a row with the fewest active requests is selected, whatever is
/// cached; of equals it is the lowest worker's.
pub proof fn lemma_decode_pool_succeeds(
    config: StickyUntilSaturatedConfig,
    context: RequestContext,
    rows: Seq<StickyRow>,
    lead: Real64,
    margin: Real64,
)
    requires
        0 < rows.len() <= usize::MAX,
        forall|at: int|
            0 <= at < rows.len() ==> (#[trigger] rows[at]).load is Some
                && rows[at].load->0.active_requests.finite(),
    ensures
        sticky_selection(
            config,
            PrimaryLoad::ActiveRequests,
            context,
            rows,
            lead,
            margin,
        ) matches Ok(row) && {
            &&& row < rows.len()
            &&& forall|at: int|
                0 <= at < rows.len() ==> !(
                #[trigger] rows[at]).load->0.active_requests.totally_before(
                    rows[row as int].load->0.active_requests,
                ) && (rows[at].load->0.active_requests == rows[row as int].load->0.active_requests
                    ==> !rows[at].worker.is_before(rows[row as int].worker))
        },
{
    let primary = PrimaryLoad::ActiveRequests;
    let blocks = context.request_blocks;
    let threshold = config.affinity_threshold;
    lemma_sound_rows(rows, primary, blocks, threshold, false);
    let allowed = considered(rows, primary, blocks, threshold, false);
    lemma_pick(rows.len() as int, allowed, less_loaded(rows, primary));
    assert(allowed(0));
    let row = pick(rows.len() as int, allowed, less_loaded(rows, primary))->0;
    assert forall|at: int| 0 <= at < rows.len() implies !(
    #[trigger] rows[at]).load->0.active_requests.totally_before(
        rows[row].load->0.active_requests,
    ) && (rows[at].load->0.active_requests == rows[row].load->0.active_requests
        ==> !rows[at].worker.is_before(rows[row].worker)) by {
        assert(allowed(at));
        if at != row {
            assert(less_loaded(rows, primary)(row, at));
        }
    }
}

/// A row keeps a pool that prefills from selecting where it lacks a load, lacks an overlap, or has
/// an overlap that is negative or not finite; the first such row names the error.
pub proof fn lemma_first_bad_row_is_reported(
    config: StickyUntilSaturatedConfig,
    primary: PrimaryLoad,
    context: RequestContext,
    rows: Seq<StickyRow>,
    lead: Real64,
    margin: Real64,
    bad: int,
)
    requires
        primary == PrimaryLoad::ProjectedPrefill ==> context.tracks_prefill_tokens,
        0 <= bad < rows.len(),
        forall|at: int|
            0 <= at < bad ==> {
                let row = #[trigger] rows[at];
                &&& row.load is Some
                &&& primary == PrimaryLoad::ProjectedPrefill ==> row.device_overlap_blocks is Some
                    && is_overlap(row.device_overlap_blocks->0) && row.projected_prefill.finite()
                &&& primary == PrimaryLoad::ActiveRequests ==> row.load->0.active_requests.finite()
            },
    ensures
        ({
            let selected = sticky_selection(config, primary, context, rows, lead, margin);
            let row = rows[bad];
            &&& row.load is None ==> selected == Err::<usize, SelectionError>(
                SelectionError::LoadUnavailable,
            )
            &&& primary == PrimaryLoad::ProjectedPrefill && row.load is Some
                && row.device_overlap_blocks is None ==> selected == Err::<usize, SelectionError>(
                SelectionError::CacheUnavailable,
            )
            &&& primary == PrimaryLoad::ProjectedPrefill && row.load is Some
                && row.device_overlap_blocks is Some && !is_overlap(row.device_overlap_blocks->0)
                ==> selected == Err::<usize, SelectionError>(SelectionError::InvalidOverlap)
            &&& primary == PrimaryLoad::ActiveRequests && row.load is Some
                && !row.load->0.active_requests.finite() ==> selected == Err::<
                usize,
                SelectionError,
            >(SelectionError::PrimaryLoadNotFinite)
        }),
{
    let blocks = context.request_blocks;
    let threshold = config.affinity_threshold;
    let loads = in_flight(rows, primary, blocks, threshold);
    let keep = primary == PrimaryLoad::ProjectedPrefill && keeps_warm(
        loads,
        config.max_ttft_penalty_ms,
        lead,
        margin,
    );
    lemma_first_bad_row(rows, primary, blocks, threshold, keep, bad);
}

proof fn lemma_first_bad_row(
    rows: Seq<StickyRow>,
    primary: PrimaryLoad,
    request_blocks: u64,
    threshold: Real64,
    keep: bool,
    bad: int,
)
    requires
        primary == PrimaryLoad::ActiveRequests ==> !keep,
        0 <= bad < rows.len(),
        forall|at: int|
            0 <= at < bad ==> {
                let row = #[trigger] rows[at];
                &&& row.load is Some
                &&& primary == PrimaryLoad::ProjectedPrefill ==> row.device_overlap_blocks is Some
                    && is_overlap(row.device_overlap_blocks->0) && row.projected_prefill.finite()
                &&& primary == PrimaryLoad::ActiveRequests ==> row.load->0.active_requests.finite()
            },
    ensures
        rows[bad].defect(primary) is Some ==> first_defect(rows, primary) == rows[bad].defect(
            primary,
        ) && first_problem(rows, primary, request_blocks, threshold, keep) == rows[bad].defect(
            primary,
        ),
        primary == PrimaryLoad::ActiveRequests && rows[bad].load is Some
            && !rows[bad].load->0.active_requests.finite() ==> first_problem(
            rows,
            primary,
            request_blocks,
            threshold,
            keep,
        ) == Some(SelectionError::PrimaryLoadNotFinite),
    decreases rows.len(),
{
    let rest = rows.drop_last();
    if bad < rest.len() {
        assert forall|at: int| 0 <= at < bad implies {
            let row = #[trigger] rest[at];
            &&& row.load is Some
            &&& primary == PrimaryLoad::ProjectedPrefill ==> row.device_overlap_blocks is Some
                && is_overlap(row.device_overlap_blocks->0) && row.projected_prefill.finite()
            &&& primary == PrimaryLoad::ActiveRequests ==> row.load->0.active_requests.finite()
        } by {
            assert(rest[at] == rows[at]);
        }
        lemma_first_bad_row(rest, primary, request_blocks, threshold, keep, bad);
        assert(rest[bad] == rows[bad]);
    } else {
        assert forall|at: int| 0 <= at < rest.len() implies {
            let row = #[trigger] rest[at];
            &&& row.load is Some
            &&& primary == PrimaryLoad::ProjectedPrefill ==> row.device_overlap_blocks is Some
                && is_overlap(row.device_overlap_blocks->0) && row.projected_prefill.finite()
            &&& primary == PrimaryLoad::ActiveRequests ==> row.load->0.active_requests.finite()
        } by {
            assert(rest[at] == rows[at]);
        }
        lemma_sound_rows(rest, primary, request_blocks, threshold, keep);
    }
}

/// A row is compared by its projected prefill or by its active requests, needs an overlap only for
/// the former, and needs prefill to be tracked only for the former.
pub proof fn lemma_row_signal(row: StickyRow, context: RequestContext, load: StickyLoad)
    requires
        row.load == Some(load),
    ensures
        row.cost(PrimaryLoad::ProjectedPrefill) == row.projected_prefill,
        row.cost(PrimaryLoad::ActiveRequests) == load.active_requests,
        row.defect(PrimaryLoad::ActiveRequests) is None,
        row.defect(PrimaryLoad::ProjectedPrefill) is None <==> row.device_overlap_blocks is Some && {
            let bits = row.device_overlap_blocks->0.bits;
            bits < 0x7ff0_0000_0000_0000 || bits == 0x8000_0000_0000_0000
        },
        lacks_tracking(context, PrimaryLoad::ProjectedPrefill) <==> !context.tracks_prefill_tokens,
        !lacks_tracking(context, PrimaryLoad::ActiveRequests),
{
}

/// What is wrong with parameters: a threshold outside of [0, 1], a rate that is not a finite
/// positive number, or a margin that is not finite, in this order.
pub proof fn lemma_parameters(config: StickyUntilSaturatedConfig, margin: Real64)
    ensures
        ({
            let threshold = config.affinity_threshold.bits;
            let rate = config.peak_prefill_tokens_per_second.bits;
            let fraction = threshold <= 0x3ff0_0000_0000_0000 || threshold == 0x8000_0000_0000_0000;
            let positive = 0 < rate < 0x7ff0_0000_0000_0000;
            let bounded = margin.bits < 0x7ff0_0000_0000_0000 || 0x8000_0000_0000_0000
                <= margin.bits < 0xfff0_0000_0000_0000;
            &&& config.problem(margin) is None <==> fraction && positive && bounded
            &&& !fraction ==> config.problem(margin) == Some(
                "affinity_threshold must be finite and in [0, 1]"@,
            )
            &&& fraction && !positive ==> config.problem(margin) == Some(
                "peak_prefill_tokens_per_second must be finite and positive"@,
            )
            &&& fraction && positive && !bounded ==> config.problem(margin) == Some(
                "peak_prefill_tokens_per_second * max_ttft_penalty_ms must be finite"@,
            )
        }),
{
}

/// Whether a row of a pool that prefills has a load and a usable overlap.
pub open spec fn is_known(row: StickyRow) -> bool {
    row.load is Some && row.device_overlap_blocks is Some && is_overlap(
        row.device_overlap_blocks->0,
    )
}

proof fn lemma_first_unknown(rows: Seq<StickyRow>, bad: int)
    requires
        0 <= bad < rows.len(),
        forall|at: int| 0 <= at < bad ==> is_known(#[trigger] rows[at]),
        !is_known(rows[bad]),
    ensures
        first_defect(rows, PrimaryLoad::ProjectedPrefill) == rows[bad].defect(
            PrimaryLoad::ProjectedPrefill,
        ),
    decreases rows.len(),
{
    let rest = rows.drop_last();
    if bad < rest.len() {
        assert forall|at: int| 0 <= at < bad implies is_known(#[trigger] rest[at]) by {
            assert(rest[at] == rows[at]);
        }
        lemma_first_unknown(rest, bad);
    } else {
        lemma_known_rows(rest);
    }
}

proof fn lemma_known_rows(rows: Seq<StickyRow>)
    requires
        forall|at: int| 0 <= at < rows.len() ==> is_known(#[trigger] rows[at]),
    ensures
        first_defect(rows, PrimaryLoad::ProjectedPrefill) is None,
    decreases rows.len(),
{
    if rows.len() > 0 {
        let rest = rows.drop_last();
        assert forall|at: int| 0 <= at < rest.len() implies is_known(#[trigger] rest[at]) by {
            assert(rest[at] == rows[at]);
        }
        lemma_known_rows(rest);
        assert(is_known(rows[rows.len() - 1]));
    }
}

/// In a pool that prefills the first row without a load or a usable overlap is reported, whatever the
/// rows project.
pub proof fn lemma_unknown_rows_come_first(
    config: StickyUntilSaturatedConfig,
    context: RequestContext,
    rows: Seq<StickyRow>,
    lead: Real64,
    margin: Real64,
    bad: int,
)
    requires
        context.tracks_prefill_tokens,
        0 <= bad < rows.len(),
        forall|at: int| 0 <= at < bad ==> is_known(#[trigger] rows[at]),
        !is_known(rows[bad]),
    ensures
        ({
            let selected = sticky_selection(
                config,
                PrimaryLoad::ProjectedPrefill,
                context,
                rows,
                lead,
                margin,
            );
            let row = rows[bad];
            &&& row.load is None ==> selected == Err::<usize, SelectionError>(
                SelectionError::LoadUnavailable,
            )
            &&& row.load is Some && row.device_overlap_blocks is None ==> selected == Err::<
                usize,
                SelectionError,
            >(SelectionError::CacheUnavailable)
            &&& row.load is Some && row.device_overlap_blocks is Some ==> selected == Err::<
                usize,
                SelectionError,
            >(SelectionError::InvalidOverlap)
        }),
{
    lemma_first_unknown(rows, bad);
}

proof fn lemma_first_unbounded(
    rows: Seq<StickyRow>,
    request_blocks: u64,
    threshold: Real64,
    keep: bool,
    bad: int,
)
    requires
        forall|at: int| 0 <= at < rows.len() ==> is_known(#[trigger] rows[at]),
        0 <= bad < rows.len(),
        !rows[bad].projected_prefill.finite(),
        !keep || (request_blocks > 0 && threshold.at_most(rows[bad].cached_fraction)),
    ensures
        first_problem(rows, PrimaryLoad::ProjectedPrefill, request_blocks, threshold, keep) == Some(
            SelectionError::PrimaryLoadNotFinite,
        ),
    decreases rows.len(),
{
    let rest = rows.drop_last();
    assert forall|at: int| 0 <= at < rest.len() implies is_known(#[trigger] rest[at]) by {
        assert(rest[at] == rows[at]);
    }
    assert(is_known(rows[rows.len() - 1]));
    if bad < rest.len() {
        assert(rest[bad] == rows[bad]);
        lemma_first_unbounded(rest, request_blocks, threshold, keep, bad);
    } else {
        lemma_only_unbounded(rest, request_blocks, threshold, keep);
    }
}

proof fn lemma_only_unbounded(
    rows: Seq<StickyRow>,
    request_blocks: u64,
    threshold: Real64,
    keep: bool,
)
    requires
        forall|at: int| 0 <= at < rows.len() ==> is_known(#[trigger] rows[at]),
    ensures
        ({
            let problem = first_problem(
                rows,
                PrimaryLoad::ProjectedPrefill,
                request_blocks,
                threshold,
                keep,
            );
            problem is None || problem == Some(SelectionError::PrimaryLoadNotFinite)
        }),
    decreases rows.len(),
{
    if rows.len() > 0 {
        let rest = rows.drop_last();
        assert forall|at: int| 0 <= at < rest.len() implies is_known(#[trigger] rest[at]) by {
            assert(rest[at] == rows[at]);
        }
        lemma_only_unbounded(rest, request_blocks, threshold, keep);
        assert(is_known(rows[rows.len() - 1]));
    }
}

/// In a pool that prefills, where every row has a load and a usable overlap, a projection that is not
/// finite is reported if its row's cached fraction reaches the threshold, if the request has no
/// blocks, or if the margin is exceeded with a penalty to spend.
pub proof fn lemma_unbounded_projections_are_reported(
    config: StickyUntilSaturatedConfig,
    context: RequestContext,
    rows: Seq<StickyRow>,
    lead: Real64,
    margin: Real64,
    bad: int,
)
    requires
        context.tracks_prefill_tokens,
        forall|at: int| 0 <= at < rows.len() ==> is_known(#[trigger] rows[at]),
        0 <= bad < rows.len(),
        !rows[bad].projected_prefill.finite(),
        (context.request_blocks > 0 && config.affinity_threshold.at_most(
            rows[bad].cached_fraction,
        )) || context.request_blocks == 0 || (!lead.at_most(margin) && config.max_ttft_penalty_ms
            > 0),
    ensures
        sticky_selection(
            config,
            PrimaryLoad::ProjectedPrefill,
            context,
            rows,
            lead,
            margin,
        ) == Err::<usize, SelectionError>(SelectionError::PrimaryLoadNotFinite),
{
    let primary = PrimaryLoad::ProjectedPrefill;
    let blocks = context.request_blocks;
    let threshold = config.affinity_threshold;
    let loads = in_flight(rows, primary, blocks, threshold);
    let keep = keeps_warm(loads, config.max_ttft_penalty_ms, lead, margin);
    assert forall|at: int| 0 <= at < rows.len() implies (#[trigger] rows[at]).load is Some by {
        assert(is_known(rows[at]));
    }
    lemma_known_rows(rows);
    lemma_least_in_flight(rows, blocks, threshold);
    let reached = blocks > 0 && threshold.at_most(rows[bad].cached_fraction);
    if !reached {
        assert(loads.best_cold is Some);
    }
    lemma_first_unbounded(rows, blocks, threshold, keep, bad);
}

/// Without rows nobody is selected.
pub proof fn lemma_nobody_to_select(
    config: StickyUntilSaturatedConfig,
    primary: PrimaryLoad,
    context: RequestContext,
    lead: Real64,
    margin: Real64,
)
    requires
        primary == PrimaryLoad::ProjectedPrefill ==> context.tracks_prefill_tokens,
    ensures
        sticky_selection(config, primary, context, Seq::empty(), lead, margin) == Err::<
            usize,
            SelectionError,
        >(SelectionError::NoEligibleWorker),
{
}

} // verus!
