use router_sandbox::ieee::Real64;
use router_sandbox::selection::SelectionError;
use router_sandbox::sticky_until_saturated::config::{ConfigError, StickyUntilSaturatedConfig};
use router_sandbox::sticky_until_saturated::picker::{
    InFlight, PrimaryLoad, RequestContext, StickyLoad, StickyRow, StickyUntilSaturatedPicker,
    StickyUntilSaturatedScorer, WorkerRole,
};
use router_sandbox::worker::WorkerWithDpRank;

fn bits_of(value: f64) -> Real64 {
    Real64 {
        bits: value.to_bits(),
    }
}

fn number(value: Real64) -> f64 {
    f64::from_bits(value.bits)
}

fn saturation_tokens(config: &StickyUntilSaturatedConfig) -> f64 {
    number(config.peak_prefill_tokens_per_second) * config.max_ttft_penalty_ms as f64 / 1_000.0
}

fn check(config: StickyUntilSaturatedConfig) -> Result<(), ConfigError> {
    config.validate(bits_of(saturation_tokens(&config)))
}

fn test_config(saturation_tokens: f64) -> StickyUntilSaturatedConfig {
    StickyUntilSaturatedConfig {
        affinity_threshold: bits_of(0.8),
        peak_prefill_tokens_per_second: bits_of(saturation_tokens),
        max_ttft_penalty_ms: 1_000,
    }
}

#[derive(Clone, Copy)]
struct Candidate {
    key: u8,
    device_overlap_blocks: f64,
    active_prefill_tokens: usize,
    active_requests: usize,
}

fn candidate(
    key: u8,
    device_overlap_blocks: f64,
    active_prefill_tokens: usize,
    active_requests: usize,
) -> Candidate {
    Candidate {
        key,
        device_overlap_blocks,
        active_prefill_tokens,
        active_requests,
    }
}

fn row(candidate: Candidate, request_blocks: u64, block_size: u32) -> StickyRow {
    let missing = (request_blocks as f64 - candidate.device_overlap_blocks).max(0.0);
    StickyRow {
        worker: WorkerWithDpRank::from_worker_id(u64::from(candidate.key)),
        load: Some(StickyLoad {
            active_prefill_tokens: candidate.active_prefill_tokens,
            active_requests: bits_of(candidate.active_requests as f64),
        }),
        device_overlap_blocks: Some(bits_of(candidate.device_overlap_blocks)),
        cached_fraction: bits_of(candidate.device_overlap_blocks / request_blocks as f64),
        projected_prefill: bits_of(
            candidate.active_prefill_tokens as f64 + missing * f64::from(block_size),
        ),
    }
}

fn lead(loads: InFlight) -> f64 {
    match (loads.best_warm, loads.best_cold) {
        (Some(warm), Some(cold)) => warm as f64 - cold as f64,
        _ => 0.0,
    }
}

fn chosen(
    config: &StickyUntilSaturatedConfig,
    primary_load: PrimaryLoad,
    request_blocks: u64,
    block_size: u32,
    tracks_prefill_tokens: bool,
    candidates: &[Candidate],
) -> Result<usize, &'static str> {
    let rows: Vec<StickyRow> = candidates
        .iter()
        .map(|&candidate| row(candidate, request_blocks, block_size))
        .collect();
    let picker = StickyUntilSaturatedPicker::new(*config, primary_load);
    let loads = picker.in_flight(request_blocks, &rows).unwrap();
    let context = RequestContext {
        request_blocks,
        tracks_prefill_tokens,
    };
    let lead = bits_of(lead(loads));
    let margin = bits_of(saturation_tokens(config));
    match picker.pick(context, &rows, lead, margin) {
        Err(SelectionError::PrefillTrackingRequired) => Err("prefill tracking disabled"),
        Err(SelectionError::NoEligibleWorker) => Err("no eligible worker"),
        Err(_) => unreachable!(),
        Ok(row) => Ok(row),
    }
}

#[test]
fn validates_defaults_and_rejects_invalid_values() {
    assert!(check(StickyUntilSaturatedConfig::default()).is_ok());
    assert!(check(StickyUntilSaturatedConfig {
        affinity_threshold: bits_of(f64::NAN),
        ..Default::default()
    })
    .is_err());
    assert!(check(StickyUntilSaturatedConfig {
        affinity_threshold: bits_of(1.1),
        ..Default::default()
    })
    .is_err());
    assert!(check(StickyUntilSaturatedConfig {
        peak_prefill_tokens_per_second: bits_of(0.0),
        ..Default::default()
    })
    .is_err());
    assert!(check(StickyUntilSaturatedConfig {
        max_ttft_penalty_ms: 0,
        ..Default::default()
    })
    .is_ok());
    assert!(check(StickyUntilSaturatedConfig {
        peak_prefill_tokens_per_second: bits_of(f64::MAX),
        max_ttft_penalty_ms: u64::MAX,
        ..Default::default()
    })
    .is_err());
}

#[test]
fn sticky_defaults_and_reasons_are_exact() {
    let defaults = StickyUntilSaturatedConfig::default();
    assert_eq!(number(defaults.affinity_threshold), 0.8);
    assert_eq!(number(defaults.peak_prefill_tokens_per_second), 15_928.0);
    assert_eq!(defaults.max_ttft_penalty_ms, 18_000);
    assert_eq!(
        check(StickyUntilSaturatedConfig {
            affinity_threshold: bits_of(-0.1),
            ..defaults
        }),
        Err(ConfigError::Invalid(
            "affinity_threshold must be finite and in [0, 1]"
        ))
    );
    assert_eq!(
        check(StickyUntilSaturatedConfig {
            peak_prefill_tokens_per_second: bits_of(f64::INFINITY),
            ..defaults
        }),
        Err(ConfigError::Invalid(
            "peak_prefill_tokens_per_second must be finite and positive"
        ))
    );
    assert_eq!(
        check(StickyUntilSaturatedConfig {
            peak_prefill_tokens_per_second: bits_of(f64::MAX),
            max_ttft_penalty_ms: u64::MAX,
            ..defaults
        }),
        Err(ConfigError::Invalid(
            "peak_prefill_tokens_per_second * max_ttft_penalty_ms must be finite"
        ))
    );
    for inside in [0.0, -0.0, 1.0] {
        assert_eq!(
            check(StickyUntilSaturatedConfig {
                affinity_threshold: bits_of(inside),
                ..defaults
            }),
            Ok(())
        );
    }
}

#[test]
fn cold_start_selects_from_all_workers() {
    let candidates = [candidate(9, 1.0, 30, 5), candidate(1, 2.0, 0, 1)];
    assert_eq!(
        chosen(
            &test_config(10.0),
            PrimaryLoad::ProjectedPrefill,
            10,
            1,
            true,
            &candidates
        ),
        Ok(1)
    );
}

#[test]
fn gate_keeps_warm_workers_when_ttft_penalty_is_not_exceeded() {
    let candidates = [candidate(1, 8.0, 5, 1), candidate(2, 0.0, 0, 0)];
    assert_eq!(
        chosen(
            &test_config(5.0),
            PrimaryLoad::ProjectedPrefill,
            10,
            1,
            true,
            &candidates
        ),
        Ok(0)
    );
}

#[test]
fn saturation_margin_is_strict() {
    let candidates = [candidate(1, 8.0, 5, 1), candidate(2, 0.0, 0, 0)];
    assert_eq!(
        chosen(
            &test_config(5.0),
            PrimaryLoad::ProjectedPrefill,
            10,
            1,
            true,
            &candidates
        ),
        Ok(0)
    );
}

#[test]
fn the_lead_is_compared_against_the_margin() {
    let config = test_config(5.0);
    // The warm worker projects 20 tokens, the cold ones 10 and 14.
    let rows = vec![
        row(candidate(1, 8.0, 18, 1), 10, 1),
        row(candidate(2, 0.0, 0, 0), 10, 1),
        row(candidate(3, 0.0, 4, 0), 10, 1),
    ];
    let picker = StickyUntilSaturatedPicker::new(config, PrimaryLoad::ProjectedPrefill);
    let context = RequestContext {
        request_blocks: 10,
        tracks_prefill_tokens: true,
    };
    for (lead, margin, picked) in [
        (5.0, 5.0, 0),
        (-1.0, 0.0, 0),
        (0.0, -0.0, 0),
        (5.5, 5.0, 1),
        (f64::NAN, 5.0, 1),
    ] {
        assert_eq!(
            picker.pick(context, &rows, bits_of(lead), bits_of(margin)),
            Ok(picked)
        );
    }
}

#[test]
fn cold_worker_rejoins_after_crossing_saturation_margin() {
    let candidates = [candidate(1, 8.0, 20, 1), candidate(2, 0.0, 0, 0)];
    assert_eq!(
        chosen(
            &test_config(2.0),
            PrimaryLoad::ProjectedPrefill,
            10,
            1,
            true,
            &candidates
        ),
        Ok(1)
    );
}

#[test]
fn load_escape_restores_full_candidate_set_before_scoring() {
    let candidates = [
        candidate(1, 1_600.0, 1_000, 4),
        candidate(2, 0.0, 0, 0),
        candidate(3, 1_599.0, 950, 0),
    ];
    assert_eq!(
        chosen(
            &test_config(100.0),
            PrimaryLoad::ProjectedPrefill,
            2_000,
            1,
            true,
            &candidates
        ),
        Ok(2)
    );
}

#[test]
fn zero_ttft_penalty_always_keeps_the_warm_set() {
    let candidates = [candidate(1, 8.0, 100, 1), candidate(2, 0.0, 0, 0)];
    let config = StickyUntilSaturatedConfig {
        max_ttft_penalty_ms: 0,
        ..test_config(1.0)
    };
    assert_eq!(
        chosen(
            &config,
            PrimaryLoad::ProjectedPrefill,
            10,
            1,
            true,
            &candidates
        ),
        Ok(0)
    );
}

#[test]
fn affinity_threshold_is_inclusive() {
    let candidates = [candidate(1, 8.0, 0, 1), candidate(2, 0.0, 0, 0)];
    assert_eq!(
        chosen(
            &test_config(100.0),
            PrimaryLoad::ProjectedPrefill,
            10,
            1,
            true,
            &candidates
        ),
        Ok(0)
    );
}

#[test]
fn ties_use_worker_identity_not_candidate_order() {
    let candidates = [candidate(9, 0.0, 0, 0), candidate(1, 0.0, 0, 0)];
    assert_eq!(
        chosen(
            &test_config(1.0),
            PrimaryLoad::ProjectedPrefill,
            10,
            1,
            true,
            &candidates
        ),
        Ok(1)
    );
}

#[test]
fn decode_pool_ranks_eligible_workers_by_active_requests() {
    let candidates = [candidate(1, 0.0, 0, 3), candidate(2, 0.0, 100, 1)];
    assert_eq!(
        chosen(
            &test_config(1_000.0),
            PrimaryLoad::ActiveRequests,
            10,
            1,
            false,
            &candidates
        ),
        Ok(1)
    );
}

#[test]
fn prefill_pool_requires_tracking() {
    let candidates = [candidate(1, 0.0, 0, 0)];
    assert_eq!(
        chosen(
            &test_config(1.0),
            PrimaryLoad::ProjectedPrefill,
            10,
            1,
            false,
            &candidates
        ),
        Err("prefill tracking disabled")
    );
}

#[test]
fn a_sticky_pick_needs_a_worker() {
    assert_eq!(
        chosen(
            &test_config(1.0),
            PrimaryLoad::ProjectedPrefill,
            10,
            1,
            true,
            &[]
        ),
        Err("no eligible worker")
    );
}

#[test]
fn pools_that_prefill_compare_projected_prefill() {
    assert_eq!(
        PrimaryLoad::for_role(WorkerRole::Prefill),
        PrimaryLoad::ProjectedPrefill
    );
    assert_eq!(
        PrimaryLoad::for_role(WorkerRole::Aggregated),
        PrimaryLoad::ProjectedPrefill
    );
    assert_eq!(
        PrimaryLoad::for_role(WorkerRole::Decode),
        PrimaryLoad::ActiveRequests
    );
    assert_eq!(
        PrimaryLoad::for_role(WorkerRole::Encode),
        PrimaryLoad::ActiveRequests
    );
    let prefill = PrimaryLoad::ProjectedPrefill.required_worker_inputs();
    assert!(prefill.load && prefill.cache);
    let decode = PrimaryLoad::ActiveRequests.required_worker_inputs();
    assert!(decode.load && !decode.cache);
}

#[test]
fn the_least_in_flight_prefill_is_kept_apart_for_warm_and_cold_workers() {
    let rows: Vec<StickyRow> = [
        candidate(1, 8.0, 7, 0),
        candidate(2, 9.0, 5, 0),
        candidate(3, 1.0, 3, 0),
        candidate(4, 0.0, 4, 0),
    ]
    .iter()
    .map(|&candidate| row(candidate, 10, 1))
    .collect();
    let picker = StickyUntilSaturatedPicker::new(test_config(1.0), PrimaryLoad::ProjectedPrefill);
    assert_eq!(
        picker.in_flight(10, &rows),
        Ok(InFlight {
            best_warm: Some(5),
            best_cold: Some(3)
        })
    );
    // A request without blocks finds no worker warm.
    assert_eq!(
        picker.in_flight(0, &rows),
        Ok(InFlight {
            best_warm: None,
            best_cold: Some(3)
        })
    );
}

#[test]
fn rows_that_cannot_be_compared_are_errors() {
    let context = RequestContext {
        request_blocks: 10,
        tracks_prefill_tokens: true,
    };
    let good = row(candidate(1, 2.0, 3, 4), 10, 1);
    let picker = StickyUntilSaturatedPicker::new(test_config(1.0), PrimaryLoad::ProjectedPrefill);
    let scorer = StickyUntilSaturatedScorer::new(PrimaryLoad::ProjectedPrefill);
    assert_eq!(scorer.score(context, &good), Ok(bits_of(11.0)));
    let decode = StickyUntilSaturatedScorer::new(PrimaryLoad::ActiveRequests);
    assert_eq!(decode.score(context, &good), Ok(bits_of(4.0)));
    for (bad, error) in [
        (
            StickyRow { load: None, ..good },
            SelectionError::LoadUnavailable,
        ),
        (
            StickyRow {
                device_overlap_blocks: None,
                ..good
            },
            SelectionError::CacheUnavailable,
        ),
        (
            StickyRow {
                device_overlap_blocks: Some(bits_of(-1.0)),
                ..good
            },
            SelectionError::InvalidOverlap,
        ),
        (
            StickyRow {
                device_overlap_blocks: Some(bits_of(f64::NAN)),
                ..good
            },
            SelectionError::InvalidOverlap,
        ),
        (
            StickyRow {
                projected_prefill: bits_of(f64::INFINITY),
                ..good
            },
            SelectionError::PrimaryLoadNotFinite,
        ),
    ] {
        assert_eq!(scorer.score(context, &bad), Err(error));
        assert_eq!(
            picker.pick(context, &vec![good, bad], bits_of(1.0), bits_of(0.0)),
            Err(error)
        );
    }
    let untracked = RequestContext {
        tracks_prefill_tokens: false,
        ..context
    };
    assert_eq!(
        scorer.score(untracked, &good),
        Err(SelectionError::PrefillTrackingRequired)
    );
}
