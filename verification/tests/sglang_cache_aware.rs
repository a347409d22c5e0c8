use router_sandbox::ieee::Real64;
use router_sandbox::selection::SelectionError;
use router_sandbox::sglang_cache_aware::config::{ConfigError, SglangCacheAwareConfig};
use router_sandbox::sglang_cache_aware::picker::{
    is_imbalanced, CacheRow, RequestLoad, SglangCacheAwarePicker,
};
use router_sandbox::worker::WorkerWithDpRank;

fn bits_of(value: f64) -> Real64 {
    Real64 {
        bits: value.to_bits(),
    }
}

fn number(value: Real64) -> f64 {
    f64::from_bits(value.bits)
}

fn config(
    cache_threshold: f64,
    balance_abs_threshold: usize,
    balance_rel_threshold: f64,
) -> SglangCacheAwareConfig {
    SglangCacheAwareConfig {
        cache_threshold: bits_of(cache_threshold),
        balance_abs_threshold,
        balance_rel_threshold: bits_of(balance_rel_threshold),
    }
}

fn load(active_requests: usize, ratio: f64) -> RequestLoad {
    RequestLoad {
        active_requests,
        requests: bits_of(active_requests as f64),
        limit: bits_of(active_requests as f64 * ratio),
    }
}

fn candidate(key: u8, device_overlap_blocks: f64, active_requests: usize) -> (u8, f64, usize) {
    (key, device_overlap_blocks, active_requests)
}

fn rows(
    config: &SglangCacheAwareConfig,
    request_blocks: u64,
    candidates: &[(u8, f64, usize)],
) -> Vec<CacheRow> {
    candidates
        .iter()
        .map(|&(key, overlap, active_requests)| CacheRow {
            worker: WorkerWithDpRank::from_worker_id(u64::from(key)),
            load: Some(load(active_requests, number(config.balance_rel_threshold))),
            device_overlap_blocks: Some(bits_of(overlap)),
            cached_fraction: bits_of(if request_blocks > 0 {
                overlap / request_blocks as f64
            } else {
                0.0
            }),
        })
        .collect()
}

fn chosen(
    config: &SglangCacheAwareConfig,
    request_blocks: u64,
    candidates: &[(u8, f64, usize)],
) -> Option<usize> {
    match SglangCacheAwarePicker::new(*config)
        .pick(request_blocks, &rows(config, request_blocks, candidates))
    {
        Ok(row) => Some(row),
        Err(SelectionError::NoEligibleWorker) => None,
        Err(_) => unreachable!(),
    }
}

#[test]
fn config_validates_defaults_and_rejects_invalid_values() {
    assert!(SglangCacheAwareConfig::default().validate().is_ok());
    assert!(SglangCacheAwareConfig {
        cache_threshold: bits_of(f64::NAN),
        ..Default::default()
    }
    .validate()
    .is_err());
    assert!(SglangCacheAwareConfig {
        cache_threshold: bits_of(1.1),
        ..Default::default()
    }
    .validate()
    .is_err());
    assert!(SglangCacheAwareConfig {
        balance_rel_threshold: bits_of(f64::INFINITY),
        ..Default::default()
    }
    .validate()
    .is_err());
    assert!(SglangCacheAwareConfig {
        balance_rel_threshold: bits_of(0.99),
        ..Default::default()
    }
    .validate()
    .is_err());
}

#[test]
fn cache_aware_defaults_and_reasons_are_exact() {
    let defaults = SglangCacheAwareConfig::default();
    assert_eq!(number(defaults.cache_threshold), 0.3);
    assert_eq!(defaults.balance_abs_threshold, 64);
    assert_eq!(number(defaults.balance_rel_threshold), 1.5);
    assert_eq!(
        SglangCacheAwareConfig {
            cache_threshold: bits_of(-1.0),
            ..defaults
        }
        .validate(),
        Err(ConfigError::Invalid(
            "cache_threshold must be finite and in [0, 1]"
        ))
    );
    assert_eq!(
        SglangCacheAwareConfig {
            balance_rel_threshold: bits_of(f64::NAN),
            ..defaults
        }
        .validate(),
        Err(ConfigError::Invalid(
            "balance_rel_threshold must be finite and greater than or equal to 1"
        ))
    );
    assert_eq!(
        SglangCacheAwareConfig {
            balance_rel_threshold: bits_of(1.0),
            ..defaults
        }
        .validate(),
        Ok(())
    );
}

#[test]
fn balanced_pool_prefers_the_largest_qualifying_device_overlap() {
    let candidates = [candidate(1, 8.0, 9), candidate(2, 6.0, 0)];
    assert_eq!(chosen(&config(0.5, 16, 2.0), 10, &candidates), Some(0));
}

#[test]
fn cache_threshold_is_strict() {
    let candidates = [candidate(1, 5.0, 9), candidate(2, 0.0, 0)];
    assert_eq!(chosen(&config(0.5, 16, 2.0), 10, &candidates), Some(1));
}

#[test]
fn cache_miss_chooses_the_least_loaded_worker() {
    let candidates = [candidate(1, 2.0, 4), candidate(2, 0.0, 1)];
    assert_eq!(chosen(&config(0.5, 16, 2.0), 10, &candidates), Some(1));
}

#[test]
fn imbalance_requires_both_absolute_and_relative_conditions() {
    let candidates = [candidate(1, 8.0, 6), candidate(2, 0.0, 1)];
    assert_eq!(chosen(&config(0.5, 4, 10.0), 10, &candidates), Some(0));
    assert_eq!(chosen(&config(0.5, 8, 1.0), 10, &candidates), Some(0));
}

#[test]
fn imbalance_overrides_cache_affinity() {
    let candidates = [candidate(1, 10.0, 3), candidate(2, 0.0, 0)];
    assert_eq!(chosen(&config(0.5, 2, 1.5), 10, &candidates), Some(1));
}

#[test]
fn selection_ties_use_worker_identity_not_candidate_order() {
    let candidates = [candidate(9, 10.0, 0), candidate(1, 10.0, 0)];
    assert_eq!(chosen(&config(0.5, 1, 2.0), 10, &candidates), Some(1));

    let candidates = [candidate(9, 0.0, 0), candidate(1, 0.0, 0)];
    assert_eq!(chosen(&config(0.5, 1, 2.0), 10, &candidates), Some(1));
}

#[test]
fn empty_candidate_set_has_no_selection() {
    assert_eq!(chosen(&SglangCacheAwareConfig::default(), 10, &[]), None);
}

#[test]
fn imbalance_is_strict_on_both_sides() {
    assert!(is_imbalanced(&load(1, 2.0), &load(6, 2.0), 4));
    assert!(!is_imbalanced(&load(1, 2.0), &load(6, 2.0), 5));
    assert!(!is_imbalanced(&load(3, 2.0), &load(6, 2.0), 1));
    assert!(is_imbalanced(&load(3, 1.9), &load(6, 1.9), 1));
}

#[test]
fn a_request_without_blocks_goes_by_load() {
    let candidates = [candidate(1, 8.0, 2), candidate(2, 6.0, 1)];
    assert_eq!(chosen(&config(0.5, 16, 2.0), 0, &candidates), Some(1));
}

#[test]
fn rows_without_inputs_are_errors() {
    let config = config(0.5, 16, 2.0);
    let good = rows(&config, 10, &[candidate(1, 8.0, 9)])[0];
    let picker = SglangCacheAwarePicker::new(config);
    for (bad, error) in [
        (
            CacheRow {
                device_overlap_blocks: None,
                load: None,
                ..good
            },
            SelectionError::CacheUnavailable,
        ),
        (
            CacheRow { load: None, ..good },
            SelectionError::LoadUnavailable,
        ),
        (
            CacheRow {
                device_overlap_blocks: Some(bits_of(-0.5)),
                ..good
            },
            SelectionError::InvalidOverlap,
        ),
    ] {
        assert_eq!(picker.pick(10, &vec![good, bad]), Err(error));
    }
}
