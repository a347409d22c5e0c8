use router_sandbox::ieee::Real64;
use router_sandbox::selection::SelectionError;
use router_sandbox::sgl_router_cache_aware::{
    select_row, CacheOverlap, SglRouterCacheAwarePicker, CACHE_AFFINITY_THRESHOLD,
    IMBALANCE_DELTA_REQUESTS, IMBALANCE_RATIO,
};
use router_sandbox::sglang_cache_aware::picker::RequestLoad;

fn bits_of(value: f64) -> Real64 {
    Real64 {
        bits: value.to_bits(),
    }
}

fn cache(overlaps: &[f64], request_blocks: u64) -> Vec<CacheOverlap> {
    overlaps
        .iter()
        .map(|&overlap| CacheOverlap {
            device_overlap_blocks: bits_of(overlap),
            cached_fraction: bits_of(overlap / request_blocks as f64),
        })
        .collect()
}

fn loads(active: &[usize]) -> Vec<RequestLoad> {
    active
        .iter()
        .map(|&active_requests| RequestLoad {
            active_requests,
            requests: bits_of(active_requests as f64),
            limit: bits_of(f64::from_bits(IMBALANCE_RATIO) * active_requests as f64),
        })
        .collect()
}

#[test]
fn the_thresholds_are_those_of_the_router() {
    assert_eq!(f64::from_bits(CACHE_AFFINITY_THRESHOLD), 0.5);
    assert_eq!(f64::from_bits(IMBALANCE_RATIO), 1.1);
    assert_eq!(IMBALANCE_DELTA_REQUESTS, 32);
}

#[test]
fn a_large_prefix_selects_its_least_loaded_holder() {
    let row = select_row(&cache(&[6.0, 2.0, 6.0], 10), &loads(&[4, 0, 3]), 10);
    assert_eq!(row, Some(2));
}

#[test]
fn half_a_prefix_is_not_enough() {
    let row = select_row(&cache(&[5.0, 2.0], 10), &loads(&[4, 0]), 10);
    assert_eq!(row, Some(1));
}

#[test]
fn an_unbalanced_pool_goes_by_load() {
    let rows = cache(&[10.0, 0.0], 10);
    assert_eq!(select_row(&rows, &loads(&[32, 0]), 10), Some(0));
    assert_eq!(select_row(&rows, &loads(&[33, 0]), 10), Some(1));
    // The spread is large but the ratio is not.
    assert_eq!(select_row(&rows, &loads(&[1_040, 1_000]), 10), Some(0));
}

#[test]
fn equal_loads_select_the_first_row() {
    let row = select_row(&cache(&[0.0, 0.0], 10), &loads(&[3, 3]), 10);
    assert_eq!(row, Some(0));
    assert_eq!(select_row(&cache(&[9.0, 9.0], 0), &loads(&[3, 3]), 0), Some(0));
}

#[test]
fn tables_must_be_there_and_match() {
    let picker = SglRouterCacheAwarePicker;
    let rows = cache(&[1.0], 10);
    let two = loads(&[1, 2]);
    assert_eq!(
        picker.pick(10, None, Some(&two)),
        Err(SelectionError::CacheUnavailable)
    );
    assert_eq!(
        picker.pick(10, Some(&rows), None),
        Err(SelectionError::LoadUnavailable)
    );
    assert_eq!(
        picker.pick(10, Some(&rows), Some(&two)),
        Err(SelectionError::NoEligibleWorker)
    );
    assert_eq!(
        picker.pick(10, Some(&Vec::new()), Some(&Vec::new())),
        Err(SelectionError::NoEligibleWorker)
    );
    assert_eq!(picker.pick(10, Some(&rows), Some(&loads(&[7]))), Ok(0));
}
