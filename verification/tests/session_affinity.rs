use router_sandbox::ieee::Real64;
use router_sandbox::selection::SelectionError;
use router_sandbox::session_affinity::config::{ConfigError, SessionAffinityConfig};
use router_sandbox::session_affinity::picker::{
    cost_inputs, decide, AffinityRow, Choice, SessionAffinityPicker, SessionTurn,
};
use router_sandbox::session_affinity::placements::SessionPlacements;
use router_sandbox::worker::WorkerWithDpRank;

fn worker(id: u64) -> WorkerWithDpRank {
    WorkerWithDpRank::from_worker_id(id)
}

fn bits_of(value: f64) -> Real64 {
    Real64 {
        bits: value.to_bits(),
    }
}

fn rows(table: &[(u64, f64, usize)]) -> Vec<AffinityRow> {
    table
        .iter()
        .map(|&(id, cost, active_requests)| AffinityRow {
            worker: worker(id),
            cost: bits_of(cost),
            active_requests,
        })
        .collect()
}

#[test]
fn validates_defaults_and_rejects_zero_capacity() {
    assert!(SessionAffinityConfig::default().validate().is_ok());
    assert!(SessionAffinityConfig {
        max_sessions: 0,
        ..Default::default()
    }
    .validate()
    .is_err());
    assert!(SessionAffinityConfig {
        slack_requests: 0,
        ..Default::default()
    }
    .validate()
    .is_ok());
}

#[test]
fn the_default_slack_is_four_and_the_default_memory_is_bounded() {
    let config = SessionAffinityConfig::default();
    assert_eq!(config.slack_requests, 4);
    assert_eq!(config.max_sessions, 65_536);
    assert_eq!(config.max_sessions(), 65_536);
    let empty = SessionAffinityConfig {
        max_sessions: 0,
        ..config
    };
    assert_eq!(empty.max_sessions(), 1);
    assert_eq!(
        empty.validate(),
        Err(ConfigError::Invalid("max_sessions must be at least 1"))
    );
}

#[test]
fn no_memory_selects_lowest_cost_with_stable_tie_break() {
    let table = [(9, 5.0, 0), (1, 5.0, 0), (2, 7.0, 0)];
    assert_eq!(
        decide(&rows(&table), None, 4).unwrap(),
        Some(Choice::Fallback(1))
    );
}

#[test]
fn remembered_worker_wins_within_slack_even_when_costlier() {
    let table = [(1, 100.0, 4), (2, 1.0, 0)];
    assert_eq!(
        decide(&rows(&table), Some(worker(1)), 4).unwrap(),
        Some(Choice::Sticky(0))
    );
}

#[test]
fn remembered_worker_loses_when_gate_closes() {
    let table = [(1, 100.0, 5), (2, 1.0, 0)];
    assert_eq!(
        decide(&rows(&table), Some(worker(1)), 4).unwrap(),
        Some(Choice::Fallback(1))
    );
}

#[test]
fn zero_slack_keeps_session_only_on_a_least_loaded_worker() {
    let table = [(1, 100.0, 3), (2, 1.0, 3), (3, 1.0, 4)];
    assert_eq!(
        decide(&rows(&table), Some(worker(1)), 0).unwrap(),
        Some(Choice::Sticky(0))
    );
    let table = [(1, 100.0, 4), (2, 1.0, 3)];
    assert_eq!(
        decide(&rows(&table), Some(worker(1)), 0).unwrap(),
        Some(Choice::Fallback(1))
    );
}

#[test]
fn remembered_worker_missing_from_candidates_falls_back() {
    let table = [(2, 3.0, 0), (3, 2.0, 0)];
    assert_eq!(
        decide(&rows(&table), Some(worker(1)), 4).unwrap(),
        Some(Choice::Fallback(1))
    );
}

#[test]
fn empty_candidate_table_yields_no_choice() {
    assert_eq!(decide(&rows(&[]), Some(worker(1)), 4).unwrap(), None);
}

#[test]
fn non_finite_cost_is_an_error() {
    let table = [(1, f64::NAN, 0)];
    assert!(decide(&rows(&table), None, 4).is_err());
    assert_eq!(
        decide(&rows(&[(1, f64::INFINITY, 0)]), None, 4),
        Err(SelectionError::CostNotFinite)
    );
}

#[test]
fn placements_record_update_forget_and_evict_least_recent() {
    let mut placements = SessionPlacements::new(2);
    placements.record("a", worker(1));
    placements.record("b", worker(2));
    assert_eq!(placements.get("a"), Some(worker(1)));

    placements.record("a", worker(3));
    assert_eq!(placements.get("a"), Some(worker(3)));
    assert_eq!(placements.len(), 2);

    // "a" was touched most recently, so "b" is evicted when "c" arrives.
    placements.record("c", worker(4));
    assert_eq!(placements.get("b"), None);
    assert_eq!(placements.get("a"), Some(worker(3)));

    assert_eq!(placements.forget("a"), Some(worker(3)));
    assert_eq!(placements.get("a"), None);
    assert_eq!(placements.forget("a"), None);
}

#[test]
fn costs_order_by_sign_and_negative_zero_comes_first() {
    let table = [(1, 0.0, 0), (2, -0.0, 0), (3, -1.5, 0)];
    assert_eq!(
        decide(&rows(&table), None, 4).unwrap(),
        Some(Choice::Fallback(2))
    );
    assert_eq!(
        decide(&rows(&table[..2]), None, 4).unwrap(),
        Some(Choice::Fallback(1))
    );
}

#[test]
fn a_very_large_slack_never_migrates() {
    let table = [(1, 100.0, usize::MAX), (2, 1.0, 0)];
    assert_eq!(
        decide(&rows(&table), Some(worker(1)), usize::MAX).unwrap(),
        Some(Choice::Sticky(0))
    );
}

#[test]
fn a_fallback_cost_needs_load_and_a_usable_overlap() {
    assert_eq!(
        cost_inputs(None::<u8>, Some(bits_of(1.0))),
        Err(SelectionError::LoadUnavailable)
    );
    assert_eq!(
        cost_inputs(Some(7u8), None),
        Err(SelectionError::CacheUnavailable)
    );
    assert_eq!(
        cost_inputs(Some(7u8), Some(bits_of(-1.0))),
        Err(SelectionError::InvalidOverlap)
    );
    assert_eq!(
        cost_inputs(Some(7u8), Some(bits_of(f64::NAN))),
        Err(SelectionError::InvalidOverlap)
    );
    assert_eq!(
        cost_inputs(Some(7u8), Some(bits_of(-0.0))),
        Ok((7u8, bits_of(-0.0)))
    );
    assert_eq!(
        cost_inputs(Some(7u8), Some(bits_of(6.0))),
        Ok((7u8, bits_of(6.0)))
    );
}

fn turn(session_id: &str, session_final: bool) -> Option<SessionTurn> {
    Some(SessionTurn {
        session_id: session_id.to_owned(),
        session_final,
    })
}

#[test]
fn a_session_returns_to_its_worker_until_its_final_turn() {
    let mut picker = SessionAffinityPicker::new(SessionAffinityConfig::default());
    let first = vec![(worker(1), bits_of(1.0)), (worker(2), bits_of(2.0))];
    let later = vec![(worker(1), bits_of(9.0)), (worker(2), bits_of(2.0))];
    let loads = vec![0, 0];
    assert_eq!(picker.pick(turn("a", false), &first, Some(&loads)), Ok(0));
    assert_eq!(picker.pick(turn("a", false), &later, Some(&loads)), Ok(0));
    assert_eq!(picker.pick(turn("b", false), &later, Some(&loads)), Ok(1));
    assert_eq!(picker.pick(None, &later, Some(&loads)), Ok(1));
    assert_eq!(picker.pick(turn("a", true), &later, Some(&loads)), Ok(0));
    assert_eq!(picker.pick(turn("a", false), &later, Some(&loads)), Ok(1));
}

#[test]
fn a_session_that_migrated_is_remembered_with_its_new_worker() {
    let mut picker = SessionAffinityPicker::new(SessionAffinityConfig::default());
    let table = vec![(worker(1), bits_of(1.0)), (worker(2), bits_of(2.0))];
    assert_eq!(picker.pick(turn("a", false), &table, Some(&vec![0, 0])), Ok(0));
    let dear = vec![(worker(1), bits_of(3.0)), (worker(2), bits_of(2.0))];
    assert_eq!(picker.pick(turn("a", false), &dear, Some(&vec![5, 0])), Ok(1));
    assert_eq!(picker.pick(turn("a", false), &table, Some(&vec![0, 0])), Ok(1));
}

#[test]
fn a_pick_reports_what_is_missing() {
    let mut picker = SessionAffinityPicker::new(SessionAffinityConfig::default());
    let table = vec![(worker(1), bits_of(1.0))];
    let error = picker.pick(None, &table, None).unwrap_err();
    assert_eq!(error, SelectionError::LoadUnavailable);
    assert_eq!(error.message(), "load input unavailable");
    let error = picker.pick(None, &table, Some(&vec![])).unwrap_err();
    assert_eq!(
        error.message(),
        "load input does not match the candidate table"
    );
    let error = picker.pick(None, &vec![], Some(&vec![])).unwrap_err();
    assert_eq!(error.message(), "no eligible worker");
    let table = vec![(worker(1), bits_of(f64::INFINITY))];
    let error = picker.pick(None, &table, Some(&vec![0])).unwrap_err();
    assert_eq!(error.message(), "worker cost must be finite");
}
