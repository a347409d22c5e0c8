use router_sandbox::ieee::Real64;
use router_sandbox::selection::{lowest_cost, CostRow, SelectionError};
use router_sandbox::thunderagent::ledger::SessionAssignments;
use router_sandbox::thunderagent::selection::{pick_assigned, pick_target, scored_load};
use router_sandbox::worker::{WorkerAffinityTarget, WorkerWithDpRank};

fn rows(table: &[(u64, f64)]) -> Vec<CostRow> {
    table
        .iter()
        .map(|&(id, cost)| CostRow {
            worker: WorkerWithDpRank::new(id, 0),
            cost: Real64 {
                bits: cost.to_bits(),
            },
        })
        .collect()
}

#[test]
fn picker_honors_the_classifier_assignment_when_eligible() {
    let worker_1 = WorkerWithDpRank::new(1, 0);
    let worker_2 = WorkerWithDpRank::new(2, 0);
    let mut assignments = SessionAssignments::new();
    assignments.set("session-a", Some(worker_2));

    let all = rows(&[(1, 0.0), (2, 0.0)]);
    let selected = pick_assigned(&all, assignments.get("session-a")).unwrap();
    assert_eq!(all[selected].worker, worker_2);

    let pinned = rows(&[(1, 0.0)]);
    let selected = pick_assigned(&pinned, assignments.get("session-a")).unwrap();
    assert_eq!(pinned[selected].worker, worker_1);
}

#[test]
fn honors_the_classifier_target_when_eligible() {
    let worker_1 = WorkerWithDpRank::new(1, 0);
    let worker_2 = WorkerWithDpRank::new(2, 0);
    let all = rows(&[(1, 0.0), (2, 0.0)]);
    let target = WorkerAffinityTarget {
        worker_id: 2,
        dp_rank: Some(0),
    };
    let selected = pick_target(&all, Some(target)).unwrap();
    assert_eq!(all[selected].worker, worker_2);
    assert_ne!(all[selected].worker, worker_1);
}

#[test]
fn falls_back_when_the_classifier_target_is_unavailable() {
    let worker = WorkerWithDpRank::new(1, 0);
    let all = rows(&[(1, 0.0)]);
    let unavailable = WorkerAffinityTarget {
        worker_id: 2,
        dp_rank: Some(0),
    };
    let selected = pick_target(&all, Some(unavailable)).unwrap();
    assert_eq!(all[selected].worker, worker);
}

#[test]
fn a_target_without_a_rank_covers_all_ranks() {
    let target = WorkerAffinityTarget {
        worker_id: 2,
        dp_rank: None,
    };
    assert!(target.matches(&WorkerWithDpRank::new(2, 3)));
    assert!(!target.matches(&WorkerWithDpRank::new(1, 3)));
}

#[test]
fn without_a_target_the_cheapest_worker_is_selected() {
    let all = rows(&[(9, 2.0), (3, 1.0), (1, 1.0)]);
    assert_eq!(pick_assigned(&all, None), Ok(2));
    assert_eq!(pick_target(&all, None), Ok(2));
    assert_eq!(lowest_cost(&all), Some(2));
    // A total order places the negative zero below the positive one.
    assert_eq!(lowest_cost(&rows(&[(1, 0.0), (2, -0.0)])), Some(1));
    assert_eq!(
        pick_assigned(&Vec::new(), None),
        Err(SelectionError::NoEligibleWorker)
    );
    assert_eq!(
        pick_target(&Vec::new(), None),
        Err(SelectionError::NoEligibleWorker)
    );
}

#[test]
fn a_score_needs_a_load() {
    assert_eq!(scored_load(Some(7u64)), Ok(7));
    assert_eq!(
        scored_load::<u64>(None),
        Err(SelectionError::WorkerLoadUnavailable)
    );
    assert_eq!(
        SelectionError::WorkerLoadUnavailable.message(),
        "worker load unavailable"
    );
}

#[test]
fn assignments_are_set_and_cleared() {
    let worker = WorkerWithDpRank::new(4, 1);
    let mut assignments = SessionAssignments::new();
    assert_eq!(assignments.get("session-a"), None);
    assignments.set("session-a", Some(worker));
    assert_eq!(assignments.get("session-a"), Some(worker));
    assignments.set("session-a", None);
    assert_eq!(assignments.get("session-a"), None);
}
