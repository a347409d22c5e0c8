use router_sandbox::ieee::Real64;
use router_sandbox::table::Table;
use router_sandbox::thunderagent::capacity::{
    worker_budget, worker_budgets, CapacityCard, HostWorker, WorkerCapacitySnapshot,
};
use router_sandbox::thunderagent::classifier::{
    Classification, ClassifyRequest, PendingClassification, SessionContext, ThunderAgentClassifier,
};
use router_sandbox::thunderagent::config::{ConfigError, ThunderAgentConfig};
use router_sandbox::thunderagent::error::ThunderAgentError;
use router_sandbox::thunderagent::model::WaitStatus;
use router_sandbox::thunderagent::program::{Program, ProgramLifecycle, ProgramStatus};
use router_sandbox::thunderagent::scheduler::{RequestEvent, State};
use router_sandbox::thunderagent::usage::WorkerUsage;
use router_sandbox::worker::WorkerWithDpRank;

const MILLISECOND: u64 = 1_000_000;

fn bits_of(value: f64) -> Real64 {
    Real64 {
        bits: value.to_bits(),
    }
}

fn number(value: Real64) -> f64 {
    f64::from_bits(value.bits)
}

fn scale(tokens: usize, factor: f64) -> usize {
    ((tokens as f64) * factor).clamp(0.0, usize::MAX as f64) as usize
}

fn worker(id: u64) -> WorkerWithDpRank {
    WorkerWithDpRank::new(id, 0)
}

fn config() -> ThunderAgentConfig {
    ThunderAgentConfig {
        scheduler_interval: 5 * MILLISECOND,
        resume_timeout: 1_000 * MILLISECOND,
        session_retention: 1_000 * MILLISECOND,
        buffer_per_program: 0,
        ..Default::default()
    }
}

fn cards(config: &ThunderAgentConfig, values: &[(u64, usize)]) -> Vec<CapacityCard> {
    let pause = number(config.pause_threshold);
    let goal = number(config.pause_target);
    let resume = pause - number(config.resume_hysteresis);
    values
        .iter()
        .map(|&(id, capacity)| CapacityCard {
            worker: worker(id),
            capacity,
            pause_limit: scale(capacity, pause),
            pause_goal: scale(capacity, goal),
            resume_limit: scale(capacity, resume),
        })
        .collect()
}

/// A host that drives the classifier with a clock of its own.
struct Host {
    config: ThunderAgentConfig,
    classifier: ThunderAgentClassifier,
    capacities: WorkerCapacitySnapshot,
    snapshots: u64,
    now: u64,
    next_tick: Option<u64>,
}

impl Host {
    fn with_config(config: ThunderAgentConfig, values: &[(u64, usize)]) -> Host {
        Host {
            config,
            classifier: ThunderAgentClassifier::new(config, 0).ok().unwrap(),
            capacities: WorkerCapacitySnapshot::new(1, cards(&config, values)),
            snapshots: 1,
            now: 0,
            next_tick: None,
        }
    }

    fn new(values: &[(u64, usize)]) -> Host {
        Host::with_config(config(), values)
    }

    fn set_capacities(&mut self, values: &[(u64, usize)]) {
        self.snapshots += 1;
        self.capacities =
            WorkerCapacitySnapshot::new(self.snapshots, cards(&self.config, values));
    }

    fn set_live(&mut self, values: &[(u64, usize)], live: &[u64]) {
        self.snapshots += 1;
        self.capacities =
            WorkerCapacitySnapshot::new(self.snapshots, cards(&self.config, values))
                .with_live_workers(live.iter().map(|&id| worker(id)).collect());
    }

    fn register(&mut self, request_id: &str, session_id: &str, tokens: usize, last: bool) {
        self.classifier
            .register(
                request_id,
                session_id,
                tokens,
                last,
                &self.capacities,
                self.now,
            )
            .unwrap();
    }

    fn reconcile(&mut self) {
        self.classifier
            .reconcile(&self.capacities, &Table::new(), self.now);
    }

    fn start(&mut self) {
        if let Some(interval) = self.classifier.start_scheduler() {
            self.next_tick = Some(self.now + interval);
        }
    }

    /// Let time pass, with the periodic step wherever it falls due.
    fn pass(&mut self, nanoseconds: u64) {
        let end = self.now + nanoseconds;
        while let Some(tick) = self.next_tick {
            if tick > end {
                break;
            }
            self.now = tick;
            self.reconcile();
            self.next_tick = Some(tick + self.config.scheduler_interval);
        }
        self.now = end;
    }

    /// Wait for a request's release, no longer than the given time.
    fn released_within(&mut self, request_id: &str, nanoseconds: u64) -> bool {
        self.start();
        let mut pending = PendingClassification::new(request_id.to_owned());
        let end = self.now + nanoseconds;
        loop {
            if let Some(outcome) = self.classifier.poll_release(&mut pending) {
                assert!(!pending.armed);
                return outcome.is_ok();
            }
            if self.now >= end {
                self.classifier
                    .abandon(&pending, &self.capacities, self.now);
                return false;
            }
            self.pass(MILLISECOND);
        }
    }

    fn release(&mut self, request_id: &str) {
        assert!(self.released_within(request_id, 10_000 * MILLISECOND));
    }

    fn sent(&mut self, request_id: &str, id: u64) {
        self.classifier.on_event(
            RequestEvent::Sent {
                request_id: request_id.to_owned(),
                worker: worker(id),
            },
            &self.capacities,
            self.now,
        );
    }

    fn completed(&mut self, request_id: &str, tokens: usize) {
        let total = self
            .classifier
            .completion_tokens(request_id, Some(tokens))
            .unwrap_or(0);
        self.classifier.on_event(
            RequestEvent::Completed {
                request_id: request_id.to_owned(),
                context_tokens: Some(tokens),
                acting_tokens: scale(total, number(self.config.acting_token_weight)),
            },
            &self.capacities,
            self.now,
        );
    }

    fn aborted(&mut self, request_id: &str) {
        self.classifier.on_event(
            RequestEvent::Aborted {
                request_id: request_id.to_owned(),
            },
            &self.capacities,
            self.now,
        );
    }

    fn status(&self, request_id: &str) -> WaitStatus {
        self.classifier.wait_status(request_id)
    }

    fn program(&self, session_id: &str) -> Program {
        self.classifier.program(session_id).unwrap()
    }
}

#[test]
fn policy_serializes_requests_for_one_session() {
    let mut host = Host::new(&[(1, 1_000)]);
    host.register("request-1", "session-a", 100, false);
    host.release("request-1");
    host.sent("request-1", 1);
    host.register("request-2", "session-a", 100, false);
    assert_eq!(host.status("request-2"), WaitStatus::Waiting);

    host.completed("request-1", 150);
    host.release("request-2");
}

#[test]
fn learns_the_affinity_worker_from_the_sent_event() {
    let mut host = Host::new(&[(1, 300), (2, 1_000)]);
    host.register("request-1", "session-a", 250, false);
    host.release("request-1");
    assert_eq!(host.program("session-a").assigned_worker, None);
    host.sent("request-1", 2);
    assert_eq!(host.program("session-a").assigned_worker, Some(worker(2)));
    assert_eq!(host.classifier.assignment("session-a"), Some(worker(2)));
}

#[test]
fn final_session_frees_capacity_at_admission_without_restoring_on_abort() {
    let mut host = Host::with_config(
        ThunderAgentConfig {
            scheduler_interval: 1_000 * MILLISECOND,
            ..config()
        },
        &[(1, 250)],
    );
    host.register("request-1", "session-a", 200, false);
    host.release("request-1");
    host.sent("request-1", 1);
    host.completed("request-1", 200);

    host.register("request-2", "session-b", 100, false);
    assert_eq!(host.status("request-2"), WaitStatus::Waiting);

    host.register("request-3", "session-a", 1, true);
    host.release("request-3");
    assert!(host.classifier.program("session-a").is_none());
    assert_eq!(host.status("request-2"), WaitStatus::Waiting);

    host.reconcile();
    host.release("request-2");

    host.aborted("request-3");
    assert!(host.classifier.program("session-a").is_none());
}

#[test]
fn final_session_waits_for_inflight_turn_then_removes_program() {
    let mut host = Host::new(&[(1, 1_000)]);
    host.register("request-1", "session-a", 100, false);
    host.release("request-1");
    host.sent("request-1", 1);
    host.register("request-2", "session-a", 1, true);

    assert_eq!(host.status("request-2"), WaitStatus::Waiting);
    assert!(host.classifier.program("session-a").is_some());

    host.completed("request-1", 150);
    host.release("request-2");
    assert!(host.classifier.program("session-a").is_none());
}

#[test]
fn capacity_growth_resumes_a_pending_program() {
    let mut host = Host::with_config(
        ThunderAgentConfig {
            buffer_per_program: 100,
            ..config()
        },
        &[(1, 250)],
    );
    host.register("request-1", "session-a", 100, false);
    host.release("request-1");
    host.sent("request-1", 1);
    host.register("request-2", "session-b", 100, false);
    assert_eq!(host.status("request-2"), WaitStatus::Waiting);

    host.set_capacities(&[(1, 500)]);
    assert!(host.released_within("request-2", 100 * MILLISECOND));
}

#[test]
fn pressure_pauses_an_acting_program_and_capacity_resumes_it() {
    let mut host = Host::with_config(
        ThunderAgentConfig {
            buffer_per_program: 100,
            scheduler_interval: 50 * MILLISECOND,
            ..config()
        },
        &[(1, 500)],
    );
    host.register("request-1", "session-a", 400, false);
    host.release("request-1");
    host.sent("request-1", 1);
    host.completed("request-1", 400);
    assert_eq!(host.program("session-a").lifecycle, ProgramLifecycle::Active);
    host.pass(200 * MILLISECOND);
    assert_eq!(host.program("session-a").lifecycle, ProgramLifecycle::Paused);
    assert_eq!(host.classifier.assignment("session-a"), None);

    host.set_capacities(&[(1, 1_000)]);
    host.register("request-2", "session-a", 400, false);
    assert!(host.released_within("request-2", 200 * MILLISECOND));
    assert_eq!(host.program("session-a").lifecycle, ProgramLifecycle::Active);
}

#[test]
fn sent_event_reconciles_the_actual_worker() {
    let mut host = Host::new(&[(1, 1_000), (2, 1_000)]);
    host.register("request-1", "session-a", 100, false);
    host.release("request-1");
    host.sent("request-1", 2);
    assert_eq!(host.program("session-a").assigned_worker, Some(worker(2)));
}

#[test]
fn live_worker_without_a_model_card_keeps_its_session_assignment() {
    let mut host = Host::new(&[]);
    host.set_live(&[(1, 1_000), (2, 1_000)], &[1, 2]);
    host.register("request-1", "session-a", 100, false);
    host.release("request-1");
    host.sent("request-1", 1);
    host.completed("request-1", 100);

    host.set_live(&[(2, 1_000)], &[1, 2]);
    host.register("request-2", "session-a", 100, false);
    host.release("request-2");
    assert_eq!(host.program("session-a").assigned_worker, Some(worker(1)));

    host.completed("request-2", 100);
    host.set_live(&[(2, 1_000)], &[2]);
    host.register("request-3", "session-a", 100, false);
    host.release("request-3");
    host.sent("request-3", 2);
    assert_eq!(host.program("session-a").assigned_worker, Some(worker(2)));
}

#[test]
fn stale_capacity_card_is_not_used_for_assignment() {
    let mut host = Host::new(&[]);
    host.set_live(&[(1, 1_000), (2, 1_000)], &[2]);
    host.register("request-1", "session-a", 100, false);
    let mut pending = PendingClassification::new("request-1".to_owned());
    assert_eq!(
        host.classifier.poll_release(&mut pending),
        Some(Ok(Some(worker(2))))
    );
    host.sent("request-1", 2);
    assert_eq!(host.program("session-a").assigned_worker, Some(worker(2)));
}

#[test]
fn authoritative_empty_liveness_clears_the_last_assignment() {
    let mut host = Host::new(&[]);
    host.set_live(&[(1, 1_000)], &[1]);
    host.register("request-1", "session-a", 100, false);
    host.release("request-1");
    host.sent("request-1", 1);
    host.completed("request-1", 100);

    host.set_live(&[], &[]);
    host.register("request-2", "session-a", 100, false);
    host.release("request-2");
    assert_eq!(host.program("session-a").assigned_worker, None);
}

#[test]
fn missing_capacity_respects_pause_until_timeout() {
    let mut host = Host::with_config(
        ThunderAgentConfig {
            buffer_per_program: 100,
            resume_timeout: 20 * MILLISECOND,
            ..config()
        },
        &[],
    );
    host.set_live(&[(1, 250)], &[1]);
    host.register("request-1", "session-a", 100, false);
    host.release("request-1");
    host.sent("request-1", 1);
    host.register("request-2", "session-b", 100, false);
    assert_eq!(host.status("request-2"), WaitStatus::Waiting);

    host.set_live(&[], &[1]);
    host.pass(10 * MILLISECOND);
    assert_eq!(host.status("request-2"), WaitStatus::Waiting);
    assert!(host.released_within("request-2", 100 * MILLISECOND));
}

#[test]
fn retained_session_expires_before_its_next_request() {
    let mut host = Host::with_config(
        ThunderAgentConfig {
            session_retention: 5 * MILLISECOND,
            ..config()
        },
        &[(1, 1_000)],
    );
    host.register("request-1", "session-a", 100, false);
    host.release("request-1");
    host.sent("request-1", 1);
    host.completed("request-1", 100);
    host.pass(10 * MILLISECOND);

    host.register("request-2", "session-a", 100, false);
    host.release("request-2");
    assert_eq!(host.program("session-a").step_count, 1);
}

#[test]
fn a_session_expires_without_the_periodic_step() {
    let mut host = Host::with_config(
        ThunderAgentConfig {
            session_retention: 5 * MILLISECOND,
            ..config()
        },
        &[(1, 1_000)],
    );
    host.register("request-1", "session-a", 100, false);
    host.sent("request-1", 1);
    host.completed("request-1", 100);
    host.now = 4 * MILLISECOND;
    host.register("request-2", "session-b", 100, false);
    assert!(host.classifier.program("session-a").is_some());
    host.now = 5 * MILLISECOND;
    host.register("request-3", "session-c", 100, false);
    assert!(host.classifier.program("session-a").is_none());
}

#[test]
fn tracked_request_limit_is_enforced_before_allocating_state() {
    let mut host = Host::with_config(
        ThunderAgentConfig {
            max_tracked_requests: 1,
            ..config()
        },
        &[(1, 1_000)],
    );
    host.register("request-1", "session-a", 100, false);

    let result =
        host.classifier
            .register("request-2", "session-b", 100, false, &host.capacities, 0);
    assert!(matches!(
        result,
        Err(ThunderAgentError::RequestLimitExceeded { limit: 1 })
    ));
    assert_eq!(host.classifier.request_count(), 1);
}

#[test]
fn retained_programs_are_bounded_by_the_tracking_limit() {
    let mut host = Host::with_config(
        ThunderAgentConfig {
            max_tracked_requests: 2,
            ..config()
        },
        &[(1, 1_000)],
    );
    host.register("request-1", "session-a", 100, false);
    host.release("request-1");
    host.completed("request-1", 100);
    host.pass(MILLISECOND);
    host.register("request-2", "session-b", 100, false);
    host.release("request-2");
    host.completed("request-2", 100);

    host.register("request-3", "session-c", 100, false);
    host.release("request-3");

    assert_eq!(host.classifier.program_count(), 2);
    assert!(host.classifier.program("session-a").is_none());
    assert!(host.classifier.program("session-b").is_some());
    assert!(host.classifier.program("session-c").is_some());
}

#[test]
fn arrival_tombstones_are_compacted_amortized() {
    let mut host = Host::new(&[(1, 1_000)]);
    for sequence in 0..2_000 {
        let request_id = format!("request-{sequence}");
        let session_id = format!("session-{sequence}");
        host.register(&request_id, &session_id, 1, true);
        assert_eq!(host.status(&request_id), WaitStatus::Released);
        host.completed(&request_id, 1);
    }

    assert!(host.classifier.arrival_count() <= 256);
    assert_eq!(host.classifier.request_count(), 0);
    assert_eq!(host.classifier.program_count(), 0);
}

#[test]
fn releases_a_large_backlog_without_per_release_linear_removal() {
    const REQUESTS: usize = 5_000;

    let mut host = Host::new(&[(1, 1)]);
    for sequence in 0..REQUESTS {
        host.register(
            &format!("request-{sequence}"),
            &format!("session-{sequence}"),
            100,
            false,
        );
    }

    host.set_capacities(&[(1, 1_000_000)]);
    host.reconcile();

    assert_eq!(
        (0..REQUESTS)
            .filter(|sequence| {
                host.status(&format!("request-{sequence}")) == WaitStatus::Released
            })
            .count(),
        REQUESTS
    );
    assert!(host.classifier.arrival_count() <= 256);
}

#[test]
fn policy_aborted_request_rolls_back_new_program() {
    let mut host = Host::new(&[(1, 1_000)]);
    host.register("request-1", "session-a", 100, false);
    host.release("request-1");
    host.aborted("request-1");

    assert!(host.classifier.program("session-a").is_none());
    assert_eq!(host.status("request-1"), WaitStatus::Missing);
    assert_eq!(host.classifier.request_count(), 0);
}

#[test]
fn dropping_pending_classification_rolls_back_its_program() {
    let mut host = Host::new(&[(1, 100)]);
    host.register("request-1", "session-a", 100, false);
    host.release("request-1");
    host.sent("request-1", 1);
    host.register("request-2", "session-b", 100, false);

    assert!(!host.released_within("request-2", 20 * MILLISECOND));

    assert!(host.classifier.program("session-b").is_none());
    assert_eq!(host.status("request-2"), WaitStatus::Missing);
}

#[test]
fn dropping_an_unpolled_classification_rolls_back_its_program() {
    let mut host = Host::new(&[(1, 100)]);
    host.register("request-1", "session-a", 100, false);
    host.release("request-1");
    host.sent("request-1", 1);
    host.register("request-2", "session-b", 100, false);

    let pending = PendingClassification::new("request-2".to_owned());
    host.classifier
        .abandon(&pending, &host.capacities, host.now);

    assert!(host.classifier.program("session-b").is_none());
    assert_eq!(host.status("request-2"), WaitStatus::Missing);
}

#[test]
fn timeout_forces_release_without_changing_placement() {
    let mut host = Host::with_config(
        ThunderAgentConfig {
            resume_timeout: 20 * MILLISECOND,
            ..config()
        },
        &[(1, 100)],
    );
    host.register("request-1", "session-a", 200, false);
    assert_eq!(host.status("request-1"), WaitStatus::Waiting);
    assert!(host.released_within("request-1", 200 * MILLISECOND));
}

#[test]
fn cold_start_without_model_cards_flows_through() {
    let mut host = Host::new(&[]);
    host.register("request-1", "session-a", 100, false);
    assert_eq!(host.status("request-1"), WaitStatus::Released);
    host.release("request-1");
}

#[test]
fn derives_capacity_and_liveness_from_the_host_context() {
    let worker_with_capacity = worker(1);
    let worker_without_capacity = worker(2);
    let reported = vec![
        HostWorker {
            worker: worker_with_capacity,
            total_kv_blocks: Some(10),
        },
        HostWorker {
            worker: worker_without_capacity,
            total_kv_blocks: None,
        },
    ];
    let budgets = worker_budgets(&reported, 16);
    assert_eq!(budgets, [(worker_with_capacity, 160)]);

    let snapshot = WorkerCapacitySnapshot::new(1, cards(&config(), &[(1, budgets[0].1)]))
        .with_live_workers(vec![worker_with_capacity, worker_without_capacity]);
    assert_eq!(snapshot.len(), 1);
    assert_eq!(snapshot.card(0).worker, worker_with_capacity);
    assert_eq!(snapshot.card(0).capacity, 160);
    assert!(snapshot.is_live(&worker_with_capacity));
    assert!(snapshot.is_live(&worker_without_capacity));
}

#[test]
fn a_budget_saturates() {
    assert_eq!(worker_budget(10, 16), 160);
    assert_eq!(worker_budget(0, 16), 0);
    assert_eq!(worker_budget(u64::MAX, u32::MAX), usize::MAX);
}

#[test]
fn a_snapshot_without_liveness_takes_its_cards_for_live() {
    let snapshot = WorkerCapacitySnapshot::new(7, cards(&config(), &[(1, 10), (2, 20), (1, 30)]));
    assert_eq!(snapshot.id(), 7);
    assert_eq!(snapshot.len(), 2);
    assert!(!snapshot.is_empty());
    assert_eq!(snapshot.card(0).capacity, 30);
    assert!(!snapshot.has_liveness());
    assert!(snapshot.is_live(&worker(1)));
    assert!(!snapshot.is_live(&worker(3)));
    assert!(snapshot.has_usable_capacity());
    assert!(snapshot.has_live_worker());

    let reported = snapshot.with_live_workers(vec![worker(3)]);
    assert!(reported.has_liveness());
    assert!(!reported.is_live(&worker(1)));
    assert!(!reported.has_usable_capacity());
    assert!(reported.has_live_worker());

    let none = WorkerCapacitySnapshot::new(8, Vec::new()).with_live_workers(Vec::new());
    assert!(none.is_empty());
    assert!(!none.has_live_worker());
}

#[test]
fn the_defaults_are_valid_and_bad_numbers_are_not() {
    let defaults = ThunderAgentConfig::default();
    assert_eq!(number(defaults.pause_threshold), 0.95);
    assert_eq!(number(defaults.pause_target), 0.80);
    assert_eq!(number(defaults.resume_hysteresis), 0.10);
    assert_eq!(number(defaults.acting_token_weight), 1.0);
    assert_eq!(number(defaults.acting_decay_tau_seconds), 1.0);
    assert_eq!(defaults.validate(), Ok(()));
    for bad in [-0.5, f64::NAN, f64::INFINITY] {
        let config = ThunderAgentConfig {
            pause_target: bits_of(bad),
            ..defaults
        };
        assert_eq!(config.validate(), Err(ConfigError::Fraction));
        assert!(ThunderAgentClassifier::new(config, 0).is_err());
    }
    for bad in [0.0, -1.0, f64::NAN, f64::INFINITY] {
        let config = ThunderAgentConfig {
            acting_decay_tau_seconds: bits_of(bad),
            ..defaults
        };
        assert_eq!(config.validate(), Err(ConfigError::DecayHalfLife));
    }
}

#[test]
fn a_sessionless_request_passes_unchanged() {
    let mut host = Host::new(&[(1, 1_000)]);
    let classified = host.classifier.classify(
        &ClassifyRequest {
            request_id: None,
            session: None,
            input_tokens: 100,
        },
        &host.capacities,
        0,
    );
    assert!(matches!(classified, Ok(Classification::Unchanged)));
    assert_eq!(host.classifier.request_count(), 0);
    assert!(!host.classifier.needs_reconcile());
}

#[test]
fn a_session_needs_a_request_id_that_is_not_in_use() {
    let mut host = Host::new(&[(1, 1_000)]);
    let request = |request_id: Option<&str>| ClassifyRequest {
        request_id: request_id.map(str::to_owned),
        session: Some(SessionContext {
            session_id: "session-a".to_owned(),
            session_final: None,
        }),
        input_tokens: 100,
    };
    assert!(matches!(
        host.classifier.classify(&request(None), &host.capacities, 0),
        Err(ThunderAgentError::MissingRequestId)
    ));
    match host
        .classifier
        .classify(&request(Some("request-1")), &host.capacities, 0)
    {
        Ok(Classification::Pending(mut pending)) => {
            assert_eq!(pending.request_id, "request-1");
            assert!(pending.armed);
            assert_eq!(
                host.classifier.poll_release(&mut pending),
                Some(Ok(Some(worker(1))))
            );
        }
        _ => unreachable!(),
    }
    match host
        .classifier
        .classify(&request(Some("request-1")), &host.capacities, 0)
    {
        Err(error) => assert_eq!(
            error,
            ThunderAgentError::DuplicateRequestId("request-1".to_owned())
        ),
        Ok(_) => unreachable!(),
    }
    assert_eq!(host.classifier.request_count(), 1);
}

#[test]
fn a_request_that_ended_is_reported_to_its_waiter() {
    let mut host = Host::new(&[(1, 100)]);
    host.register("request-1", "session-a", 100, false);
    host.sent("request-1", 1);
    host.register("request-2", "session-b", 100, false);
    let mut pending = PendingClassification::new("request-2".to_owned());
    assert_eq!(host.classifier.poll_release(&mut pending), None);
    assert!(pending.armed);
    host.aborted("request-2");
    assert_eq!(
        host.classifier.poll_release(&mut pending),
        Some(Err(ThunderAgentError::RequestEnded("request-2".to_owned())))
    );
    assert!(!pending.armed);
}

#[test]
fn the_scheduler_starts_once() {
    let mut host = Host::new(&[]);
    assert_eq!(host.classifier.start_scheduler(), Some(5 * MILLISECOND));
    assert_eq!(host.classifier.start_scheduler(), None);
}

#[test]
fn an_aborted_turn_restores_the_retained_program() {
    let mut host = Host::new(&[(1, 1_000)]);
    host.register("request-1", "session-a", 100, false);
    host.release("request-1");
    host.sent("request-1", 1);
    host.completed("request-1", 150);
    let retained = host.program("session-a");
    assert_eq!(retained.token_total, 150);
    assert_eq!(retained.acting_tokens, 150);
    assert_eq!(retained.status, ProgramStatus::Acting);
    assert_eq!(retained.step_count, 1);

    host.register("request-2", "session-a", 400, false);
    assert_eq!(host.program("session-a").token_total, 400);
    assert_eq!(host.program("session-a").step_count, 2);
    host.aborted("request-2");
    assert_eq!(host.program("session-a"), retained);
}

#[test]
fn released_waiters_are_named_once() {
    let mut host = Host::new(&[(1, 250)]);
    host.register("request-1", "session-a", 200, false);
    host.sent("request-1", 1);
    host.register("request-2", "session-b", 100, false);
    while host.classifier.next_wakeup().is_some() {}
    host.set_capacities(&[(1, 1_000)]);
    host.reconcile();
    assert_eq!(host.classifier.next_wakeup(), Some("request-2".to_owned()));
    assert_eq!(host.classifier.next_wakeup(), None);
}

#[test]
fn acting_programs_are_listed_with_size_and_start() {
    let mut host = Host::new(&[(1, 1_000)]);
    host.register("request-1", "session-a", 100, false);
    host.now = 3;
    host.completed("request-1", 150);
    host.register("request-2", "session-b", 100, false);
    let listed = host.classifier.acting_programs();
    assert_eq!(listed.len(), 1);
    assert_eq!(listed[0].name, "session-a");
    assert_eq!(listed[0].major, 150);
    assert_eq!(listed[0].minor, 3);
}

#[test]
fn a_due_step_runs_without_a_task_of_its_own() {
    let config = config();
    let small = WorkerCapacitySnapshot::new(1, cards(&config, &[(1, 100)]));
    let large = WorkerCapacitySnapshot::new(2, cards(&config, &[(1, 1_000)]));
    let mut state = State::new(config, 0);
    state
        .register("request-1", "session-a", 200, false, &small, 0)
        .unwrap();
    assert_eq!(state.wait_status("request-1"), WaitStatus::Waiting);
    let decays: Table<usize> = Table::new();
    state.reconcile_if_due("request-1", &large, &decays, 4 * MILLISECOND);
    assert_eq!(state.wait_status("request-1"), WaitStatus::Waiting);
    state.reconcile_if_due("request-1", &large, &decays, 5 * MILLISECOND);
    assert_eq!(state.wait_status("request-1"), WaitStatus::Released);
}

#[test]
fn an_aborted_arrival_leaves_the_programs_as_they_were() {
    let mut host = Host::new(&[(1, 250)]);
    host.register("request-1", "session-a", 200, false);
    host.sent("request-1", 1);
    let before = host.program("session-a");
    host.register("request-2", "session-b", 100, false);
    assert_eq!(host.status("request-2"), WaitStatus::Waiting);
    host.aborted("request-2");
    assert_eq!(host.classifier.program_count(), 1);
    assert_eq!(host.program("session-a"), before);
}

#[test]
fn an_overdue_request_is_released_while_a_worker_is_live() {
    let mut host = Host::with_config(
        ThunderAgentConfig {
            resume_timeout: 20 * MILLISECOND,
            ..config()
        },
        &[(1, 100)],
    );
    host.register("request-1", "session-a", 200, false);
    host.now = 19 * MILLISECOND;
    host.reconcile();
    assert_eq!(host.status("request-1"), WaitStatus::Waiting);
    host.now = 20 * MILLISECOND;
    host.reconcile();
    assert_eq!(host.status("request-1"), WaitStatus::Released);
    assert_eq!(host.classifier.next_wakeup(), Some("request-1".to_owned()));
}

#[test]
fn forced_programs_go_where_most_is_left_after_decay() {
    let mut host = Host::with_config(
        ThunderAgentConfig {
            resume_timeout: 20 * MILLISECOND,
            ..config()
        },
        &[(1, 1_000), (2, 900)],
    );
    host.register("request-1", "session-a", 300, false);
    host.sent("request-1", 1);
    host.completed("request-1", 300);
    host.register("request-2", "session-b", 5_000, false);
    assert_eq!(host.status("request-2"), WaitStatus::Waiting);
    host.now = 20 * MILLISECOND;
    // Undecayed, the first worker has less left than the second; decayed it has more.
    let mut decays = Table::new();
    decays.insert("session-a".to_owned(), 10);
    host.classifier
        .reconcile(&host.capacities, &decays, host.now);
    let mut pending = PendingClassification::new("request-2".to_owned());
    assert_eq!(
        host.classifier.poll_release(&mut pending),
        Some(Ok(Some(worker(1))))
    );
}

#[test]
fn resumed_programs_fill_the_tightest_room() {
    let mut host = Host::new(&[(1, 100), (2, 100)]);
    host.register("request-1", "session-a", 100, false);
    host.sent("request-1", 1);
    host.register("request-2", "session-b", 100, false);
    host.sent("request-2", 2);
    for (request_id, session_id, tokens) in [
        ("request-3", "session-c", 300),
        ("request-4", "session-d", 500),
    ] {
        host.register(request_id, session_id, tokens, false);
        assert_eq!(host.status(request_id), WaitStatus::Waiting);
    }
    // Room for 750 on the first worker and 410 on the second.
    host.set_capacities(&[(1, 1_000), (2, 600)]);
    host.reconcile();
    let mut larger = PendingClassification::new("request-4".to_owned());
    assert_eq!(
        host.classifier.poll_release(&mut larger),
        Some(Ok(Some(worker(1))))
    );
    let mut smaller = PendingClassification::new("request-3".to_owned());
    assert_eq!(
        host.classifier.poll_release(&mut smaller),
        Some(Ok(Some(worker(2))))
    );
}

#[test]
fn resuming_leaves_headroom_below_the_pause_threshold() {
    // Usage of 100 leaves 750 tokens below the resume limit, and 850 below the pause limit.
    for (tokens, status) in [(750, WaitStatus::Released), (751, WaitStatus::Waiting)] {
        let mut host = Host::new(&[(1, 100)]);
        let limits = cards(&host.config, &[(1, 1_000)]);
        assert_eq!(limits[0].pause_limit, 950);
        assert_eq!(limits[0].resume_limit, 850);
        host.register("request-1", "session-a", 100, false);
        host.sent("request-1", 1);
        host.register("request-2", "session-b", tokens, false);
        assert_eq!(host.status("request-2"), WaitStatus::Waiting);
        host.set_capacities(&[(1, 1_000)]);
        host.reconcile();
        assert_eq!(host.status("request-2"), status);
    }
}

#[test]
fn requests_of_a_session_are_released_in_order_of_arrival() {
    let mut host = Host::new(&[(1, 1_000)]);
    for request_id in ["request-1", "request-2", "request-3", "request-4"] {
        host.register(request_id, "session-a", 100, false);
    }
    host.aborted("request-2");
    for (done, next, behind) in [
        ("request-1", "request-3", Some("request-4")),
        ("request-3", "request-4", None),
    ] {
        assert_eq!(host.status(done), WaitStatus::Released);
        host.reconcile();
        assert_eq!(host.status(next), WaitStatus::Waiting);
        host.sent(done, 1);
        host.completed(done, 100);
        assert_eq!(host.status(next), WaitStatus::Released);
        if let Some(behind) = behind {
            assert_eq!(host.status(behind), WaitStatus::Waiting);
        }
    }
}

#[test]
fn a_taken_program_is_out_until_the_next_request_makes_a_new_one() {
    let mut host = Host::new(&[(1, 1_000)]);
    host.register("request-1", "session-a", 100, false);
    host.sent("request-1", 1);
    host.completed("request-1", 400);
    host.register("request-2", "session-a", 500, true);
    assert_eq!(host.status("request-2"), WaitStatus::Released);
    assert_eq!(host.classifier.program_count(), 0);
    host.sent("request-2", 1);
    host.reconcile();
    assert_eq!(host.classifier.program_count(), 0);
    assert_eq!(host.classifier.assignment("session-a"), None);
    host.register("request-3", "session-a", 50, false);
    host.aborted("request-2");
    assert_eq!(host.status("request-3"), WaitStatus::Released);
    assert_eq!(host.program("session-a").token_total, 50);
}

#[test]
fn usage_is_what_the_program_table_says() {
    // What is left on the worker is a program of 300 tokens, below a resume limit of 850.
    for (tokens, status) in [(550, WaitStatus::Released), (551, WaitStatus::Waiting)] {
        let mut host = Host::new(&[(1, 1_000)]);
        host.register("request-1", "session-a", 100, false);
        host.sent("request-1", 1);
        host.register("request-2", "session-c", 200, false);
        host.sent("request-2", 1);
        host.completed("request-1", 300);
        host.aborted("request-2");
        host.set_capacities(&[(1, 100)]);
        host.register("request-3", "session-b", tokens, false);
        assert_eq!(host.status("request-3"), WaitStatus::Waiting);
        host.set_capacities(&[(1, 1_000)]);
        host.reconcile();
        assert_eq!(host.status("request-3"), status);
    }
}

#[test]
fn only_a_begun_request_whose_turn_it_is_is_released() {
    let capacities = WorkerCapacitySnapshot::new(1, cards(&config(), &[(1, 100)]));
    let mut state = State::new(config(), 0);
    for request_id in ["request-1", "request-2"] {
        state
            .register(request_id, "session-a", 200, false, &capacities, 0)
            .unwrap();
    }
    assert!(!state.release_request("request-2", None));
    assert_eq!(state.wait_status("request-1"), WaitStatus::Waiting);
    assert!(state.release_request("request-1", Some(worker(1))));
    assert_eq!(state.wait_status("request-1"), WaitStatus::Released);
    assert_eq!(state.request_target("request-1"), Some(worker(1)));
    assert!(!state.release_request("request-1", None));
    assert!(!state.release_request("request-2", None));
    assert!(!state.release_request("request-3", None));
}

#[test]
fn removing_a_program_from_usage_undoes_adding_it() {
    let mut usage = WorkerUsage { used: 7, decayed: 5 };
    usage.add_program(100, 60, 10);
    assert_eq!(
        usage,
        WorkerUsage {
            used: 117,
            decayed: 75
        }
    );
    usage.remove_program(100, 60, 10);
    assert_eq!(usage, WorkerUsage { used: 7, decayed: 5 });
}
