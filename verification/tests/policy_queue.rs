use router_sandbox::policy_queue::model::{PolicyQueueDecision, PolicyQueueWorker, WorkerLimits};
use router_sandbox::policy_queue::policy::{PolicyQueueEvent, ThunderAgentPolicy};
use router_sandbox::table::Table;
use router_sandbox::thunderagent::config::ThunderAgentConfig;
use router_sandbox::thunderagent::program::{ProgramLifecycle, ProgramStatus};
use router_sandbox::worker::WorkerWithDpRank;

fn scale(tokens: usize, factor: f64) -> usize {
    ((tokens as f64) * factor).clamp(0.0, usize::MAX as f64) as usize
}

fn limits(capacity: usize) -> WorkerLimits {
    let config = ThunderAgentConfig::default();
    let pause = f64::from_bits(config.pause_threshold.bits);
    WorkerLimits {
        capacity,
        pause_limit: scale(capacity, pause),
        pause_goal: scale(capacity, f64::from_bits(config.pause_target.bits)),
        resume_limit: scale(
            capacity,
            pause - f64::from_bits(config.resume_hysteresis.bits),
        ),
    }
}

fn worker(id: u64, capacity: usize) -> PolicyQueueWorker {
    PolicyQueueWorker {
        worker: WorkerWithDpRank::new(id, 0),
        limits: Some(limits(capacity)),
        available: true,
    }
}

fn buffered() -> ThunderAgentConfig {
    ThunderAgentConfig {
        buffer_per_program: 100,
        ..Default::default()
    }
}

/// A queue with a clock of its own.
struct Queue {
    policy: ThunderAgentPolicy,
    now: u64,
}

impl Queue {
    fn new(config: ThunderAgentConfig) -> Queue {
        Queue {
            policy: ThunderAgentPolicy::new(config, 0),
            now: 0,
        }
    }

    fn request(
        &mut self,
        id: u64,
        request_id: &str,
        session_id: Option<&str>,
        workers: &[PolicyQueueWorker],
        tokens: usize,
    ) -> PolicyQueueDecision {
        self.policy.admit_request(
            id,
            request_id,
            session_id,
            tokens,
            &workers.to_vec(),
            self.now,
        )
    }

    fn event(&mut self, event: PolicyQueueEvent) -> Vec<u64> {
        let mut ready = Vec::new();
        self.policy
            .on_event(event, &Table::new(), self.now, &mut ready);
        ready
    }

    fn dispatched(&mut self, id: u64, worker: u64) {
        let ready = self.event(PolicyQueueEvent::Dispatched {
            id,
            worker: WorkerWithDpRank::new(worker, 0),
        });
        assert!(ready.is_empty());
    }

    fn completed(&mut self, request_id: &str, tokens: usize) -> Vec<u64> {
        let acting_tokens = self
            .policy
            .completion_tokens(request_id, Some(tokens))
            .unwrap_or(0);
        self.event(PolicyQueueEvent::Completed {
            request_id: request_id.to_owned(),
            context_tokens: Some(tokens),
            acting_tokens,
        })
    }

    fn aborted(&mut self, request_id: &str) -> Vec<u64> {
        self.event(PolicyQueueEvent::Aborted {
            request_id: request_id.to_owned(),
        })
    }

    /// The periodic step at the moment it falls due.
    fn reconcile(&mut self, workers: &[PolicyQueueWorker]) -> Vec<u64> {
        self.now += ThunderAgentConfig::default().scheduler_interval;
        self.event(PolicyQueueEvent::Reconcile {
            workers: workers.to_vec(),
        })
    }
}

#[test]
fn serializes_requests_for_one_session() {
    let workers = [worker(1, 1_000)];
    let mut queue = Queue::new(Default::default());
    assert_eq!(
        queue.request(1, "request-1", Some("session-a"), &workers, 100),
        PolicyQueueDecision::Ready
    );
    assert_eq!(
        queue.request(2, "request-2", Some("session-a"), &workers, 100),
        PolicyQueueDecision::Defer
    );
    queue.dispatched(1, 1);
    assert_eq!(queue.completed("request-1", 150), [2]);
}

#[test]
fn defers_when_program_capacity_is_exhausted() {
    let workers = [worker(1, 250)];
    let mut queue = Queue::new(buffered());
    assert_eq!(
        queue.request(1, "request-1", Some("session-a"), &workers, 100),
        PolicyQueueDecision::Ready
    );
    assert_eq!(
        queue.request(2, "request-2", Some("session-b"), &workers, 100),
        PolicyQueueDecision::Defer
    );
}

#[test]
fn aborted_request_rolls_back_new_program() {
    let workers = [worker(1, 1_000)];
    let mut queue = Queue::new(Default::default());
    assert_eq!(
        queue.request(1, "request-1", Some("session-a"), &workers, 100),
        PolicyQueueDecision::Ready
    );
    queue.aborted("request-1");
    assert!(queue.policy.program("session-a").is_none());
}

#[test]
fn sessionless_request_bypasses_without_state() {
    let workers = [worker(1, 1_000)];
    let mut queue = Queue::new(Default::default());
    assert_eq!(
        queue.request(1, "request-1", None, &workers, 100),
        PolicyQueueDecision::Bypass
    );
    assert_eq!(queue.policy.program_count(), 0);
    assert_eq!(queue.policy.request_count(), 0);
    assert!(!queue.policy.tracks("request-1"));
}

#[test]
fn reconcile_wakes_program_after_capacity_grows() {
    let small = [worker(1, 250)];
    let large = [worker(1, 500)];
    let mut queue = Queue::new(buffered());
    assert_eq!(
        queue.request(1, "request-1", Some("session-a"), &small, 100),
        PolicyQueueDecision::Ready
    );
    assert_eq!(
        queue.request(2, "request-2", Some("session-b"), &small, 100),
        PolicyQueueDecision::Defer
    );

    assert_eq!(queue.reconcile(&large), [2]);
    assert_eq!(
        queue.policy.program("session-b").unwrap().assigned_worker,
        Some(WorkerWithDpRank::new(1, 0))
    );
}

#[test]
fn dispatch_records_actual_worker_for_next_turn() {
    let workers = [worker(1, 1_000), worker(2, 1_000)];
    let mut queue = Queue::new(Default::default());
    assert_eq!(
        queue.request(1, "request-1", Some("session-a"), &workers, 100),
        PolicyQueueDecision::Ready
    );
    queue.dispatched(1, 2);
    queue.completed("request-1", 150);
    assert_eq!(
        queue.policy.program("session-a").unwrap().token_total,
        150
    );
    assert_eq!(
        queue.request(2, "request-2", Some("session-a"), &workers, 100),
        PolicyQueueDecision::Ready
    );
    assert_eq!(
        queue.policy.program("session-a").unwrap().assigned_worker,
        Some(WorkerWithDpRank::new(2, 0))
    );
    assert_eq!(
        queue.policy.assignment("session-a"),
        Some(WorkerWithDpRank::new(2, 0))
    );
}

#[test]
fn pressure_pauses_acting_program_and_capacity_resumes_it() {
    let constrained = [worker(1, 500)];
    let expanded = [worker(1, 1_000)];
    let mut queue = Queue::new(buffered());
    assert_eq!(
        queue.request(1, "request-1", Some("session-a"), &constrained, 400),
        PolicyQueueDecision::Ready
    );
    queue.dispatched(1, 1);
    queue.completed("request-1", 400);

    queue.reconcile(&constrained);
    assert_eq!(
        queue.policy.program("session-a").unwrap().lifecycle,
        ProgramLifecycle::Paused
    );
    assert_eq!(queue.policy.assignment("session-a"), None);

    queue.reconcile(&expanded);
    assert_eq!(
        queue.policy.program("session-a").unwrap().lifecycle,
        ProgramLifecycle::Active
    );
}

#[test]
fn a_request_id_in_use_bypasses() {
    let workers = [worker(1, 1_000)];
    let mut queue = Queue::new(Default::default());
    queue.request(1, "request-1", Some("session-a"), &workers, 100);
    assert_eq!(
        queue.request(2, "request-1", Some("session-b"), &workers, 100),
        PolicyQueueDecision::Bypass
    );
    assert!(queue.policy.program("session-b").is_none());
}

#[test]
fn a_step_that_is_not_due_changes_nothing_but_workers() {
    let small = [worker(1, 250)];
    let large = [worker(1, 500)];
    let mut queue = Queue::new(buffered());
    queue.request(1, "request-1", Some("session-a"), &small, 100);
    queue.request(2, "request-2", Some("session-b"), &small, 100);
    let ready = queue.event(PolicyQueueEvent::Reconcile {
        workers: large.to_vec(),
    });
    assert!(ready.is_empty());
    assert_eq!(
        queue.policy.program("session-b").unwrap().lifecycle,
        ProgramLifecycle::Paused
    );
}

#[test]
fn a_new_program_does_not_overtake_paused_ones() {
    let small = [worker(1, 250)];
    let large = [worker(1, 10_000)];
    let mut queue = Queue::new(buffered());
    queue.request(1, "request-1", Some("session-a"), &small, 100);
    queue.request(2, "request-2", Some("session-b"), &small, 100);
    assert_eq!(
        queue.request(3, "request-3", Some("session-c"), &large, 100),
        PolicyQueueDecision::Defer
    );
    assert_eq!(queue.reconcile(&large), [2, 3]);
}

#[test]
fn waiting_requests_take_their_turns_in_order() {
    let workers = [worker(1, 1_000)];
    let mut queue = Queue::new(Default::default());
    for (id, request_id) in [
        (1, "request-1"),
        (2, "request-2"),
        (3, "request-3"),
        (4, "request-4"),
    ] {
        queue.request(id, request_id, Some("session-a"), &workers, 100);
    }
    assert!(queue.aborted("request-2").is_empty());
    queue.dispatched(1, 1);
    assert_eq!(queue.completed("request-1", 150), [3]);
    assert_eq!(queue.aborted("request-3"), [4]);
    queue.dispatched(4, 1);
    assert!(queue.completed("request-4", 200).is_empty());
    let program = queue.policy.program("session-a").unwrap();
    assert_eq!(program.status, ProgramStatus::Acting);
    assert_eq!(program.step_count, 2);
    assert_eq!(program.token_total, 200);
}

#[test]
fn deferred_programs_resume_in_their_order_of_arrival() {
    let small = [worker(1, 250)];
    let large = [worker(1, 10_000)];
    let mut queue = Queue::new(buffered());
    queue.request(1, "request-1", Some("session-a"), &small, 100);
    for (id, request_id, session_id) in [
        (2, "request-2", "session-z"),
        (3, "request-3", "session-y"),
        (4, "request-4", "session-x"),
    ] {
        assert_eq!(
            queue.request(id, request_id, Some(session_id), &small, 100),
            PolicyQueueDecision::Defer
        );
    }
    assert!(queue.aborted("request-2").is_empty());
    assert_eq!(queue.reconcile(&large), [3, 4]);
}

#[test]
fn acting_programs_keep_their_order_when_one_leaves() {
    let workers = [worker(1, 10_000)];
    let mut queue = Queue::new(Default::default());
    for (id, request_id, session_id) in [
        (1, "request-1", "session-z"),
        (2, "request-2", "session-y"),
        (3, "request-3", "session-x"),
    ] {
        queue.request(id, request_id, Some(session_id), &workers, 100);
    }
    queue.aborted("request-1");
    for (id, request_id) in [(2, "request-2"), (3, "request-3")] {
        queue.dispatched(id, 1);
        queue.completed(request_id, 150);
    }
    let listed: Vec<String> = queue
        .policy
        .acting_programs()
        .into_iter()
        .map(|program| program.name)
        .collect();
    assert_eq!(listed, ["session-y", "session-x"]);
}

#[test]
fn a_turn_that_was_not_dispatched_is_rolled_back() {
    let workers = [worker(1, 1_000)];
    let mut queue = Queue::new(Default::default());
    queue.request(1, "request-1", Some("session-a"), &workers, 100);
    queue.dispatched(1, 1);
    queue.completed("request-1", 150);
    let retained = queue.policy.program("session-a");
    queue.request(2, "request-2", Some("session-a"), &workers, 400);
    queue.completed("request-2", 500);
    assert_eq!(queue.policy.program("session-a"), retained);
}

#[test]
fn a_program_leaves_a_worker_that_is_gone() {
    let both = [worker(1, 1_000), worker(2, 1_000)];
    let one = [worker(2, 1_000)];
    let mut queue = Queue::new(Default::default());
    queue.request(1, "request-1", Some("session-a"), &both, 100);
    queue.dispatched(1, 1);
    queue.completed("request-1", 150);
    assert_eq!(
        queue.policy.assignment("session-a"),
        Some(WorkerWithDpRank::new(1, 0))
    );
    assert_eq!(
        queue.request(2, "request-2", Some("session-a"), &one, 100),
        PolicyQueueDecision::Ready
    );
    assert_eq!(
        queue.policy.assignment("session-a"),
        Some(WorkerWithDpRank::new(2, 0))
    );
}

#[test]
fn a_program_waits_for_its_worker() {
    let ready = [worker(1, 1_000), worker(2, 1_000)];
    let busy = [
        PolicyQueueWorker {
            available: false,
            ..worker(1, 1_000)
        },
        worker(2, 1_000),
    ];
    let mut queue = Queue::new(Default::default());
    queue.request(1, "request-1", Some("session-a"), &ready, 100);
    queue.dispatched(1, 1);
    queue.completed("request-1", 150);
    assert_eq!(
        queue.request(2, "request-2", Some("session-a"), &busy, 100),
        PolicyQueueDecision::Defer
    );
    assert_eq!(
        queue.policy.assignment("session-a"),
        Some(WorkerWithDpRank::new(1, 0))
    );
    assert_eq!(queue.reconcile(&ready), [2]);
}

#[test]
fn a_late_program_is_forced_to_run() {
    let config = ThunderAgentConfig {
        resume_timeout: ThunderAgentConfig::default().scheduler_interval,
        ..buffered()
    };
    let small = [worker(1, 50)];
    let mut queue = Queue::new(config);
    assert_eq!(
        queue.request(1, "request-1", Some("session-a"), &small, 100),
        PolicyQueueDecision::Defer
    );
    assert_eq!(queue.reconcile(&small), [1]);
    assert_eq!(
        queue.policy.assignment("session-a"),
        Some(WorkerWithDpRank::new(1, 0))
    );
}

#[test]
fn idle_programs_expire() {
    let config = ThunderAgentConfig {
        session_retention: 2 * ThunderAgentConfig::default().scheduler_interval,
        ..Default::default()
    };
    let workers = [worker(1, 1_000)];
    let mut queue = Queue::new(config);
    queue.request(1, "request-1", Some("session-a"), &workers, 100);
    queue.dispatched(1, 1);
    queue.completed("request-1", 150);
    queue.reconcile(&workers);
    assert_eq!(queue.policy.program_count(), 1);
    let listed = queue.policy.acting_programs();
    assert_eq!(listed.len(), 1);
    assert_eq!(listed[0].name, "session-a");
    queue.reconcile(&workers);
    assert_eq!(queue.policy.program_count(), 0);
    assert_eq!(queue.policy.assignment("session-a"), None);
}

#[test]
fn programs_are_placed_on_the_least_used_worker() {
    let workers = [worker(2, 1_000), worker(1, 1_000)];
    let mut queue = Queue::new(buffered());
    queue.request(1, "request-1", Some("session-a"), &workers, 100);
    assert_eq!(
        queue.policy.assignment("session-a"),
        Some(WorkerWithDpRank::new(1, 0))
    );
    queue.request(2, "request-2", Some("session-b"), &workers, 100);
    assert_eq!(
        queue.policy.assignment("session-b"),
        Some(WorkerWithDpRank::new(2, 0))
    );
}

#[test]
fn reasoning_programs_pause_after_their_turn() {
    let workers = [worker(1, 500)];
    let mut queue = Queue::new(buffered());
    queue.request(1, "request-1", Some("session-a"), &workers, 400);
    queue.dispatched(1, 1);
    queue.reconcile(&workers);
    let program = queue.policy.program("session-a").unwrap();
    assert!(program.marked_for_pause);
    assert_eq!(program.lifecycle, ProgramLifecycle::Active);
    queue.completed("request-1", 400);
    let program = queue.policy.program("session-a").unwrap();
    assert!(!program.marked_for_pause);
    assert_eq!(program.lifecycle, ProgramLifecycle::Paused);
}
