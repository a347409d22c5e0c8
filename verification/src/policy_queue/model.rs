//! What the policy's state is and what each step makes of it.
use vstd::prelude::*;

use crate::choice::pick;
use crate::policy_queue::indexed::{
    program_of, with_item, with_program, without_item, without_program, ProgramEntry,
};
use crate::policy_queue::programs::{entry_names, placed_order};
use crate::ranking::Rank;
use crate::thunderagent::config::ThunderAgentConfig;
use crate::thunderagent::order::Keys;
use crate::thunderagent::placement::{decayed_tokens, fitting_rooms, may_go, Room};
use crate::thunderagent::program::{Program, ProgramLifecycle, ProgramStatus};
use crate::thunderagent::relief::on_worker;
use crate::thunderagent::usage::WorkerUsage;
use crate::worker::WorkerWithDpRank;

verus! {

/// A worker's capacity in tokens, with the fractions of it that decisions are made against. The
/// host scales them.
#[derive(Clone, Copy, Debug, PartialEq, Eq, Structural)]
pub struct WorkerLimits {
    pub capacity: usize,
    pub pause_limit: usize,
    pub pause_goal: usize,
    pub resume_limit: usize,
}

/// A worker as the queue knows it.
#[derive(Clone, Copy, Debug, PartialEq, Eq, Structural)]
pub struct PolicyQueueWorker {
    pub worker: WorkerWithDpRank,
    pub limits: Option<WorkerLimits>,
    pub available: bool,
}

/// What becomes of a request.
#[derive(Clone, Copy, Debug, PartialEq, Eq, Structural)]
pub enum PolicyQueueDecision {
    /// It may be dispatched.
    Ready,
    /// It waits until the policy names it ready.
    Defer,
    /// The policy does not track it.
    Bypass,
}

/// A tracked request.
pub struct QueueRequest {
    pub request_id: Seq<char>,
    pub session: Seq<char>,
    pub context_tokens: usize,
    pub dispatched: bool,
    /// The session's program before this request's turn.
    pub prior: Option<Program>,
}

/// The requests of one session: the one whose turn it is, and those behind it.
#[verifier::ext_equal]
pub struct QueueSession {
    pub current: Option<u64>,
    pub waiting: Seq<u64>,
}

/// The policy's state.
#[verifier::ext_equal]
pub struct QueueModel {
    pub config: ThunderAgentConfig,
    pub programs: Seq<ProgramEntry>,
    pub paused: Seq<Seq<char>>,
    pub requests: Map<u64, QueueRequest>,
    pub request_ids: Map<Seq<char>, u64>,
    pub sessions: Map<Seq<char>, QueueSession>,
    pub workers: Seq<PolicyQueueWorker>,
    pub assignments: Map<Seq<char>, WorkerWithDpRank>,
    pub next_tick: u128,
}

/// Whether a worker is known.
pub open spec fn is_known(workers: Seq<PolicyQueueWorker>, worker: WorkerWithDpRank) -> bool {
    exists|at: int| 0 <= at < workers.len() && (#[trigger] workers[at]).worker == worker
}

/// Where a worker is.
pub open spec fn worker_at(workers: Seq<PolicyQueueWorker>, worker: WorkerWithDpRank) -> int {
    choose|at: int| 0 <= at < workers.len() && (#[trigger] workers[at]).worker == worker
}

/// No worker is known twice.
pub open spec fn known_once(workers: Seq<PolicyQueueWorker>) -> bool {
    forall|i: int, j: int|
        0 <= i < j < workers.len() ==> (#[trigger] workers[i]).worker != (
        #[trigger] workers[j]).worker
}

/// The last report of each worker, in the order in which the workers first appear.
pub open spec fn latest_reports(workers: Seq<PolicyQueueWorker>) -> Seq<PolicyQueueWorker>
    decreases workers.len(),
{
    if workers.len() == 0 {
        Seq::empty()
    } else {
        let earlier = latest_reports(workers.drop_last());
        let report = workers.last();
        if is_known(earlier, report.worker) {
            earlier.update(worker_at(earlier, report.worker), report)
        } else {
            earlier.push(report)
        }
    }
}

/// Usage of a worker; none is zero.
pub open spec fn usage_at(usage: Map<WorkerWithDpRank, WorkerUsage>, worker: WorkerWithDpRank) -> WorkerUsage {
    if usage.contains_key(worker) {
        usage[worker]
    } else {
        WorkerUsage { used: 0, decayed: 0 }
    }
}

/// Usage with one more program on a worker.
pub open spec fn usage_with(
    usage: Map<WorkerWithDpRank, WorkerUsage>,
    worker: WorkerWithDpRank,
    name: Seq<char>,
    program: Program,
    decays: Map<Seq<char>, usize>,
    buffer: usize,
) -> Map<WorkerWithDpRank, WorkerUsage> {
    usage.insert(
        worker,
        usage_at(usage, worker).with_program(
            program.charged_tokens(),
            decayed_tokens(decays, name, program),
            buffer,
        ),
    )
}

/// Usage with one program on a worker less.
pub open spec fn usage_without(
    usage: Map<WorkerWithDpRank, WorkerUsage>,
    worker: WorkerWithDpRank,
    name: Seq<char>,
    program: Program,
    decays: Map<Seq<char>, usize>,
    buffer: usize,
) -> Map<WorkerWithDpRank, WorkerUsage> {
    usage.insert(
        worker,
        usage_at(usage, worker).without_program(
            program.charged_tokens(),
            decayed_tokens(decays, name, program),
            buffer,
        ),
    )
}

/// What running programs hold on their workers.
pub open spec fn usage_of(
    entries: Seq<ProgramEntry>,
    decays: Map<Seq<char>, usize>,
    buffer: usize,
) -> Map<WorkerWithDpRank, WorkerUsage>
    decreases entries.len(),
{
    if entries.len() == 0 {
        Map::empty()
    } else {
        let earlier = usage_of(entries.drop_last(), decays, buffer);
        let (name, program) = entries.last();
        match program.assigned_worker {
            Some(worker) if program.lifecycle == ProgramLifecycle::Active => usage_with(
                earlier,
                worker,
                name,
                program,
                decays,
                buffer,
            ),
            _ => earlier,
        }
    }
}

/// Whether a worker is available and its capacity known.
pub open spec fn is_open(worker: PolicyQueueWorker) -> bool {
    worker.available && worker.limits is Some
}

/// The open workers that can take a new program of the given size.
pub open spec fn admitting_workers(
    workers: Seq<PolicyQueueWorker>,
    usage: Map<WorkerWithDpRank, WorkerUsage>,
    required: usize,
) -> spec_fn(int) -> bool {
    |at: int|
        is_open(workers[at]) && usage_at(usage, workers[at].worker).used + required
            <= workers[at].limits->0.capacity
}

/// The less used of two workers; of two equally used ones the lower.
pub open spec fn less_used_worker(
    workers: Seq<PolicyQueueWorker>,
    usage: Map<WorkerWithDpRank, WorkerUsage>,
) -> spec_fn(int, int) -> bool {
    |a: int, b: int|
        {
            let left = usage_at(usage, workers[a].worker).used;
            let right = usage_at(usage, workers[b].worker).used;
            left < right || (left == right && workers[a].worker.is_before(workers[b].worker))
        }
}

/// The open workers that a forced program may go to.
pub open spec fn taking_workers(
    workers: Seq<PolicyQueueWorker>,
    assigned: Option<WorkerWithDpRank>,
) -> spec_fn(int) -> bool {
    |at: int| is_open(workers[at]) && may_go(assigned, workers[at].worker)
}

/// The worker with more capacity after decayed usage; of two equal ones the lower.
pub open spec fn more_spare_worker(
    workers: Seq<PolicyQueueWorker>,
    usage: Map<WorkerWithDpRank, WorkerUsage>,
) -> spec_fn(int, int) -> bool {
    |a: int, b: int|
        {
            let left = workers[a].limits->0.capacity - usage_at(usage, workers[a].worker).decayed;
            let right = workers[b].limits->0.capacity - usage_at(usage, workers[b].worker).decayed;
            left > right || (left == right && workers[a].worker.is_before(workers[b].worker))
        }
}

/// The worker at a picked position.
pub open spec fn picked_worker(
    workers: Seq<PolicyQueueWorker>,
    at: Option<int>,
) -> Option<WorkerWithDpRank> {
    match at {
        Some(at) => Some(workers[at].worker),
        None => None,
    }
}

/// The rooms on open workers, with more than the headroom of one program.
pub open spec fn open_rooms(
    workers: Seq<PolicyQueueWorker>,
    usage: Map<WorkerWithDpRank, WorkerUsage>,
    buffer: usize,
) -> Seq<Room>
    decreases workers.len(),
{
    if workers.len() == 0 {
        Seq::empty()
    } else {
        let earlier = open_rooms(workers.drop_last(), usage, buffer);
        let worker = workers.last();
        let available = worker.limits->0.resume_limit.saturating_sub(
            usage_at(usage, worker.worker).used,
        );
        if is_open(worker) && available > buffer {
            earlier.push(Room { worker: worker.worker, available })
        } else {
            earlier
        }
    }
}

/// The larger of two rooms; of two equal ones that on the lower worker.
pub open spec fn roomier(rooms: Seq<Room>) -> spec_fn(int, int) -> bool {
    |a: int, b: int|
        rooms[a].available > rooms[b].available || (rooms[a].available == rooms[b].available
            && rooms[a].worker.is_before(rooms[b].worker))
}

/// The largest room that a program fits in.
pub open spec fn roomiest(
    rooms: Seq<Room>,
    required: usize,
    assigned: Option<WorkerWithDpRank>,
) -> Option<int> {
    pick(rooms.len() as int, fitting_rooms(rooms, required, assigned), roomier(rooms))
}

/// Programs whose worker is gone.
pub open spec fn stranded(workers: Seq<PolicyQueueWorker>) -> Keys {
    |name: Seq<char>, program: Program|
        match program.assigned_worker {
            Some(worker) if !is_known(workers, worker) => Some((0, 0)),
            _ => None,
        }
}

/// Programs of sessions without requests that have acted for the retention time.
pub open spec fn outlived(sessions: Map<Seq<char>, QueueSession>, now: u64, retention: u64) -> Keys {
    |name: Seq<char>, program: Program|
        match program.acting_since {
            Some(since) if program.status == ProgramStatus::Acting && !sessions.contains_key(name)
                && now.saturating_sub(since) >= retention => Some((0, 0)),
            _ => None,
        }
}

/// Programs with a request after earlier turns, then those in their first turn, then those without
/// a request; the smallest first.
pub open spec fn resume_fairness() -> Keys {
    |name: Seq<char>, program: Program|
        if program.step_count <= 1 {
            Some((1, program.token_total as u64))
        } else if program.status == ProgramStatus::Reasoning {
            Some((0, program.token_total as u64))
        } else {
            Some((2, program.token_total as u64))
        }
}

/// Programs that have been deferred for the given time.
pub open spec fn overdue(now: u64, timeout: u64) -> Keys {
    |name: Seq<char>, program: Program|
        match program.deferred_since {
            Some(since) if now.saturating_sub(since) >= timeout => Some((0, 0)),
            _ => None,
        }
}

/// The ids of at most one request.
pub open spec fn one_id(id: Option<u64>) -> Seq<u64> {
    match id {
        Some(id) => seq![id],
        None => Seq::empty(),
    }
}

/// The state after programs ran again, with the requests that are ready now.
pub struct Resumption {
    pub model: QueueModel,
    pub usage: Map<WorkerWithDpRank, WorkerUsage>,
    pub ready: Seq<u64>,
}

impl QueueModel {
    pub open spec fn fresh(config: ThunderAgentConfig, now: u64) -> QueueModel {
        QueueModel {
            config,
            programs: Seq::empty(),
            paused: Seq::empty(),
            requests: Map::empty(),
            request_ids: Map::empty(),
            sessions: Map::empty(),
            workers: Seq::empty(),
            assignments: Map::empty(),
            next_tick: (now + config.scheduler_interval) as u128,
        }
    }

    pub open spec fn program(self, session: Seq<char>) -> Option<Program> {
        program_of(self.programs, session)
    }

    pub open spec fn with_programs(self, programs: Seq<ProgramEntry>) -> QueueModel {
        QueueModel { programs, ..self }
    }

    /// The assignments with a session's set.
    pub open spec fn with_assignment(self, session: Seq<char>, worker: Option<WorkerWithDpRank>) -> Map<
        Seq<char>,
        WorkerWithDpRank,
    > {
        match worker {
            Some(worker) => self.assignments.insert(session, worker),
            None => self.assignments.remove(session),
        }
    }

    /// A session is assigned to a worker, or to none.
    pub open spec fn assigned(self, session: Seq<char>, worker: Option<WorkerWithDpRank>) -> QueueModel {
        QueueModel {
            programs: match self.program(session) {
                Some(program) => with_program(
                    self.programs,
                    session,
                    Program { assigned_worker: worker, ..program },
                ),
                None => self.programs,
            },
            assignments: self.with_assignment(session, worker),
            ..self
        }
    }

    /// A session's program is paused and its deferral timed from now on.
    pub open spec fn deferred(self, session: Seq<char>, now: u64, keep_worker: bool) -> QueueModel {
        match self.program(session) {
            Some(program) => {
                let held = self.with_programs(
                    with_program(
                        self.programs,
                        session,
                        Program {
                            lifecycle: ProgramLifecycle::Paused,
                            deferred_since: Some(now),
                            ..program
                        },
                    ),
                );
                let placed = if keep_worker {
                    held
                } else {
                    held.assigned(session, None)
                };
                QueueModel { paused: with_item(self.paused, session), ..placed }
            },
            None => self,
        }
    }

    /// A session's program is paused if it is active and acting.
    pub open spec fn acting_paused(self, session: Seq<char>) -> QueueModel {
        match self.program(session) {
            Some(program) if program.lifecycle == ProgramLifecycle::Active && program.status
                == ProgramStatus::Acting => {
                let held = self.with_programs(
                    with_program(
                        self.programs,
                        session,
                        Program { lifecycle: ProgramLifecycle::Paused, ..program },
                    ),
                ).assigned(session, None);
                QueueModel { paused: with_item(self.paused, session), ..held }
            },
            _ => self,
        }
    }

    /// A paused program runs again on the given worker. A request that it deferred is ready.
    pub open spec fn resumed(self, session: Seq<char>, worker: Option<WorkerWithDpRank>) -> (
        QueueModel,
        Seq<u64>,
    ) {
        match self.program(session) {
            Some(program) if program.lifecycle == ProgramLifecycle::Paused => {
                let running = self.with_programs(
                    with_program(
                        self.programs,
                        session,
                        Program {
                            lifecycle: ProgramLifecycle::Active,
                            deferred_since: None,
                            ..program
                        },
                    ),
                ).assigned(session, worker);
                let deferred = if program.deferred_since is Some && self.sessions.contains_key(
                    session,
                ) {
                    self.sessions[session].current
                } else {
                    None
                };
                (
                    QueueModel { paused: without_item(self.paused, session), ..running },
                    one_id(deferred),
                )
            },
            _ => (self, Seq::empty()),
        }
    }

    /// Sessions are taken off their workers.
    pub open spec fn unassigned(self, order: Seq<Rank>) -> QueueModel
        decreases order.len(),
    {
        if order.len() == 0 {
            self
        } else {
            self.assigned(order[0].name, None).unassigned(order.drop_first())
        }
    }

    /// The workers are as reported, and programs leave workers that are gone.
    pub open spec fn workers_updated(self, workers: Seq<PolicyQueueWorker>) -> QueueModel {
        let seen = QueueModel { workers: latest_reports(workers), ..self };
        seen.unassigned(
            placed_order(entry_names(seen.programs), seen.programs, stranded(seen.workers)),
        )
    }

    /// A session's program leaves the table.
    pub open spec fn without(self, session: Seq<char>) -> QueueModel {
        QueueModel {
            programs: without_program(self.programs, session),
            paused: without_item(self.paused, session),
            assignments: self.assignments.remove(session),
            ..self
        }
    }

    /// Sessions' programs leave the table.
    pub open spec fn without_all(self, order: Seq<Rank>) -> QueueModel
        decreases order.len(),
    {
        if order.len() == 0 {
            self
        } else {
            self.without(order[0].name).without_all(order.drop_first())
        }
    }

    /// Programs leave the table when their retention has ended.
    pub open spec fn programs_expired(self, now: u64) -> QueueModel {
        self.without_all(
            placed_order(
                entry_names(self.programs),
                self.programs,
                outlived(self.sessions, now, self.config.session_retention),
            ),
        )
    }

    /// A request's turn begins in the program table.
    pub open spec fn begun(self, id: u64) -> QueueModel {
        let request = self.requests[id];
        let session = request.session;
        let prior = self.program(session);
        QueueModel {
            requests: self.requests.insert(id, QueueRequest { prior, ..request }),
            sessions: self.sessions.insert(
                session,
                QueueSession {
                    current: Some(id),
                    waiting: if self.sessions.contains_key(session) {
                        self.sessions[session].waiting
                    } else {
                        Seq::empty()
                    },
                },
            ),
            programs: with_program(
                self.programs,
                session,
                match prior {
                    Some(program) => program.next_turn(request.context_tokens),
                    None => Program::first_turn(request.context_tokens),
                },
            ),
            ..self
        }
    }

    /// Whether a worker is open.
    pub open spec fn has_open_worker(self) -> bool {
        exists|at: int| 0 <= at < self.workers.len() && is_open(#[trigger] self.workers[at])
    }

    /// The worker for a new program of the given size.
    pub open spec fn admission_worker(self, required: usize) -> Option<WorkerWithDpRank> {
        let usage = usage_of(self.programs, Map::empty(), self.config.buffer_per_program);
        picked_worker(
            self.workers,
            pick(
                self.workers.len() as int,
                admitting_workers(self.workers, usage, required),
                less_used_worker(self.workers, usage),
            ),
        )
    }

    /// A program without a worker is placed or deferred.
    pub open spec fn placed(self, session: Seq<char>, tokens: usize, was_new: bool, now: u64) -> (
        QueueModel,
        PolicyQueueDecision,
    ) {
        let required = tokens.saturating_add(self.config.buffer_per_program);
        if was_new && self.paused.len() > 0 {
            (self.deferred(session, now, false), PolicyQueueDecision::Defer)
        } else if !self.has_open_worker() {
            (self, PolicyQueueDecision::Ready)
        } else {
            match self.admission_worker(required) {
                Some(worker) => (self.assigned(session, Some(worker)), PolicyQueueDecision::Ready),
                None => (self.deferred(session, now, false), PolicyQueueDecision::Defer),
            }
        }
    }

    /// A request whose turn has begun is ready or deferred. A paused program stays paused. A
    /// running one stays on its worker and waits for it while it is not available; without a
    /// worker it is placed, but a new program does not overtake paused ones.
    pub open spec fn decided(self, id: u64, now: u64) -> (QueueModel, PolicyQueueDecision) {
        let request = self.requests[id];
        let session = request.session;
        let was_new = request.prior is None;
        match self.program(session) {
            None => (self, PolicyQueueDecision::Defer),
            Some(program) => if program.lifecycle == ProgramLifecycle::Paused {
                (self.deferred(session, now, false), PolicyQueueDecision::Defer)
            } else {
                match program.assigned_worker {
                    Some(worker) => if !is_known(self.workers, worker) {
                        self.assigned(session, None).placed(
                            session,
                            request.context_tokens,
                            was_new,
                            now,
                        )
                    } else if self.workers[worker_at(self.workers, worker)].available {
                        (self, PolicyQueueDecision::Ready)
                    } else {
                        (self.deferred(session, now, true), PolicyQueueDecision::Defer)
                    },
                    None => self.placed(session, request.context_tokens, was_new, now),
                }
            },
        }
    }

    /// A request has its turn.
    pub open spec fn turn_taken(self, id: u64, now: u64) -> (QueueModel, PolicyQueueDecision) {
        if self.requests.contains_key(id) {
            self.begun(id).decided(id, now)
        } else {
            (self, PolicyQueueDecision::Defer)
        }
    }

    /// Whether a session has a request whose turn it is.
    pub open spec fn is_busy(self, session: Seq<char>) -> bool {
        self.sessions.contains_key(session) && self.sessions[session].current is Some
    }

    /// A request is tracked.
    pub open spec fn noted(
        self,
        id: u64,
        request_id: Seq<char>,
        session: Seq<char>,
        context_tokens: usize,
    ) -> QueueModel {
        QueueModel {
            requests: self.requests.insert(
                id,
                QueueRequest { request_id, session, context_tokens, dispatched: false, prior: None },
            ),
            request_ids: self.request_ids.insert(request_id, id),
            ..self
        }
    }

    /// A request waits behind the one whose turn it is.
    pub open spec fn queued(self, id: u64, session: Seq<char>) -> QueueModel {
        QueueModel {
            sessions: self.sessions.insert(
                session,
                QueueSession {
                    waiting: with_item(self.sessions[session].waiting, id),
                    ..self.sessions[session]
                },
            ),
            ..self
        }
    }

    /// A request arrives. Requests without a session and those under a request id in use are let
    /// through; the requests of one session have their turns one after the other.
    pub open spec fn admitted(
        self,
        id: u64,
        request_id: Seq<char>,
        session: Option<Seq<char>>,
        context_tokens: usize,
        workers: Seq<PolicyQueueWorker>,
        now: u64,
    ) -> (QueueModel, PolicyQueueDecision) {
        match session {
            Some(session) if !self.request_ids.contains_key(request_id) => {
                let noted = self.workers_updated(workers).noted(
                    id,
                    request_id,
                    session,
                    context_tokens,
                );
                if self.is_busy(session) {
                    (noted.queued(id, session), PolicyQueueDecision::Defer)
                } else {
                    noted.turn_taken(id, now)
                }
            },
            _ => (self, PolicyQueueDecision::Bypass),
        }
    }

    /// A request was dispatched to a worker, which becomes its program's worker.
    pub open spec fn dispatched(self, id: u64, worker: WorkerWithDpRank) -> QueueModel {
        if self.requests.contains_key(id) && self.is_current(id) {
            QueueModel {
                requests: self.requests.insert(
                    id,
                    QueueRequest { dispatched: true, ..self.requests[id] },
                ),
                ..self
            }.assigned(self.requests[id].session, Some(worker))
        } else {
            self
        }
    }

    /// Whether it is a tracked request's turn.
    pub open spec fn is_current(self, id: u64) -> bool {
        let session = self.requests[id].session;
        self.sessions.contains_key(session) && self.sessions[session].current == Some(id)
    }

    /// A turn ends in the program table: a completed one of a dispatched request is recorded, any
    /// other is rolled back.
    pub open spec fn settled(
        self,
        request: QueueRequest,
        completed: bool,
        context_tokens: Option<usize>,
        acting_tokens: usize,
        now: u64,
    ) -> QueueModel {
        let session = request.session;
        if !request.dispatched || !completed {
            match request.prior {
                Some(prior) => QueueModel {
                    programs: with_program(self.programs, session, prior),
                    assignments: self.with_assignment(session, prior.assigned_worker),
                    paused: if prior.lifecycle == ProgramLifecycle::Paused {
                        with_item(self.paused, session)
                    } else {
                        without_item(self.paused, session)
                    },
                    ..self
                },
                None => self.without(session),
            }
        } else {
            match self.program(session) {
                Some(program) => {
                    let total = match context_tokens {
                        Some(tokens) => tokens,
                        None => request.context_tokens,
                    };
                    let done = self.with_programs(
                        with_program(
                            self.programs,
                            session,
                            program.turn_done(total, acting_tokens, now),
                        ),
                    );
                    if program.marked_for_pause {
                        done.acting_paused(session)
                    } else {
                        done
                    }
                },
                None => self,
            }
        }
    }

    /// The session's next request has its turn, and is ready if nothing holds it back; a session
    /// without requests is forgotten.
    pub open spec fn promoted(self, session: Seq<char>, now: u64) -> (QueueModel, Seq<u64>) {
        if self.sessions.contains_key(session) && self.sessions[session].waiting.len() > 0 {
            let id = self.sessions[session].waiting[0];
            let (after, decision) = QueueModel {
                sessions: self.sessions.insert(
                    session,
                    QueueSession {
                        waiting: self.sessions[session].waiting.remove(0),
                        ..self.sessions[session]
                    },
                ),
                ..self
            }.turn_taken(id, now);
            (
                after,
                if decision == PolicyQueueDecision::Ready {
                    seq![id]
                } else {
                    Seq::empty()
                },
            )
        } else {
            (QueueModel { sessions: self.sessions.remove(session), ..self }, Seq::empty())
        }
    }

    /// A request whose turn it is steps back.
    pub open spec fn vacated(self, session: Seq<char>) -> QueueModel {
        QueueModel {
            sessions: self.sessions.insert(
                session,
                QueueSession { current: None, ..self.sessions[session] },
            ),
            programs: match self.program(session) {
                Some(program) => with_program(
                    self.programs,
                    session,
                    Program { deferred_since: None, ..program },
                ),
                None => self.programs,
            },
            ..self
        }
    }

    /// A waiting request leaves its session's queue.
    pub open spec fn unqueued(self, id: u64, session: Seq<char>) -> QueueModel {
        if self.sessions.contains_key(session) {
            QueueModel {
                sessions: self.sessions.insert(
                    session,
                    QueueSession {
                        waiting: without_item(self.sessions[session].waiting, id),
                        ..self.sessions[session]
                    },
                ),
                ..self
            }
        } else {
            self
        }
    }

    /// A tracked request ends. Also which requests are ready now.
    pub open spec fn finished(
        self,
        request_id: Seq<char>,
        completed: bool,
        context_tokens: Option<usize>,
        acting_tokens: usize,
        now: u64,
    ) -> (QueueModel, Seq<u64>) {
        if !self.request_ids.contains_key(request_id) {
            (self, Seq::empty())
        } else {
            let id = self.request_ids[request_id];
            let released = QueueModel { request_ids: self.request_ids.remove(request_id), ..self };
            if !self.requests.contains_key(id) {
                (released, Seq::empty())
            } else {
                let request = self.requests[id];
                let left = QueueModel { requests: self.requests.remove(id), ..released };
                if !self.is_current(id) {
                    (left.unqueued(id, request.session), Seq::empty())
                } else {
                    left.vacated(request.session).settled(
                        request,
                        completed,
                        context_tokens,
                        acting_tokens,
                        now,
                    ).promoted(request.session, now)
                }
            }
        }
    }

    /// Programs are packed into rooms in the given order, each into the largest that it fits in.
    pub open spec fn packed(
        self,
        rooms: Seq<Room>,
        decays: Map<Seq<char>, usize>,
        usage: Map<WorkerWithDpRank, WorkerUsage>,
        order: Seq<Rank>,
    ) -> Resumption
        decreases order.len(),
    {
        if order.len() == 0 {
            Resumption { model: self, usage, ready: Seq::empty() }
        } else {
            let name = order[0].name;
            let rest = order.drop_first();
            let buffer = self.config.buffer_per_program;
            match self.program(name) {
                None => self.packed(rooms, decays, usage, rest),
                Some(program) => {
                    let required = program.token_total.saturating_add(buffer);
                    match roomiest(rooms, required, program.assigned_worker) {
                        None => self.packed(rooms, decays, usage, rest),
                        Some(at) => {
                            let room = rooms[at];
                            let (after, ready) = self.resumed(name, Some(room.worker));
                            let left = (room.available - required) as usize;
                            let later = after.packed(
                                rooms.update(at, Room { available: left, ..room }),
                                decays,
                                after.usage_resumed(usage, room.worker, name, decays),
                                rest,
                            );
                            Resumption { ready: ready + later.ready, ..later }
                        },
                    }
                },
            }
        }
    }

    /// Usage with a resumed program on its worker.
    pub open spec fn usage_resumed(
        self,
        usage: Map<WorkerWithDpRank, WorkerUsage>,
        worker: WorkerWithDpRank,
        name: Seq<char>,
        decays: Map<Seq<char>, usize>,
    ) -> Map<WorkerWithDpRank, WorkerUsage> {
        match self.program(name) {
            Some(program) => usage_with(
                usage,
                worker,
                name,
                program,
                decays,
                self.config.buffer_per_program,
            ),
            None => usage,
        }
    }

    /// Paused programs resume in fairness order as far as there is room.
    pub open spec fn programs_resumed(
        self,
        decays: Map<Seq<char>, usize>,
        usage: Map<WorkerWithDpRank, WorkerUsage>,
    ) -> Resumption {
        self.packed(
            open_rooms(self.workers, usage, self.config.buffer_per_program),
            decays,
            usage,
            placed_order(self.paused, self.programs, resume_fairness()),
        )
    }

    /// Whether some worker is available.
    pub open spec fn any_available(self) -> bool {
        exists|at: int| 0 <= at < self.workers.len() && (#[trigger] self.workers[at]).available
    }

    /// Programs are forced to run, each on the open worker with the most capacity after decayed
    /// usage.
    pub open spec fn forced(
        self,
        decays: Map<Seq<char>, usize>,
        usage: Map<WorkerWithDpRank, WorkerUsage>,
        order: Seq<Rank>,
    ) -> Resumption
        decreases order.len(),
    {
        if order.len() == 0 {
            Resumption { model: self, usage, ready: Seq::empty() }
        } else {
            let name = order[0].name;
            let rest = order.drop_first();
            match self.program(name) {
                None => self.forced(decays, usage, rest),
                Some(program) => {
                    let target = picked_worker(
                        self.workers,
                        pick(
                            self.workers.len() as int,
                            taking_workers(self.workers, program.assigned_worker),
                            more_spare_worker(self.workers, usage),
                        ),
                    );
                    if target is None && !self.any_available() {
                        self.forced(decays, usage, rest)
                    } else {
                        let (after, ready) = self.resumed(name, target);
                        let later = after.forced(
                            decays,
                            match target {
                                Some(worker) => after.usage_resumed(usage, worker, name, decays),
                                None => usage,
                            },
                            rest,
                        );
                        Resumption { ready: ready + later.ready, ..later }
                    }
                },
            }
        }
    }

    /// Acting programs are paused in the given order until the worker's usage reaches the goal.
    pub open spec fn drained(
        self,
        worker: WorkerWithDpRank,
        goal: usize,
        decays: Map<Seq<char>, usize>,
        usage: Map<WorkerWithDpRank, WorkerUsage>,
        order: Seq<Rank>,
    ) -> (QueueModel, Map<WorkerWithDpRank, WorkerUsage>)
        decreases order.len(),
    {
        if order.len() == 0 || usage_at(usage, worker).used <= goal {
            (self, usage)
        } else {
            let name = order[0].name;
            let rest = order.drop_first();
            match self.program(name) {
                None => self.drained(worker, goal, decays, usage, rest),
                Some(program) => self.acting_paused(name).drained(
                    worker,
                    goal,
                    decays,
                    usage_without(
                        usage,
                        worker,
                        name,
                        program,
                        decays,
                        self.config.buffer_per_program,
                    ),
                    rest,
                ),
            }
        }
    }

    /// Programs are marked to pause after their turn.
    pub open spec fn marked(self, order: Seq<Rank>) -> QueueModel
        decreases order.len(),
    {
        if order.len() == 0 {
            self
        } else {
            let name = order[0].name;
            let here = match self.program(name) {
                Some(program) => self.with_programs(
                    with_program(
                        self.programs,
                        name,
                        Program { marked_for_pause: true, ..program },
                    ),
                ),
                None => self,
            };
            here.marked(order.drop_first())
        }
    }

    /// One worker is relieved: above its pause limit acting programs are paused, the smallest
    /// first, until its usage reaches the pause goal; where that is not enough, reasoning programs
    /// are marked to pause after their turn.
    pub open spec fn relieved(
        self,
        worker: PolicyQueueWorker,
        decays: Map<Seq<char>, usize>,
        usage: Map<WorkerWithDpRank, WorkerUsage>,
    ) -> (QueueModel, Map<WorkerWithDpRank, WorkerUsage>) {
        let limits = worker.limits->0;
        if !is_open(worker) || usage_at(usage, worker.worker).used <= limits.pause_limit {
            (self, usage)
        } else {
            let names = entry_names(self.programs);
            let acting = placed_order(
                names,
                self.programs,
                on_worker(worker.worker, ProgramStatus::Acting),
            );
            let reasoning = placed_order(
                names,
                self.programs,
                on_worker(worker.worker, ProgramStatus::Reasoning),
            );
            let (drained, left) = self.drained(
                worker.worker,
                limits.pause_goal,
                decays,
                usage,
                acting,
            );
            if usage_at(left, worker.worker).used <= limits.pause_goal {
                (drained, left)
            } else {
                (drained.marked(reasoning), left)
            }
        }
    }

    /// Workers are relieved one after the other.
    pub open spec fn all_relieved(
        self,
        workers: Seq<PolicyQueueWorker>,
        decays: Map<Seq<char>, usize>,
        usage: Map<WorkerWithDpRank, WorkerUsage>,
    ) -> QueueModel
        decreases workers.len(),
    {
        if workers.len() == 0 {
            self
        } else {
            let (here, left) = self.relieved(workers[0], decays, usage);
            here.all_relieved(workers.drop_first(), decays, left)
        }
    }

    /// The periodic step, once it is due: retention ends, paused programs resume or are forced to,
    /// and overloaded workers are relieved. Also which requests are ready now.
    pub open spec fn reconciled(
        self,
        workers: Seq<PolicyQueueWorker>,
        decays: Map<Seq<char>, usize>,
        now: u64,
    ) -> (QueueModel, Seq<u64>) {
        let seen = self.workers_updated(workers);
        if now < self.next_tick {
            (seen, Seq::empty())
        } else {
            let kept = QueueModel {
                next_tick: (now + self.config.scheduler_interval) as u128,
                ..seen
            }.programs_expired(now);
            let usage = usage_of(kept.programs, decays, kept.config.buffer_per_program);
            let resumption = kept.programs_resumed(decays, usage);
            let late = placed_order(
                resumption.model.paused,
                resumption.model.programs,
                overdue(now, resumption.model.config.resume_timeout),
            );
            let forced = resumption.model.forced(decays, resumption.usage, late);
            (
                forced.model.all_relieved(forced.model.workers, decays, forced.usage),
                resumption.ready + forced.ready,
            )
        }
    }
}

} // verus!
