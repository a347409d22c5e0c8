//! What the scheduler's state is and what each step makes of it.
use vstd::prelude::*;

use crate::ranking::Rank;
use crate::thunderagent::capacity::Capacities;
use crate::thunderagent::config::ThunderAgentConfig;
use crate::thunderagent::error::Refusal;
use crate::thunderagent::ledger::Ledger;
use crate::thunderagent::order::Keys;
use crate::thunderagent::placement::{
    best_room, decayed_more, decayed_tokens, forced_target, largest_first, running, timed_out, Room,
};
use crate::thunderagent::program::{Program, ProgramLifecycle, ProgramStatus};
use crate::thunderagent::relief::on_removed_worker;
use crate::worker::WorkerWithDpRank;

verus! {

/// Whether a tracked request still waits for its release.
#[derive(Clone, Copy, Debug, PartialEq, Eq, Structural)]
pub enum RequestPhase {
    Waiting,
    Released,
}

/// How a request ended.
///
/// `acting_tokens` is the completed context, weighted for tool work by the host.
#[derive(Clone, Copy, Debug, PartialEq, Eq, Structural)]
pub enum Outcome {
    Completed { context_tokens: Option<usize>, acting_tokens: usize },
    Aborted,
}

/// What a waiter finds when it looks for its request.
#[derive(Clone, Copy, Debug, PartialEq, Eq, Structural)]
pub enum WaitStatus {
    Waiting,
    Released,
    Missing,
}

/// A tracked request.
pub struct Request {
    pub session: Seq<char>,
    pub input_tokens: usize,
    pub session_final: bool,
    pub phase: RequestPhase,
    /// The session's program before this request began.
    pub prior: Option<Program>,
    /// Whether the request has begun its turn in the program table.
    pub began: bool,
    /// The worker that the request was released for.
    pub target: Option<WorkerWithDpRank>,
}

/// The requests of one session: the released one, and those that wait in order of arrival. Some of
/// the waiting ids may be stale.
#[verifier::ext_equal]
pub struct Session {
    pub current: Option<Seq<char>>,
    pub waiting: Seq<Seq<char>>,
    pub stale: usize,
}

/// The scheduler's state.
#[verifier::ext_equal]
pub struct Model {
    pub config: ThunderAgentConfig,
    pub ledger: Ledger,
    pub requests: Map<Seq<char>, Request>,
    pub sessions: Map<Seq<char>, Session>,
    /// Request ids in order of arrival. Those that no longer wait may linger.
    pub arrivals: Seq<Seq<char>>,
    /// The waiting request whose waiter keeps the reconcile timer.
    pub timer_owner: Option<Seq<char>>,
    pub next_reconcile_at: u128,
    pub next_retention_expiry: Option<u128>,
    pub snapshot_id: Option<u64>,
    /// The requests whose waiters are to look again.
    pub wakeups: Seq<Seq<char>>,
}

/// A queue without the leading names that are not in `kept`.
pub open spec fn drop_leading(queue: Seq<Seq<char>>, kept: Set<Seq<char>>) -> Seq<Seq<char>>
    decreases queue.len(),
{
    if queue.len() == 0 || kept.contains(queue[0]) {
        queue
    } else {
        drop_leading(queue.drop_first(), kept)
    }
}

/// The names of a queue that are in `kept`.
pub open spec fn only(queue: Seq<Seq<char>>, kept: Set<Seq<char>>) -> Seq<Seq<char>> {
    queue.filter(|name: Seq<char>| kept.contains(name))
}

/// The worker of a release: the given one, or else the program's own.
pub open spec fn release_target(
    worker: Option<WorkerWithDpRank>,
    assigned: Option<WorkerWithDpRank>,
) -> Option<WorkerWithDpRank> {
    match worker {
        Some(worker) => Some(worker),
        None => assigned,
    }
}

impl Session {
    pub open spec fn fresh() -> Session {
        Session { current: None, waiting: Seq::empty(), stale: 0 }
    }

    pub open spec fn is_empty(self) -> bool {
        self.current is None && self.waiting.len() == 0
    }

    /// The session without leading stale ids; and without any where stale ids are many and make
    /// up half of the queue.
    pub open spec fn compacted(self, waiting: Set<Seq<char>>) -> Session {
        let rest = drop_leading(self.waiting, waiting);
        let dropped = self.waiting.len() - rest.len();
        let stale: usize = if self.stale > dropped {
            (self.stale - dropped) as usize
        } else {
            0
        };
        if stale >= 8 && stale * 2 >= rest.len() {
            Session { waiting: only(rest, waiting), stale: 0, ..self }
        } else {
            Session { waiting: rest, stale, ..self }
        }
    }
}

/// Since when a session has been idle between turns.
pub open spec fn idle_since(
    sessions: Map<Seq<char>, Session>,
    name: Seq<char>,
    program: Program,
) -> Option<u64> {
    if sessions.contains_key(name) && !sessions[name].is_empty() {
        None
    } else if program.status != ProgramStatus::Acting {
        None
    } else {
        program.acting_since
    }
}

/// Idle programs whose retention has ended.
pub open spec fn expired(sessions: Map<Seq<char>, Session>, now: u64, retention: u64) -> Keys {
    |name: Seq<char>, program: Program|
        match idle_since(sessions, name, program) {
            Some(since) if now >= since + retention => Some((0, 0)),
            _ => None,
        }
}

/// Idle programs that are still retained, by the time since when they are idle.
pub open spec fn retained(sessions: Map<Seq<char>, Session>, now: u64, retention: u64) -> Keys {
    |name: Seq<char>, program: Program|
        match idle_since(sessions, name, program) {
            Some(since) if now < since + retention => Some((since, 0)),
            _ => None,
        }
}

/// Programs of sessions without requests, those that acted last the longest ago first.
pub open spec fn evictable(sessions: Map<Seq<char>, Session>) -> Keys {
    |name: Seq<char>, program: Program|
        if sessions.contains_key(name) {
            None
        } else {
            match program.acting_since {
                Some(since) => Some((1, since)),
                None => Some((0, 0)),
            }
        }
}

/// The ledger after programs are resumed, and what is left.
pub struct Packing {
    pub model: Model,
    pub decayed: Map<WorkerWithDpRank, usize>,
    pub changed: bool,
}

impl Model {
    pub open spec fn fresh(config: ThunderAgentConfig, now: u64) -> Model {
        Model {
            config,
            ledger: Ledger {
                buffer: config.buffer_per_program,
                programs: Map::empty(),
                usage: Map::empty(),
            },
            requests: Map::empty(),
            sessions: Map::empty(),
            arrivals: Seq::empty(),
            timer_owner: None,
            next_reconcile_at: (now + config.scheduler_interval) as u128,
            next_retention_expiry: None,
            snapshot_id: None,
            wakeups: Seq::empty(),
        }
    }

    pub open spec fn is_waiting(self, id: Seq<char>) -> bool {
        self.requests.contains_key(id) && self.requests[id].phase == RequestPhase::Waiting
    }

    pub open spec fn wait_status(self, id: Seq<char>) -> WaitStatus {
        if !self.requests.contains_key(id) {
            WaitStatus::Missing
        } else if self.requests[id].phase == RequestPhase::Waiting {
            WaitStatus::Waiting
        } else {
            WaitStatus::Released
        }
    }

    /// The requests that wait for their release.
    pub open spec fn waiting(self) -> Set<Seq<char>> {
        Set::new(|id: Seq<char>| self.is_waiting(id))
    }

    /// Whether a session has no released request and the given request is its next one.
    pub open spec fn front_and_idle(self, id: Seq<char>, session: Seq<char>) -> bool {
        &&& self.sessions.contains_key(session)
        &&& self.sessions[session].current is None
        &&& self.sessions[session].waiting.len() > 0
        &&& self.sessions[session].waiting[0] == id
    }

    /// Whether a request waits and nothing of its session is ahead of it.
    pub open spec fn is_next(self, id: Seq<char>) -> bool {
        self.is_waiting(id) && self.front_and_idle(id, self.requests[id].session)
    }

    /// The request that a session without a released one turns to.
    pub open spec fn pending(self, session: Seq<char>) -> Option<Seq<char>> {
        if self.sessions.contains_key(session) && self.sessions[session].current is None
            && self.sessions[session].waiting.len() > 0 {
            Some(self.sessions[session].waiting[0])
        } else {
            None
        }
    }

    pub open spec fn with_ledger(self, ledger: Ledger) -> Model {
        Model { ledger, ..self }
    }

    pub open spec fn woken(self, id: Seq<char>) -> Model {
        Model { wakeups: self.wakeups.push(id), ..self }
    }

    /// A request has stopped waiting: where it kept the timer, the next waiting request takes it
    /// over and its waiter is woken.
    pub open spec fn timer_passed(self, id: Seq<char>) -> Model {
        if self.timer_owner != Some(id) {
            self
        } else {
            let arrivals = drop_leading(self.arrivals, self.waiting());
            if arrivals.len() == 0 {
                Model { arrivals, timer_owner: None, ..self }
            } else {
                Model { arrivals, timer_owner: Some(arrivals[0]), ..self }.woken(arrivals[0])
            }
        }
    }

    /// Reconcile as soon as possible, if anyone waits.
    pub open spec fn reconcile_requested(self, now: u64) -> Model {
        match self.timer_owner {
            Some(owner) => {
                let sooner = Model { next_reconcile_at: now as u128, ..self };
                if self.requests.contains_key(owner) {
                    sooner.woken(owner)
                } else {
                    sooner
                }
            },
            None => self,
        }
    }

    /// The arrival order without stale ids, once these outnumber the waiting ones by far.
    pub open spec fn arrivals_compacted(self) -> Model {
        if self.arrivals.len() <= 2 * self.waiting().len() + 256 {
            self
        } else {
            Model { arrivals: only(self.arrivals, self.waiting()), ..self }
        }
    }

    /// Programs leave the table when their retention has ended. Also whether any did.
    pub open spec fn programs_expired(self, now: u64) -> (Model, bool) {
        let due = self.next_retention_expiry matches Some(at) && now >= at;
        if !due {
            (self, false)
        } else {
            let retention = self.config.session_retention;
            let gone = self.ledger.order_by(expired(self.sessions, now, retention));
            let next = self.ledger.first_by(retained(self.sessions, now, retention));
            (
                Model {
                    ledger: self.ledger.without_all(gone),
                    next_retention_expiry: match next {
                        Some(first) => Some((first.major + retention) as u128),
                        None => None,
                    },
                    ..self
                },
                gone.len() > 0,
            )
        }
    }

    /// The retention of an idle session's program ends in time.
    pub open spec fn retention_scheduled(self, session: Seq<char>) -> Model {
        if self.sessions.contains_key(session) || !self.ledger.programs.contains_key(session) {
            self
        } else {
            let program = self.ledger.programs[session];
            match program.acting_since {
                Some(since) if program.status == ProgramStatus::Acting => {
                    let deadline = (since + self.config.session_retention) as u128;
                    Model {
                        next_retention_expiry: match self.next_retention_expiry {
                            Some(at) if at <= deadline => Some(at),
                            _ => Some(deadline),
                        },
                        ..self
                    }
                },
                _ => self,
            }
        }
    }

    /// Whether the table has room for a session's program.
    pub open spec fn has_room(self, session: Seq<char>) -> bool {
        self.ledger.programs.contains_key(session) || self.ledger.programs.len()
            < self.config.max_tracked_requests
    }

    /// The program that makes room for another session: the longest idle one.
    pub open spec fn evicted(self) -> Option<Rank> {
        self.ledger.first_by(evictable(self.sessions))
    }

    /// The table with room for a session's program, where there can be.
    pub open spec fn room_made(self, session: Seq<char>) -> Model {
        if self.has_room(session) {
            self
        } else {
            match self.evicted() {
                Some(first) => self.with_ledger(self.ledger.without(first.name)),
                None => self,
            }
        }
    }

    /// Whether there is or can be room for a session's program.
    pub open spec fn can_have_room(self, session: Seq<char>) -> bool {
        self.has_room(session) || self.evicted() is Some
    }

    /// Programs leave workers that are gone, once per snapshot. Also whether any did.
    pub open spec fn removed_cleared(self, capacities: Capacities) -> (Model, bool) {
        if self.snapshot_id == Some(capacities.id) {
            (self, false)
        } else {
            let seen = Model { snapshot_id: Some(capacities.id), ..self };
            if capacities.cards.len() == 0 && capacities.live is None {
                (seen, false)
            } else {
                let gone = self.ledger.order_by(on_removed_worker(capacities));
                (seen.with_ledger(self.ledger.unassigned(gone)), gone.len() > 0)
            }
        }
    }

    /// A session's program is paused and its deferral timed from now on, if it was not before.
    pub open spec fn deferred(self, session: Seq<char>, now: u64, keep_worker: bool) -> (Model, bool) {
        if !self.ledger.programs.contains_key(session) {
            (self, false)
        } else {
            let program = self.ledger.programs[session];
            let deferred = Program {
                lifecycle: ProgramLifecycle::Paused,
                deferred_since: match program.deferred_since {
                    Some(since) => Some(since),
                    None => Some(now),
                },
                assigned_worker: if keep_worker {
                    program.assigned_worker
                } else {
                    None
                },
                ..program
            };
            (self.with_ledger(self.ledger.with(session, deferred)), deferred != program)
        }
    }

    /// Whether a request can be released now.
    pub open spec fn can_release(self, id: Seq<char>) -> bool {
        self.is_next(id) && self.requests[id].began && self.ledger.programs.contains_key(
            self.requests[id].session,
        )
    }

    /// A released request is its session's current one and its program runs; the program of a
    /// final request leaves the table. The worker is the request's target, and its program's once
    /// the request is sent.
    pub open spec fn let_go(self, id: Seq<char>, worker: Option<WorkerWithDpRank>) -> Model {
        let request = self.requests[id];
        let session = self.sessions[request.session];
        let program = self.ledger.programs[request.session];
        let running = Program {
            lifecycle: ProgramLifecycle::Active,
            deferred_since: None,
            ..program
        };
        Model {
            ledger: if request.session_final {
                self.ledger.without(request.session)
            } else {
                self.ledger.with(request.session, running)
            },
            requests: self.requests.insert(
                id,
                Request {
                    phase: RequestPhase::Released,
                    target: release_target(worker, program.assigned_worker),
                    ..request
                },
            ),
            sessions: self.sessions.insert(
                request.session,
                Session { current: Some(id), waiting: session.waiting.drop_first(), ..session },
            ),
            ..self
        }
    }

    /// A request is released and its waiter woken.
    pub open spec fn released(self, id: Seq<char>, worker: Option<WorkerWithDpRank>) -> (Model, bool) {
        if self.can_release(id) {
            (self.let_go(id, worker).timer_passed(id).woken(id), true)
        } else {
            (self, false)
        }
    }

    /// Whether a request's turn has begun or can begin.
    pub open spec fn can_begin(self, id: Seq<char>) -> bool {
        self.requests[id].began || self.can_have_room(self.requests[id].session)
    }

    /// A request's turn begins in the program table.
    pub open spec fn begun(self, id: Seq<char>) -> Model {
        let request = self.requests[id];
        if request.began {
            self
        } else {
            let roomy = self.room_made(request.session);
            let programs = roomy.ledger.programs;
            let known = programs.contains_key(request.session);
            Model {
                ledger: roomy.ledger.with(
                    request.session,
                    if known {
                        programs[request.session].next_turn(request.input_tokens)
                    } else {
                        Program::first_turn(request.input_tokens)
                    },
                ),
                requests: self.requests.insert(
                    id,
                    Request {
                        prior: if known {
                            Some(programs[request.session])
                        } else {
                            None
                        },
                        began: true,
                        ..request
                    },
                ),
                ..self
            }
        }
    }

    /// A request whose turn has begun is released or deferred. A paused program stays paused. A
    /// running one keeps its live worker; otherwise the least used live worker with room for the
    /// request takes it, but a new program does not overtake paused ones. Without known capacity
    /// nothing is held back.
    pub open spec fn decided(self, id: Seq<char>, capacities: Capacities, now: u64) -> (Model, bool) {
        let request = self.requests[id];
        let session = request.session;
        if !self.ledger.programs.contains_key(session) {
            (self, false)
        } else {
            let program = self.ledger.programs[session];
            let live = program.assigned_worker matches Some(worker) && capacities.is_live(worker);
            if program.lifecycle == ProgramLifecycle::Paused {
                self.deferred(session, now, program.assigned_worker is Some)
            } else if !capacities.has_usable_capacity() {
                self.released(
                    id,
                    if live {
                        program.assigned_worker
                    } else {
                        None
                    },
                )
            } else if live {
                self.released(id, program.assigned_worker)
            } else {
                let stranded = program.assigned_worker is Some;
                let free = self.with_ledger(
                    if stranded {
                        self.ledger.assigned(session, None)
                    } else {
                        self.ledger
                    },
                );
                let required = request.input_tokens.saturating_add(self.config.buffer_per_program);
                let choice = free.ledger.admission_worker(capacities, required);
                let (after, changed) = if request.prior is None && !free.ledger.paused().is_empty()
                    || choice is None {
                    free.deferred(session, now, false)
                } else {
                    free.released(id, choice)
                };
                (after, changed || stranded)
            }
        }
    }

    /// A waiting request whose turn it is is released or deferred.
    pub open spec fn admitted(self, id: Seq<char>, capacities: Capacities, now: u64) -> (
        Model,
        bool,
    ) {
        if !self.is_next(id) || !self.can_begin(id) {
            (self, false)
        } else {
            self.begun(id).decided(id, capacities, now)
        }
    }

    /// Requests are admitted one after the other.
    pub open spec fn all_admitted(self, ids: Seq<Seq<char>>, capacities: Capacities, now: u64) -> (
        Model,
        bool,
    )
        decreases ids.len(),
    {
        if ids.len() == 0 {
            (self, false)
        } else {
            let (here, changed) = self.admitted(ids[0], capacities, now);
            let after = here.all_admitted(ids.drop_first(), capacities, now);
            (after.0, changed || after.1)
        }
    }

    /// Every request whose turn it is, in order of arrival.
    pub open spec fn candidates(self) -> Seq<Seq<char>> {
        self.arrivals.filter(|id: Seq<char>| self.is_next(id))
    }

    /// A paused program runs again on the given worker, and its waiting request is released.
    pub open spec fn resumed(self, session: Seq<char>, worker: Option<WorkerWithDpRank>) -> (
        Model,
        bool,
    ) {
        if !self.ledger.programs.contains_key(session) || self.ledger.programs[session].lifecycle
            != ProgramLifecycle::Paused {
            (self, false)
        } else {
            let running = self.with_ledger(
                self.ledger.with(
                    session,
                    Program {
                        lifecycle: ProgramLifecycle::Active,
                        deferred_since: None,
                        assigned_worker: worker,
                        ..self.ledger.programs[session]
                    },
                ),
            );
            match self.pending(session) {
                Some(id) => (running.released(id, worker).0, true),
                None => (running, true),
            }
        }
    }

    /// Programs are packed into rooms in the given order, each into the tightest that it fits in.
    pub open spec fn packed(
        self,
        rooms: Seq<Room>,
        decays: Map<Seq<char>, usize>,
        decayed: Map<WorkerWithDpRank, usize>,
        order: Seq<Rank>,
    ) -> Packing
        decreases order.len(),
    {
        if order.len() == 0 {
            Packing { model: self, decayed, changed: false }
        } else {
            let name = order[0].name;
            let rest = order.drop_first();
            let seat = if self.ledger.programs.contains_key(name) {
                best_room(
                    rooms,
                    self.ledger.required(name),
                    self.ledger.programs[name].assigned_worker,
                )
            } else {
                None
            };
            match seat {
                None => self.packed(rooms, decays, decayed, rest),
                Some(at) => {
                    let room = rooms[at];
                    let (after, changed) = self.resumed(name, Some(room.worker));
                    if !changed || !after.ledger.programs.contains_key(name) {
                        let later = after.packed(rooms, decays, decayed, rest);
                        Packing { changed: changed || later.changed, ..later }
                    } else {
                        let left = (room.available - self.ledger.required(name)) as usize;
                        let tokens = decayed_tokens(decays, name, after.ledger.programs[name]);
                        let later = after.packed(
                            rooms.update(at, Room { available: left, ..room }),
                            decays,
                            decayed_more(decayed, room.worker, tokens, self.ledger.buffer),
                            rest,
                        );
                        Packing { changed: true, ..later }
                    }
                },
            }
        }
    }

    /// Paused programs resume: the longest prefix of the fairness order that fits into all rooms
    /// taken together is packed into the rooms, the largest program first.
    pub open spec fn programs_resumed(
        self,
        capacities: Capacities,
        decays: Map<Seq<char>, usize>,
        decayed: Map<WorkerWithDpRank, usize>,
    ) -> Packing {
        let rooms = self.ledger.rooms(capacities, capacities.cards.len());
        let chosen = self.ledger.resumable(rooms);
        self.packed(rooms, decays, decayed, self.ledger.order_by(largest_first(chosen)))
    }

    /// Programs are forced to run, each on the worker with the most capacity after decayed usage.
    pub open spec fn forced(
        self,
        capacities: Capacities,
        decays: Map<Seq<char>, usize>,
        decayed: Map<WorkerWithDpRank, usize>,
        order: Seq<Rank>,
    ) -> (Model, bool)
        decreases order.len(),
    {
        if order.len() == 0 {
            (self, false)
        } else {
            let name = order[0].name;
            let rest = order.drop_first();
            let known = self.ledger.programs.contains_key(name);
            let target = forced_target(
                capacities,
                decayed,
                self.ledger.programs[name].assigned_worker,
            );
            if !known || (target is None && !capacities.has_live_worker()) {
                self.forced(capacities, decays, decayed, rest)
            } else {
                let (after, changed) = self.resumed(name, target);
                let later = after.forced(
                    capacities,
                    decays,
                    match target {
                        Some(worker) if changed && after.ledger.programs.contains_key(name) =>
                            decayed_more(
                            decayed,
                            worker,
                            decayed_tokens(decays, name, after.ledger.programs[name]),
                            self.ledger.buffer,
                        ),
                        _ => decayed,
                    },
                    rest,
                );
                (later.0, changed || later.1)
            }
        }
    }

    /// The periodic step: retention ends, gone workers are dropped, waiting requests are admitted,
    /// paused programs resume or are forced to, and overloaded workers are relieved.
    pub open spec fn reconciled(
        self,
        capacities: Capacities,
        decays: Map<Seq<char>, usize>,
        now: u64,
    ) -> (Model, bool) {
        let timed = Model {
            next_reconcile_at: (now + self.config.scheduler_interval) as u128,
            ..self
        };
        let (kept, expiries) = timed.programs_expired(now);
        let (cleared, clears) = kept.removed_cleared(capacities);
        let (admitted, admissions) = cleared.all_admitted(cleared.candidates(), capacities, now);
        let decayed = admitted.ledger.decayed_usage(
            decays,
            Map::empty(),
            admitted.ledger.order_by(running()),
        );
        let packing = admitted.programs_resumed(capacities, decays, decayed);
        let late = packing.model.ledger.order_by(
            timed_out(now, packing.model.config.resume_timeout),
        );
        let (forced, forces) = packing.model.forced(capacities, decays, packing.decayed, late);
        let (relieved, reliefs) = forced.ledger.all_relieved(capacities.cards);
        (
            forced.with_ledger(relieved).arrivals_compacted(),
            expiries || clears || admissions || packing.changed || forces || reliefs,
        )
    }

    /// Whether a request's waiter takes the periodic step now: it keeps the timer and the step is due.
    pub open spec fn takes_step(self, id: Seq<char>, now: u64) -> bool {
        self.timer_owner == Some(id) && now >= self.next_reconcile_at
    }

    /// How long a request's waiter sleeps before the periodic step, if it keeps the timer.
    pub open spec fn sleep(self, id: Seq<char>, now: u64) -> Option<u128> {
        if self.timer_owner == Some(id) {
            Some(self.next_reconcile_at.saturating_sub(now as u128))
        } else {
            None
        }
    }

    /// The periodic step's state before requests are admitted.
    pub open spec fn before_admitting(self, capacities: Capacities, now: u64) -> Model {
        let timed = Model {
            next_reconcile_at: (now + self.config.scheduler_interval) as u128,
            ..self
        };
        timed.programs_expired(now).0.removed_cleared(capacities).0
    }

    /// The periodic step's state before programs resume.
    pub open spec fn before_resuming(self, capacities: Capacities, now: u64) -> Model {
        let cleared = self.before_admitting(capacities, now);
        cleared.all_admitted(cleared.candidates(), capacities, now).0
    }

    /// A request is taken up behind the others of its session.
    pub open spec fn enqueued(
        self,
        id: Seq<char>,
        session: Seq<char>,
        input_tokens: usize,
        session_final: bool,
    ) -> Model {
        let held = if self.sessions.contains_key(session) {
            self.sessions[session]
        } else {
            Session::fresh()
        };
        Model {
            requests: self.requests.insert(
                id,
                Request {
                    session,
                    input_tokens,
                    session_final,
                    phase: RequestPhase::Waiting,
                    prior: None,
                    began: false,
                    target: None,
                },
            ),
            sessions: self.sessions.insert(
                session,
                Session { waiting: held.waiting.push(id), ..held },
            ),
            arrivals: self.arrivals.push(id),
            timer_owner: match self.timer_owner {
                Some(owner) => Some(owner),
                None => Some(id),
            },
            ..self
        }
    }

    /// Why a new request is refused.
    pub open spec fn refusal(self, id: Seq<char>, session: Seq<char>, now: u64) -> Option<Refusal> {
        let limit = self.config.max_tracked_requests;
        if self.requests.contains_key(id) {
            Some(Refusal::DuplicateRequestId(id))
        } else if self.requests.len() >= limit {
            Some(Refusal::RequestLimitExceeded { limit })
        } else if !self.programs_expired(now).0.can_have_room(session) {
            Some(Refusal::ProgramLimitExceeded { limit })
        } else {
            None
        }
    }

    /// A new request is taken up, and admitted if its turn has come.
    pub open spec fn registered(
        self,
        id: Seq<char>,
        session: Seq<char>,
        input_tokens: usize,
        session_final: bool,
        capacities: Capacities,
        now: u64,
    ) -> Model {
        self.programs_expired(now).0.room_made(session).removed_cleared(capacities).0.enqueued(
            id,
            session,
            input_tokens,
            session_final,
        ).admitted(id, capacities, now).0.arrivals_compacted()
    }

    /// Whether a released request of a final session has taken its program along.
    pub open spec fn took_program(request: Request) -> bool {
        request.session_final && request.phase == RequestPhase::Released
    }

    /// A request's turn ends in the program table: a completed turn is recorded, any other is
    /// rolled back. What a final request took out stays out.
    pub open spec fn settled(self, request: Request, outcome: Outcome, now: u64) -> Model {
        let session = request.session;
        match outcome {
            Outcome::Completed { context_tokens, acting_tokens } if request.phase
                == RequestPhase::Released => {
                if request.session_final || !self.ledger.programs.contains_key(session) {
                    self
                } else {
                    let program = self.ledger.programs[session];
                    let total = match context_tokens {
                        Some(tokens) => tokens,
                        None => request.input_tokens,
                    };
                    let done = self.ledger.with(
                        session,
                        program.turn_done(total, acting_tokens, now),
                    );
                    self.with_ledger(
                        if program.marked_for_pause {
                            done.with_paused(session)
                        } else {
                            done
                        },
                    )
                }
            },
            _ => if !request.began || Model::took_program(request) {
                self
            } else {
                match request.prior {
                    Some(prior) => self.with_ledger(self.ledger.with(session, prior)),
                    None => self.with_ledger(self.ledger.without(session)),
                }
            },
        }
    }

    /// A request leaves its session's queue.
    pub open spec fn dequeued(self, id: Seq<char>) -> Model {
        let request = self.requests[id];
        let left = Model { requests: self.requests.remove(id), ..self };
        let passed = if request.phase == RequestPhase::Waiting {
            left.timer_passed(id)
        } else {
            left
        };
        if !self.sessions.contains_key(request.session) {
            passed
        } else {
            let session = self.sessions[request.session];
            let vacated = if session.current == Some(id) {
                Session { current: None, ..session }
            } else if request.phase == RequestPhase::Waiting {
                Session { stale: session.stale.saturating_add(1), ..session }
            } else {
                session
            };
            Model {
                sessions: self.sessions.insert(
                    request.session,
                    vacated.compacted(left.waiting()),
                ),
                ..passed
            }
        }
    }

    /// The session's next request is admitted if its turn has come.
    pub open spec fn next_admitted(self, session: Seq<char>, capacities: Capacities, now: u64) -> Model {
        match self.pending(session) {
            Some(next) => self.admitted(next, capacities, now).0,
            None => self,
        }
    }

    /// A session without requests is forgotten.
    pub open spec fn session_closed(self, session: Seq<char>) -> Model {
        if self.sessions.contains_key(session) && self.sessions[session].is_empty() {
            Model { sessions: self.sessions.remove(session), ..self }
        } else {
            self
        }
    }

    /// A tracked request ends.
    pub open spec fn finished(
        self,
        id: Seq<char>,
        outcome: Outcome,
        capacities: Capacities,
        now: u64,
    ) -> (Model, bool) {
        if !self.requests.contains_key(id) {
            (self, false)
        } else {
            let request = self.requests[id];
            (
                self.dequeued(id).settled(request, outcome, now).next_admitted(
                    request.session,
                    capacities,
                    now,
                ).session_closed(request.session).retention_scheduled(
                    request.session,
                ).reconcile_requested(now).arrivals_compacted().woken(id),
                true,
            )
        }
    }

    /// A released request was sent to a worker, which becomes its program's worker.
    pub open spec fn sent(self, id: Seq<char>, worker: WorkerWithDpRank, now: u64) -> (Model, bool) {
        if !self.requests.contains_key(id) || self.requests[id].phase != RequestPhase::Released {
            (self, false)
        } else {
            (
                self.with_ledger(
                    self.ledger.assigned(self.requests[id].session, Some(worker)),
                ).reconcile_requested(now),
                true,
            )
        }
    }
}

} // verus!
