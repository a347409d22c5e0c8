//! Program state, admission, pause, resume and repacking.
use std::collections::VecDeque;
use vstd::hash_set::StringHashSet;
use vstd::prelude::*;

use crate::names::{is_name, name_of, same_text, NameQueue};
use crate::ranking::{ranks, Ranked};
use crate::table::Table;
use crate::thunderagent::capacity::{Capacities, WorkerCapacitySnapshot};
use crate::thunderagent::config::ThunderAgentConfig;
use crate::thunderagent::error::ThunderAgentError;
use crate::thunderagent::ledger::ProgramLedger;
use crate::thunderagent::model::{
    drop_leading, evictable, expired, idle_since, retained, Model, Outcome, Packing, Request,
    RequestPhase, Session, WaitStatus,
};
use crate::thunderagent::order::{Keys, ProgramOrder};
use crate::thunderagent::placement::{
    acting, add_decayed, find_forced_target, find_room, one_room_each, timed_out,
    tokens_after_decay, Room,
};
use crate::thunderagent::program::{Program, ProgramLifecycle, ProgramStatus};
use crate::thunderagent::soundness::{
    lemma_finished_is_sound, lemma_fresh_is_sound, lemma_reconciled_is_sound,
    lemma_registered_is_sound, lemma_released_is_sound, lemma_sent_is_sound, lemma_woken_is_sound,
};
use crate::worker::{WorkerMap, WorkerWithDpRank};

verus! {

/// A tracked request.
pub struct RequestState {
    session_id: String,
    input_tokens: usize,
    session_final: bool,
    phase: RequestPhase,
    prior_program: Option<Program>,
    began_program: bool,
    target: Option<WorkerWithDpRank>,
}

impl View for RequestState {
    type V = Request;

    closed spec fn view(&self) -> Request {
        Request {
            session: self.session_id@,
            input_tokens: self.input_tokens,
            session_final: self.session_final,
            phase: self.phase,
            prior: self.prior_program,
            began: self.began_program,
            target: self.target,
        }
    }
}

impl RequestState {
    fn duplicate(&self) -> (copy: RequestState)
        ensures
            copy@ == self@,
    {
        RequestState {
            session_id: self.session_id.clone(),
            input_tokens: self.input_tokens,
            session_final: self.session_final,
            phase: self.phase,
            prior_program: self.prior_program,
            began_program: self.began_program,
            target: self.target,
        }
    }
}

/// The requests of one session.
pub struct SessionRequests {
    current: Option<String>,
    waiting: NameQueue,
    stale_waiting: usize,
}

impl View for SessionRequests {
    type V = Session;

    closed spec fn view(&self) -> Session {
        Session {
            current: name_of(self.current),
            waiting: self.waiting@,
            stale: self.stale_waiting,
        }
    }
}

impl SessionRequests {
    fn is_empty(&self) -> (empty: bool)
        ensures
            empty == self@.is_empty(),
    {
        self.current.is_none() && self.waiting.len() == 0
    }

    /// Drop leading stale ids, and all of them where they are many.
    fn compact(&mut self, waiting_arrivals: &StringHashSet)
        ensures
            final(self)@ == old(self)@.compacted(waiting_arrivals@),
    {
        let ghost kept = waiting_arrivals@;
        let ghost start = self@;
        loop
            invariant
                kept == waiting_arrivals@,
                self@.current == start.current,
                self@.waiting.len() <= start.waiting.len(),
                drop_leading(self@.waiting, kept) == drop_leading(start.waiting, kept),
                self@.stale == (if start.stale > start.waiting.len() - self@.waiting.len() {
                    start.stale - (start.waiting.len() - self@.waiting.len())
                } else {
                    0
                }),
            ensures
                self@.current == start.current,
                self@.waiting == drop_leading(start.waiting, kept),
                self@.waiting.len() <= start.waiting.len(),
                self@.stale == (if start.stale > start.waiting.len() - self@.waiting.len() {
                    start.stale - (start.waiting.len() - self@.waiting.len())
                } else {
                    0
                }),
            decreases self@.waiting.len(),
        {
            let settled: bool = match self.waiting.front() {
                Some(id) => !waiting_arrivals.contains(id.as_str()),
                None => false,
            };
            if !settled {
                break ;
            }
            self.waiting.pop_front();
            self.stale_waiting = self.stale_waiting.saturating_sub(1);
        }
        if self.stale_waiting >= 8 && self.stale_waiting.saturating_add(self.stale_waiting)
            >= self.waiting.len() {
            self.waiting.retain(waiting_arrivals);
            self.stale_waiting = 0;
        }
        assert(self@ =~= start.compacted(kept));
    }
}

/// What became of a request.
///
/// `acting_tokens` is the completed context, weighted for tool work by the host.
pub enum RequestEvent {
    Sent { request_id: String, worker: WorkerWithDpRank },
    Completed { request_id: String, context_tokens: Option<usize>, acting_tokens: usize },
    Aborted { request_id: String },
    /// Anything that the scheduler does not act on.
    Other,
}

impl Model {
    /// What an event makes of the state.
    pub open spec fn after_event(self, event: RequestEvent, capacities: Capacities, now: u64) -> (
        Model,
        bool,
    ) {
        match event {
            RequestEvent::Sent { request_id, worker } => self.sent(request_id@, worker, now),
            RequestEvent::Completed { request_id, context_tokens, acting_tokens } => self.finished(
                request_id@,
                Outcome::Completed { context_tokens, acting_tokens },
                capacities,
                now,
            ),
            RequestEvent::Aborted { request_id } => self.finished(
                request_id@,
                Outcome::Aborted,
                capacities,
                now,
            ),
            RequestEvent::Other => (self, false),
        }
    }
}

/// The program table, the tracked requests, and what is due when.
pub struct State {
    config: ThunderAgentConfig,
    ledger: ProgramLedger,
    requests: Table<RequestState>,
    sessions: Table<SessionRequests>,
    arrival_order: NameQueue,
    waiting_arrivals: StringHashSet,
    timer_owner: Option<String>,
    next_reconcile_at: u128,
    next_retention_expiry: Option<u128>,
    capacity_snapshot_id: Option<u64>,
    wakeups: NameQueue,
}

impl View for State {
    type V = Model;

    closed spec fn view(&self) -> Model {
        Model {
            config: self.config,
            ledger: self.ledger@,
            requests: self.requests@,
            sessions: self.sessions@,
            arrivals: self.arrival_order@,
            timer_owner: name_of(self.timer_owner),
            next_reconcile_at: self.next_reconcile_at,
            next_retention_expiry: self.next_retention_expiry,
            snapshot_id: self.capacity_snapshot_id,
            wakeups: self.wakeups@,
        }
    }
}

struct Expired<'a> {
    sessions: &'a Table<SessionRequests>,
    now: u64,
    retention: u64,
}

struct Retained<'a> {
    sessions: &'a Table<SessionRequests>,
    now: u64,
    retention: u64,
}

struct Evictable<'a> {
    sessions: &'a Table<SessionRequests>,
}

fn find_idle_since(sessions: &Table<SessionRequests>, name: &str, program: &Program) -> (since: Option<
    u64,
>)
    requires
        sessions.wf(),
    ensures
        since == idle_since(sessions@, name@, *program),
{
    let busy: bool = match sessions.get(name) {
        Some(session) => !session.is_empty(),
        None => false,
    };
    if busy || program.status != ProgramStatus::Acting {
        None
    } else {
        program.acting_since
    }
}

impl<'a> ProgramOrder for Expired<'a> {
    closed spec fn keys(&self) -> Keys {
        expired(self.sessions@, self.now, self.retention)
    }

    closed spec fn ready(&self) -> bool {
        self.sessions.wf()
    }

    fn key(&self, name: &str, program: &Program) -> (key: Option<(u64, u64)>) {
        match find_idle_since(self.sessions, name, program) {
            Some(since) => if self.now as u128 >= since as u128 + self.retention as u128 {
                Some((0, 0))
            } else {
                None
            },
            None => None,
        }
    }
}

impl<'a> ProgramOrder for Retained<'a> {
    closed spec fn keys(&self) -> Keys {
        retained(self.sessions@, self.now, self.retention)
    }

    closed spec fn ready(&self) -> bool {
        self.sessions.wf()
    }

    fn key(&self, name: &str, program: &Program) -> (key: Option<(u64, u64)>) {
        match find_idle_since(self.sessions, name, program) {
            Some(since) => if (self.now as u128) < since as u128 + self.retention as u128 {
                Some((since, 0))
            } else {
                None
            },
            None => None,
        }
    }
}

impl<'a> ProgramOrder for Evictable<'a> {
    closed spec fn keys(&self) -> Keys {
        evictable(self.sessions@)
    }

    closed spec fn ready(&self) -> bool {
        true
    }

    fn key(&self, name: &str, program: &Program) -> (key: Option<(u64, u64)>) {
        if self.sessions.contains_key(name) {
            None
        } else {
            match program.acting_since {
                Some(since) => Some((1, since)),
                None => Some((0, 0)),
            }
        }
    }
}

impl State {
    pub closed spec fn wf(&self) -> bool {
        &&& self.ledger.wf()
        &&& self.requests.wf()
        &&& self.sessions.wf()
        &&& self.waiting_arrivals@ == self@.waiting()
    }

    pub fn new(config: ThunderAgentConfig, now: u64) -> (state: Self)
        ensures
            state.wf(),
            state@ == Model::fresh(config, now),
            state@.sound(),
    {
        let state = State {
            config,
            ledger: ProgramLedger::new(config.buffer_per_program),
            requests: Table::new(),
            sessions: Table::new(),
            arrival_order: NameQueue::new(),
            waiting_arrivals: StringHashSet::new(),
            timer_owner: None,
            next_reconcile_at: now as u128 + config.scheduler_interval as u128,
            next_retention_expiry: None,
            capacity_snapshot_id: None,
            wakeups: NameQueue::new(),
        };
        assert(state.waiting_arrivals@ =~= state@.waiting());
        proof {
            lemma_fresh_is_sound(config, now);
        }
        state
    }

    /// Whether a session has no released request and the given request is its next one.
    fn is_front_and_idle(&self, request_id: &str, session_id: &str) -> (front: bool)
        requires
            self.wf(),
        ensures
            front == self@.front_and_idle(request_id@, session_id@),
    {
        match self.sessions.get(session_id) {
            Some(session) => session.current.is_none() && match session.waiting.front() {
                Some(front) => same_text(front.as_str(), request_id),
                None => false,
            },
            None => false,
        }
    }

    /// The request that a session without a released one turns to.
    fn pending_request(&self, session_id: &str) -> (next: Option<String>)
        requires
            self.wf(),
        ensures
            name_of(next) == self@.pending(session_id@),
    {
        match self.sessions.get(session_id) {
            Some(session) => if session.current.is_none() {
                match session.waiting.front() {
                    Some(front) => Some(front.clone()),
                    None => None,
                }
            } else {
                None
            },
            None => None,
        }
    }

    /// Hand the timer on after a request has stopped waiting.
    fn advance_timer(&mut self, request_id: &str)
        requires
            old(self).wf(),
        ensures
            final(self).wf(),
            final(self)@ == old(self)@.timer_passed(request_id@),
    {
        if !is_name(&self.timer_owner, request_id) {
            return ;
        }
        let ghost start = self@;
        let ghost kept = self@.waiting();
        loop
            invariant
                self.wf(),
                kept == start.waiting(),
                self.waiting_arrivals@ == kept,
                self@ == (Model { arrivals: self@.arrivals, ..start }),
                drop_leading(self@.arrivals, kept) == drop_leading(start.arrivals, kept),
            ensures
                self.wf(),
                self@ == (Model { arrivals: drop_leading(start.arrivals, kept), ..start }),
            decreases self@.arrivals.len(),
        {
            let settled: bool = match self.arrival_order.front() {
                Some(id) => !self.waiting_arrivals.contains(id.as_str()),
                None => false,
            };
            if !settled {
                break ;
            }
            self.arrival_order.pop_front();
            assert(self.waiting_arrivals@ =~= self@.waiting());
        }
        let next: Option<String> = match self.arrival_order.front() {
            Some(id) => Some(id.clone()),
            None => None,
        };
        match next {
            Some(owner) => {
                self.wakeups.push_back(owner.clone());
                self.timer_owner = Some(owner);
            },
            None => {
                self.timer_owner = None;
            },
        }
        assert(self.waiting_arrivals@ =~= self@.waiting());
        assert(self@ =~= start.timer_passed(request_id@));
    }

    /// Reconcile as soon as possible, if anyone waits.
    fn request_reconcile(&mut self, now: u64)
        requires
            old(self).wf(),
        ensures
            final(self).wf(),
            final(self)@ == old(self)@.reconcile_requested(now),
    {
        let ghost start = self@;
        if let Some(owner) = &self.timer_owner {
            self.next_reconcile_at = now as u128;
            if self.requests.contains_key(owner.as_str()) {
                self.wakeups.push_back(owner.clone());
            }
        }
        assert(self.waiting_arrivals@ =~= self@.waiting());
        assert(self@ =~= start.reconcile_requested(now));
    }

    /// Drop stale ids from the arrival order once they outnumber the waiting ones by far.
    fn compact_arrival_order(&mut self)
        requires
            old(self).wf(),
        ensures
            final(self).wf(),
            final(self)@ == old(self)@.arrivals_compacted(),
    {
        let ghost start = self@;
        let waiting: usize = self.waiting_arrivals.len();
        let limit: usize = waiting.saturating_add(waiting).saturating_add(256);
        if self.arrival_order.len() > limit {
            self.arrival_order.retain(&self.waiting_arrivals);
        }
        assert(self.waiting_arrivals@ =~= self@.waiting());
        assert(self@ =~= start.arrivals_compacted());
    }

    /// Drop idle programs whose retention has ended.
    fn expire_retained_programs(&mut self, now: u64) -> (changed: bool)
        requires
            old(self).wf(),
        ensures
            final(self).wf(),
            (final(self)@, changed) == old(self)@.programs_expired(now),
    {
        let due: bool = match self.next_retention_expiry {
            Some(at) => now as u128 >= at,
            None => false,
        };
        if !due {
            return false;
        }
        let ghost start = self@;
        let retention: u64 = self.config.session_retention;
        let gone = self.ledger.ordered(&Expired { sessions: &self.sessions, now, retention });
        let next = self.ledger.first(&Retained { sessions: &self.sessions, now, retention });
        self.next_retention_expiry = match next {
            Some(first) => Some(first.major as u128 + retention as u128),
            None => None,
        };
        self.ledger.remove_programs(&gone);
        assert(self.waiting_arrivals@ =~= self@.waiting());
        assert(ranks(gone@).len() == gone@.len());
        assert(self@ =~= start.programs_expired(now).0);
        gone.len() > 0
    }

    /// See to it that an idle session's program leaves in time.
    fn schedule_retention_expiry(&mut self, session_id: &str)
        requires
            old(self).wf(),
        ensures
            final(self).wf(),
            final(self)@ == old(self)@.retention_scheduled(session_id@),
    {
        if self.sessions.contains_key(session_id) {
            return ;
        }
        let ghost start = self@;
        if let Some(program) = self.ledger.get(session_id) {
            if program.status == ProgramStatus::Acting {
                if let Some(since) = program.acting_since {
                    let deadline: u128 = since as u128 + self.config.session_retention as u128;
                    let sooner: bool = match self.next_retention_expiry {
                        Some(at) => at > deadline,
                        None => true,
                    };
                    if sooner {
                        self.next_retention_expiry = Some(deadline);
                    }
                }
            }
        }
        assert(self.waiting_arrivals@ =~= self@.waiting());
        assert(self@ =~= start.retention_scheduled(session_id@));
    }

    /// Make room for a session's program; at the limit the longest idle program leaves.
    fn ensure_program_capacity(&mut self, session_id: &str) -> (room: bool)
        requires
            old(self).wf(),
        ensures
            final(self).wf(),
            final(self)@ == old(self)@.room_made(session_id@),
            room == old(self)@.can_have_room(session_id@),
    {
        if self.ledger.contains(session_id) || self.ledger.len()
            < self.config.max_tracked_requests {
            return true;
        }
        let ghost start = self@;
        match self.ledger.first(&Evictable { sessions: &self.sessions }) {
            Some(first) => {
                self.ledger.remove_program(first.name.as_str());
                assert(self.waiting_arrivals@ =~= self@.waiting());
                assert(self@ =~= start.room_made(session_id@));
                true
            },
            None => false,
        }
    }

    /// Take programs off workers that are gone, once per snapshot.
    fn clear_removed_workers(&mut self, capacities: &WorkerCapacitySnapshot) -> (changed: bool)
        requires
            old(self).wf(),
            capacities.wf(),
        ensures
            final(self).wf(),
            (final(self)@, changed) == old(self)@.removed_cleared(capacities@),
    {
        let ghost start = self@;
        if self.capacity_snapshot_id == Some(capacities.id()) {
            return false;
        }
        self.capacity_snapshot_id = Some(capacities.id());
        let changed: bool = if capacities.is_empty() && !capacities.has_liveness() {
            false
        } else {
            self.ledger.clear_removed(capacities)
        };
        assert(self.waiting_arrivals@ =~= self@.waiting());
        assert(self@ =~= start.removed_cleared(capacities@).0);
        changed
    }

    /// Pause a session's program until it is resumed.
    fn defer_program(&mut self, session_id: &str, now: u64, preserve_assignment: bool) -> (changed:
        bool)
        requires
            old(self).wf(),
        ensures
            final(self).wf(),
            (final(self)@, changed) == old(self)@.deferred(session_id@, now, preserve_assignment),
    {
        let program = match self.ledger.get(session_id) {
            Some(program) => program,
            None => {
                return false;
            },
        };
        let ghost start = self@;
        let deferred = Program {
            lifecycle: ProgramLifecycle::Paused,
            deferred_since: match program.deferred_since {
                Some(since) => Some(since),
                None => Some(now),
            },
            assigned_worker: if preserve_assignment {
                program.assigned_worker
            } else {
                None
            },
            ..program
        };
        self.ledger.update_program(session_id, deferred);
        assert(self.waiting_arrivals@ =~= self@.waiting());
        assert(self@ =~= start.deferred(session_id@, now, preserve_assignment).0);
        deferred != program
    }

    /// Release a request whose turn has begun and come; otherwise nothing happens.
    pub fn release_request(&mut self, request_id: &str, worker: Option<WorkerWithDpRank>) -> (released:
        bool)
        requires
            old(self).wf(),
        ensures
            final(self).wf(),
            (final(self)@, released) == old(self)@.released(request_id@, worker),
            old(self)@.sound() ==> final(self)@.sound(),
            released ==> old(self)@.wait_status(request_id@) == WaitStatus::Waiting,
            released ==> old(self)@.front_and_idle(
                request_id@,
                old(self)@.requests[request_id@].session,
            ),
            released ==> final(self)@.wait_status(request_id@) == WaitStatus::Released,
            released ==> final(self)@.sessions[old(self)@.requests[request_id@].session].current
                == Some(request_id@),
            !released ==> final(self)@ == old(self)@,
    {
        proof {
            if self@.sound() {
                lemma_released_is_sound(self@, request_id@, worker);
            }
        }
        let request = match self.requests.get(request_id) {
            Some(request) => request.duplicate(),
            None => {
                return false;
            },
        };
        if request.phase != RequestPhase::Waiting || !request.began_program
            || !self.is_front_and_idle(request_id, request.session_id.as_str()) {
            return false;
        }
        let program = match self.ledger.get(request.session_id.as_str()) {
            Some(program) => program,
            None => {
                return false;
            },
        };
        let ghost start = self@;
        let session_id: &str = request.session_id.as_str();
        if request.session_final {
            self.ledger.remove_program(session_id);
        } else {
            self.ledger.update_program(
                session_id,
                Program {
                    lifecycle: ProgramLifecycle::Active,
                    deferred_since: None,
                    ..program
                },
            );
        }
        if let Some(mut session) = self.sessions.remove(session_id) {
            session.waiting.pop_front();
            session.current = Some(request_id.to_owned());
            self.sessions.insert(session_id.to_owned(), session);
        }
        let target = match worker {
            Some(worker) => Some(worker),
            None => program.assigned_worker,
        };
        self.requests.insert(
            request_id.to_owned(),
            RequestState {
                session_id: session_id.to_owned(),
                phase: RequestPhase::Released,
                target,
                ..request.duplicate()
            },
        );
        self.waiting_arrivals.remove(request_id);
        assert(self.waiting_arrivals@ =~= self@.waiting());
        assert(self@.sessions[session_id@] =~= start.let_go(request_id@, worker).sessions[session_id@]);
        assert(self@ =~= start.let_go(request_id@, worker));
        self.advance_timer(request_id);
        self.wakeups.push_back(request_id.to_owned());
        assert(self.waiting_arrivals@ =~= self@.waiting());
        assert(self@ =~= start.released(request_id@, worker).0);
        true
    }

    /// Begin a request's turn in the program table.
    fn begin_request(&mut self, request_id: &str) -> (began: bool)
        requires
            old(self).wf(),
            old(self)@.requests.contains_key(request_id@),
        ensures
            final(self).wf(),
            began == old(self)@.can_begin(request_id@),
            began ==> final(self)@ == old(self)@.begun(request_id@),
            !began ==> final(self)@ == old(self)@,
    {
        let request = match self.requests.get(request_id) {
            Some(request) => request.duplicate(),
            None => {
                return false;
            },
        };
        if request.began_program {
            return true;
        }
        let ghost start = self@;
        let session_id: &str = request.session_id.as_str();
        if !self.ensure_program_capacity(session_id) {
            return false;
        }
        let ghost roomy = self@;
        let prior = self.ledger.get(session_id);
        match prior {
            Some(program) => {
                self.ledger.update_program(
                    session_id,
                    Program {
                        status: ProgramStatus::Reasoning,
                        token_total: if request.input_tokens > 0 {
                            request.input_tokens
                        } else {
                            program.token_total
                        },
                        step_count: program.step_count.saturating_add(1),
                        acting_since: None,
                        ..program
                    },
                );
            },
            None => {
                self.ledger.update_program(session_id, Program::new(request.input_tokens));
            },
        }
        self.requests.insert(
            request_id.to_owned(),
            RequestState { prior_program: prior, began_program: true, ..request.duplicate() },
        );
        assert(self.waiting_arrivals@ =~= self@.waiting());
        assert(self@ =~= start.begun(request_id@));
        true
    }

    /// Release or defer a request whose turn has begun.
    fn decide(&mut self, request_id: &str, capacities: &WorkerCapacitySnapshot, now: u64) -> (changed:
        bool)
        requires
            old(self).wf(),
            old(self)@.requests.contains_key(request_id@),
            capacities.wf(),
        ensures
            final(self).wf(),
            (final(self)@, changed) == old(self)@.decided(request_id@, capacities@, now),
    {
        let request = match self.requests.get(request_id) {
            Some(request) => request.duplicate(),
            None => {
                return false;
            },
        };
        let session_id: &str = request.session_id.as_str();
        let program = match self.ledger.get(session_id) {
            Some(program) => program,
            None => {
                return false;
            },
        };
        if program.lifecycle == ProgramLifecycle::Paused {
            return self.defer_program(session_id, now, program.assigned_worker.is_some());
        }
        let live: bool = match program.assigned_worker {
            Some(worker) => capacities.is_live(&worker),
            None => false,
        };
        if !capacities.has_usable_capacity() {
            let worker = if live {
                program.assigned_worker
            } else {
                None
            };
            return self.release_request(request_id, worker);
        }
        if live {
            return self.release_request(request_id, program.assigned_worker);
        }
        let ghost start = self@;
        let stranded: bool = program.assigned_worker.is_some();
        if stranded {
            self.ledger.set_assignment(session_id, None);
        }
        assert(self.waiting_arrivals@ =~= self@.waiting());
        assert(self@ =~= start.with_ledger(self@.ledger));
        let required: usize = request.input_tokens.saturating_add(self.config.buffer_per_program);
        let choice = self.ledger.find_admission_worker(capacities, required);
        let changed: bool = if (request.prior_program.is_none() && self.ledger.has_paused())
            || choice.is_none() {
            self.defer_program(session_id, now, false)
        } else {
            self.release_request(request_id, choice)
        };
        changed || stranded
    }

    /// Release or defer a waiting request whose turn it is.
    fn admit_request(&mut self, request_id: &str, capacities: &WorkerCapacitySnapshot, now: u64) -> (changed:
        bool)
        requires
            old(self).wf(),
            capacities.wf(),
        ensures
            final(self).wf(),
            (final(self)@, changed) == old(self)@.admitted(request_id@, capacities@, now),
    {
        if !self.is_next_request(request_id) || !self.begin_request(request_id) {
            return false;
        }
        self.decide(request_id, capacities, now)
    }

    /// Whether a request waits and nothing of its session is ahead of it.
    fn is_next_request(&self, request_id: &str) -> (next: bool)
        requires
            self.wf(),
        ensures
            next == self@.is_next(request_id@),
    {
        match self.requests.get(request_id) {
            Some(request) => request.phase == RequestPhase::Waiting && self.is_front_and_idle(
                request_id,
                request.session_id.as_str(),
            ),
            None => false,
        }
    }

    /// Every request whose turn it is, in order of arrival.
    fn front_requests(&self) -> (ids: NameQueue)
        requires
            self.wf(),
        ensures
            ids@ == self@.candidates(),
    {
        let ghost pred = |id: Seq<char>| self@.is_next(id);
        let ghost all = self@.arrivals;
        let mut ids = NameQueue::new();
        let count: usize = self.arrival_order.len();
        proof {
            reveal(Seq::filter);
            assert(all.take(0).filter(pred) =~= ids@);
        }
        for at in 0..count
            invariant
                self.wf(),
                all == self@.arrivals,
                count == all.len(),
                pred == (|id: Seq<char>| self@.is_next(id)),
                ids@ == all.take(at as int).filter(pred),
        {
            let id: &String = self.arrival_order.get(at);
            proof {
                reveal(Seq::filter);
                assert(all.take(at + 1).drop_last() =~= all.take(at as int));
            }
            if self.is_next_request(id.as_str()) {
                ids.push_back(id.clone());
            }
        }
        assert(all.take(count as int) =~= all);
        ids
    }

    /// Admit every request whose turn it is, in order of arrival.
    fn admit_front_requests(&mut self, capacities: &WorkerCapacitySnapshot, now: u64) -> (changed:
        bool)
        requires
            old(self).wf(),
            capacities.wf(),
        ensures
            final(self).wf(),
            (final(self)@, changed) == old(self)@.all_admitted(
                old(self)@.candidates(),
                capacities@,
                now,
            ),
    {
        let ids = self.front_requests();
        let ghost all = ids@;
        let ghost start = self@;
        let mut changed: bool = false;
        let count: usize = ids.len();
        assert(all.skip(0) =~= all);
        for at in 0..count
            invariant
                self.wf(),
                capacities.wf(),
                all == ids@,
                count == all.len(),
                ({
                    let rest = self@.all_admitted(all.skip(at as int), capacities@, now);
                    start.all_admitted(all, capacities@, now) == (rest.0, changed || rest.1)
                }),
        {
            assert(all.skip(at as int).drop_first() =~= all.skip(at + 1));
            assert(all.skip(at as int)[0] == all[at as int]);
            let hit: bool = self.admit_request(ids.get(at).as_str(), capacities, now);
            changed = changed || hit;
        }
        changed
    }

    /// Let a paused program run on the given worker, and release its waiting request.
    fn resume_program(&mut self, session_id: &str, worker: Option<WorkerWithDpRank>) -> (changed:
        bool)
        requires
            old(self).wf(),
        ensures
            final(self).wf(),
            (final(self)@, changed) == old(self)@.resumed(session_id@, worker),
    {
        let program = match self.ledger.get(session_id) {
            Some(program) => program,
            None => {
                return false;
            },
        };
        if program.lifecycle != ProgramLifecycle::Paused {
            return false;
        }
        let ghost start = self@;
        self.ledger.update_program(
            session_id,
            Program {
                lifecycle: ProgramLifecycle::Active,
                deferred_since: None,
                assigned_worker: worker,
                ..program
            },
        );
        assert(self.waiting_arrivals@ =~= self@.waiting());
        assert(self@ =~= start.with_ledger(self@.ledger));
        if let Some(request_id) = self.pending_request(session_id) {
            self.release_request(request_id.as_str(), worker);
        }
        true
    }

    /// Resume paused programs as far as there is room.
    fn greedy_resume(
        &mut self,
        capacities: &WorkerCapacitySnapshot,
        decays: &Table<usize>,
        decayed: &mut WorkerMap<usize>,
    ) -> (changed: bool)
        requires
            old(self).wf(),
            capacities.wf(),
            decays.wf(),
        ensures
            final(self).wf(),
            (Packing { model: final(self)@, decayed: final(decayed)@, changed })
                == old(self)@.programs_resumed(capacities@, decays@, old(decayed)@),
    {
        let mut rooms = self.ledger.find_rooms(capacities);
        let chosen = self.ledger.find_affordable(&rooms);
        let order = self.ledger.pack_order(&chosen);
        let ghost all = ranks(order@);
        let ghost whole = self@.packed(rooms@, decays@, decayed@, all);
        let mut changed: bool = false;
        let count: usize = order.len();
        assert(all.skip(0) =~= all);
        for at in 0..count
            invariant
                self.wf(),
                decays.wf(),
                one_room_each(rooms@),
                all == ranks(order@),
                count == all.len(),
                ({
                    let rest = self@.packed(rooms@, decays@, decayed@, all.skip(at as int));
                    whole == (Packing { changed: changed || rest.changed, ..rest })
                }),
        {
            assert(all.skip(at as int).drop_first() =~= all.skip(at + 1));
            assert(all.skip(at as int)[0] == order@[at as int]@);
            let name: &str = order[at].name.as_str();
            if let Some(program) = self.ledger.get(name) {
                let buffer: usize = self.ledger.headroom();
                let required: usize = program.token_total.saturating_add(buffer);
                if let Some(seat) = find_room(&rooms, required, program.assigned_worker) {
                    let room: Room = rooms[seat];
                    if self.resume_program(name, Some(room.worker)) {
                        changed = true;
                        if let Some(program) = self.ledger.get(name) {
                            let tokens: usize = tokens_after_decay(decays, name, &program);
                            add_decayed(decayed, room.worker, tokens, buffer);
                            let ghost had = rooms@;
                            rooms.set(seat, Room { available: room.available - required, ..room });
                            assert forall|i: int, j: int| 0 <= i < j < rooms@.len() implies (
                            #[trigger] rooms@[i]).worker != (#[trigger] rooms@[j]).worker by {
                                assert(had[i].worker != had[j].worker);
                            }
                        }
                    }
                }
            }
        }
        changed
    }

    /// Force programs to run that have waited too long.
    fn force_timed_out(
        &mut self,
        capacities: &WorkerCapacitySnapshot,
        decays: &Table<usize>,
        decayed: &mut WorkerMap<usize>,
        now: u64,
    ) -> (changed: bool)
        requires
            old(self).wf(),
            capacities.wf(),
            decays.wf(),
        ensures
            final(self).wf(),
            (final(self)@, changed) == old(self)@.forced(
                capacities@,
                decays@,
                old(decayed)@,
                old(self)@.ledger.order_by(timed_out(now, old(self)@.config.resume_timeout)),
            ),
    {
        let order = self.ledger.timed_out_order(now, self.config.resume_timeout);
        let ghost all = ranks(order@);
        let ghost whole = self@.forced(capacities@, decays@, decayed@, all);
        let mut changed: bool = false;
        let count: usize = order.len();
        assert(all.skip(0) =~= all);
        for at in 0..count
            invariant
                self.wf(),
                capacities.wf(),
                decays.wf(),
                all == ranks(order@),
                count == all.len(),
                ({
                    let rest = self@.forced(capacities@, decays@, decayed@, all.skip(at as int));
                    whole == (rest.0, changed || rest.1)
                }),
        {
            assert(all.skip(at as int).drop_first() =~= all.skip(at + 1));
            assert(all.skip(at as int)[0] == order@[at as int]@);
            let name: &str = order[at].name.as_str();
            if let Some(program) = self.ledger.get(name) {
                let target = find_forced_target(capacities, decayed, program.assigned_worker);
                if target.is_some() || capacities.has_live_worker() {
                    let buffer: usize = self.ledger.headroom();
                    if self.resume_program(name, target) {
                        changed = true;
                        if let Some(worker) = target {
                            if let Some(program) = self.ledger.get(name) {
                                let tokens: usize = tokens_after_decay(decays, name, &program);
                                add_decayed(decayed, worker, tokens, buffer);
                            }
                        }
                    }
                }
            }
        }
        changed
    }

    /// Relieve overloaded workers.
    fn pause_until_safe(&mut self, capacities: &WorkerCapacitySnapshot) -> (changed: bool)
        requires
            old(self).wf(),
        ensures
            final(self).wf(),
            changed == old(self)@.ledger.all_relieved(capacities@.cards).1,
            final(self)@ == old(self)@.with_ledger(
                old(self)@.ledger.all_relieved(capacities@.cards).0,
            ),
    {
        let ghost start = self@;
        let changed: bool = self.ledger.pause_until_safe(capacities);
        assert(self.waiting_arrivals@ =~= self@.waiting());
        assert(self@ =~= start.with_ledger(self@.ledger));
        changed
    }

    /// The periodic step.
    ///
    /// `decays` gives the tokens of programs between turns when their usage decays; a program
    /// that it leaves out does not decay.
    pub fn reconcile(
        &mut self,
        capacities: &WorkerCapacitySnapshot,
        decays: &Table<usize>,
        now: u64,
    ) -> (changed: bool)
        requires
            old(self).wf(),
            capacities.wf(),
            decays.wf(),
        ensures
            final(self).wf(),
            (final(self)@, changed) == old(self)@.reconciled(capacities@, decays@, now),
            old(self)@.sound() ==> final(self)@.sound(),
    {
        let ghost start = self@;
        proof {
            if start.sound() {
                lemma_reconciled_is_sound(start, capacities@, decays@, now);
            }
        }
        self.next_reconcile_at = now as u128 + self.config.scheduler_interval as u128;
        assert(self.waiting_arrivals@ =~= self@.waiting());
        assert(self@ =~= (Model {
            next_reconcile_at: (now + start.config.scheduler_interval) as u128,
            ..start
        }));
        let expiries: bool = self.expire_retained_programs(now);
        let clears: bool = self.clear_removed_workers(capacities);
        let admissions: bool = self.admit_front_requests(capacities, now);
        let mut decayed = self.ledger.find_decayed_usage(decays);
        let resumes: bool = self.greedy_resume(capacities, decays, &mut decayed);
        let forces: bool = self.force_timed_out(capacities, decays, &mut decayed, now);
        let reliefs: bool = self.pause_until_safe(capacities);
        self.compact_arrival_order();
        expiries || clears || admissions || resumes || forces || reliefs
    }

    /// The periodic step, if it is due and the request's waiter keeps the timer.
    pub fn reconcile_if_due(
        &mut self,
        request_id: &str,
        capacities: &WorkerCapacitySnapshot,
        decays: &Table<usize>,
        now: u64,
    ) -> (changed: bool)
        requires
            old(self).wf(),
            capacities.wf(),
            decays.wf(),
        ensures
            final(self).wf(),
            (final(self)@, changed) == (if old(self)@.timer_owner == Some(request_id@) && now
                >= old(self)@.next_reconcile_at {
                old(self)@.reconciled(capacities@, decays@, now)
            } else {
                (old(self)@, false)
            }),
            !old(self)@.takes_step(request_id@, now) ==> final(self)@ == old(self)@ && !changed,
            old(self)@.sound() ==> final(self)@.sound(),
    {
        if !is_name(&self.timer_owner, request_id) || (now as u128) < self.next_reconcile_at {
            return false;
        }
        self.reconcile(capacities, decays, now)
    }

    /// How long the request's waiter sleeps before the periodic step is due, if it keeps the
    /// timer.
    pub fn reconcile_delay(&self, request_id: &str, now: u64) -> (delay: Option<u128>)
        requires
            self.wf(),
        ensures
            delay == (if self@.timer_owner != Some(request_id@) {
                None
            } else {
                Some(self@.next_reconcile_at.saturating_sub(now as u128))
            }),
            delay == self@.sleep(request_id@, now),
    {
        if is_name(&self.timer_owner, request_id) {
            Some(self.next_reconcile_at.saturating_sub(now as u128))
        } else {
            None
        }
    }

    fn enqueue(
        &mut self,
        request_id: &str,
        session_id: &str,
        input_tokens: usize,
        session_final: bool,
    )
        requires
            old(self).wf(),
        ensures
            final(self).wf(),
            final(self)@ == old(self)@.enqueued(
                request_id@,
                session_id@,
                input_tokens,
                session_final,
            ),
    {
        let ghost start = self@;
        let mut session = match self.sessions.remove(session_id) {
            Some(session) => session,
            None => SessionRequests {
                current: None,
                waiting: NameQueue::new(),
                stale_waiting: 0,
            },
        };
        session.waiting.push_back(request_id.to_owned());
        self.sessions.insert(session_id.to_owned(), session);
        self.arrival_order.push_back(request_id.to_owned());
        self.waiting_arrivals.insert(request_id.to_owned());
        if self.timer_owner.is_none() {
            self.timer_owner = Some(request_id.to_owned());
        }
        self.requests.insert(
            request_id.to_owned(),
            RequestState {
                session_id: session_id.to_owned(),
                input_tokens,
                session_final,
                phase: RequestPhase::Waiting,
                prior_program: None,
                began_program: false,
                target: None,
            },
        );
        let ghost expected = start.enqueued(request_id@, session_id@, input_tokens, session_final);
        assert(self@.sessions[session_id@] =~= expected.sessions[session_id@]);
        assert(self.waiting_arrivals@ =~= self@.waiting());
        assert(self@ =~= expected);
    }

    /// Take up a new request, and admit it if its turn has come.
    pub fn register(
        &mut self,
        request_id: &str,
        session_id: &str,
        input_tokens: usize,
        session_final: bool,
        capacities: &WorkerCapacitySnapshot,
        now: u64,
    ) -> (taken: Result<(), ThunderAgentError>)
        requires
            old(self).wf(),
            capacities.wf(),
        ensures
            final(self).wf(),
            match taken {
                Ok(()) => old(self)@.refusal(request_id@, session_id@, now) is None && final(self)@
                    == old(self)@.registered(
                    request_id@,
                    session_id@,
                    input_tokens,
                    session_final,
                    capacities@,
                    now,
                ),
                Err(error) => old(self)@.refusal(request_id@, session_id@, now) == Some(error@)
                    && final(self)@ == (if error is ProgramLimitExceeded {
                    old(self)@.programs_expired(now).0
                } else {
                    old(self)@
                }),
            },
            old(self)@.sound() ==> final(self)@.sound(),
    {
        proof {
            if self@.sound() {
                lemma_registered_is_sound(
                    self@,
                    request_id@,
                    session_id@,
                    input_tokens,
                    session_final,
                    capacities@,
                    now,
                );
            }
        }
        if self.requests.contains_key(request_id) {
            return Err(ThunderAgentError::DuplicateRequestId(request_id.to_owned()));
        }
        let limit: usize = self.config.max_tracked_requests;
        if self.requests.len() >= limit {
            return Err(ThunderAgentError::RequestLimitExceeded { limit });
        }
        self.expire_retained_programs(now);
        if !self.ensure_program_capacity(session_id) {
            return Err(ThunderAgentError::ProgramLimitExceeded { limit });
        }
        self.clear_removed_workers(capacities);
        self.enqueue(request_id, session_id, input_tokens, session_final);
        self.admit_request(request_id, capacities, now);
        self.compact_arrival_order();
        Ok(())
    }

    /// What a waiter finds when it looks for its request.
    pub fn wait_status(&self, request_id: &str) -> (status: WaitStatus)
        requires
            self.wf(),
        ensures
            status == self@.wait_status(request_id@),
    {
        match self.requests.get(request_id) {
            Some(request) => match request.phase {
                RequestPhase::Waiting => WaitStatus::Waiting,
                RequestPhase::Released => WaitStatus::Released,
            },
            None => WaitStatus::Missing,
        }
    }

    /// A released request was sent to a worker.
    pub fn sent(&mut self, request_id: &str, worker: WorkerWithDpRank, now: u64) -> (known: bool)
        requires
            old(self).wf(),
        ensures
            final(self).wf(),
            (final(self)@, known) == old(self)@.sent(request_id@, worker, now),
            old(self)@.sound() ==> final(self)@.sound(),
    {
        proof {
            if self@.sound() {
                lemma_sent_is_sound(self@, request_id@, worker, now);
            }
        }
        let session_id: String = match self.requests.get(request_id) {
            Some(request) => {
                if request.phase != RequestPhase::Released {
                    return false;
                }
                request.session_id.clone()
            },
            None => {
                return false;
            },
        };
        let ghost start = self@;
        self.ledger.set_assignment(session_id.as_str(), Some(worker));
        assert(self.waiting_arrivals@ =~= self@.waiting());
        assert(self@ =~= start.with_ledger(self@.ledger));
        self.request_reconcile(now);
        true
    }

    /// Forget a request that its requester gave up.
    pub fn cancel_request(&mut self, request_id: &str, capacities: &WorkerCapacitySnapshot, now: u64) -> (known:
        bool)
        requires
            old(self).wf(),
            capacities.wf(),
        ensures
            final(self).wf(),
            (final(self)@, known) == old(self)@.finished(
                request_id@,
                Outcome::Aborted,
                capacities@,
                now,
            ),
            old(self)@.sound() ==> final(self)@.sound(),
    {
        self.finish_request(request_id, Outcome::Aborted, capacities, now)
    }

    /// Take a tracked request out of its session's queue.
    fn dequeue(&mut self, request_id: &str) -> (request: Option<RequestState>)
        requires
            old(self).wf(),
        ensures
            final(self).wf(),
            match request {
                Some(request) => old(self)@.requests.contains_key(request_id@) && request@
                    == old(self)@.requests[request_id@] && final(self)@ == old(self)@.dequeued(
                    request_id@,
                ),
                None => !old(self)@.requests.contains_key(request_id@) && final(self)@
                    == old(self)@,
            },
    {
        let ghost start = self@;
        let request = match self.requests.remove(request_id) {
            Some(request) => request,
            None => {
                assert(self@.requests =~= start.requests);
                return None;
            },
        };
        let was_waiting: bool = self.waiting_arrivals.remove(request_id);
        assert(self.waiting_arrivals@ =~= self@.waiting());
        let ghost left = Model { requests: start.requests.remove(request_id@), ..start };
        assert(self@ =~= left);
        assert(was_waiting == (request@.phase == RequestPhase::Waiting));
        if was_waiting {
            self.advance_timer(request_id);
        }
        let ghost passed = self@;
        assert(passed.waiting() =~= left.waiting());
        let session_id: &str = request.session_id.as_str();
        if let Some(mut session) = self.sessions.remove(session_id) {
            if is_name(&session.current, request_id) {
                session.current = None;
            } else if was_waiting {
                session.stale_waiting = session.stale_waiting.saturating_add(1);
            }
            session.compact(&self.waiting_arrivals);
            self.sessions.insert(session_id.to_owned(), session);
            assert(self.waiting_arrivals@ =~= self@.waiting());
            assert(self@ =~= start.dequeued(request_id@));
        } else {
            assert(passed.sessions.remove(session_id@) =~= passed.sessions);
            assert(self.waiting_arrivals@ =~= self@.waiting());
            assert(self@ =~= start.dequeued(request_id@));
        }
        Some(request)
    }

    /// End a request's turn in the program table.
    fn settle(&mut self, request: &RequestState, outcome: Outcome, now: u64)
        requires
            old(self).wf(),
        ensures
            final(self).wf(),
            final(self)@ == old(self)@.settled(request@, outcome, now),
    {
        let ghost start = self@;
        let session_id: &str = request.session_id.as_str();
        let released: bool = request.phase == RequestPhase::Released;
        match outcome {
            Outcome::Completed { context_tokens, acting_tokens } if released => {
                if !request.session_final {
                    if let Some(program) = self.ledger.get(session_id) {
                        let token_total: usize = match context_tokens {
                            Some(tokens) => tokens,
                            None => request.input_tokens,
                        };
                        self.ledger.update_program(
                            session_id,
                            Program {
                                status: ProgramStatus::Acting,
                                token_total,
                                acting_tokens,
                                acting_since: Some(now),
                                deferred_since: None,
                                marked_for_pause: false,
                                ..program
                            },
                        );
                        if program.marked_for_pause {
                            self.ledger.pause_acting(session_id);
                        }
                    }
                }
            },
            _ => {
                if request.began_program && !(request.session_final && released) {
                    match request.prior_program {
                        Some(prior) => self.ledger.replace_program(session_id, prior),
                        None => {
                            self.ledger.remove_program(session_id);
                        },
                    }
                }
            },
        }
        assert(self.waiting_arrivals@ =~= self@.waiting());
        assert(self@ =~= start.settled(request@, outcome, now));
    }

    /// Forget a session without requests.
    fn close_session(&mut self, session_id: &str)
        requires
            old(self).wf(),
        ensures
            final(self).wf(),
            final(self)@ == old(self)@.session_closed(session_id@),
    {
        let ghost start = self@;
        let empty: bool = match self.sessions.get(session_id) {
            Some(session) => session.is_empty(),
            None => false,
        };
        if empty {
            self.sessions.remove(session_id);
        }
        assert(self.waiting_arrivals@ =~= self@.waiting());
        assert(self@ =~= start.session_closed(session_id@));
    }

    /// End a tracked request: commit or roll back its turn, and let the next one of its session
    /// have its own.
    pub fn finish_request(
        &mut self,
        request_id: &str,
        outcome: Outcome,
        capacities: &WorkerCapacitySnapshot,
        now: u64,
    ) -> (known: bool)
        requires
            old(self).wf(),
            capacities.wf(),
        ensures
            final(self).wf(),
            (final(self)@, known) == old(self)@.finished(request_id@, outcome, capacities@, now),
            old(self)@.sound() ==> final(self)@.sound(),
    {
        let ghost start = self@;
        proof {
            if start.sound() {
                lemma_finished_is_sound(start, request_id@, outcome, capacities@, now);
            }
        }
        let request = match self.dequeue(request_id) {
            Some(request) => request,
            None => {
                return false;
            },
        };
        let session_id: &str = request.session_id.as_str();
        self.settle(&request, outcome, now);
        if let Some(next) = self.pending_request(session_id) {
            self.admit_request(next.as_str(), capacities, now);
        }
        self.close_session(session_id);
        self.schedule_retention_expiry(session_id);
        self.request_reconcile(now);
        self.compact_arrival_order();
        self.wakeups.push_back(request_id.to_owned());
        assert(self.waiting_arrivals@ =~= self@.waiting());
        assert(self@ =~= start.finished(request_id@, outcome, capacities@, now).0);
        true
    }

    /// Take note of what became of a request.
    pub fn on_event(&mut self, event: RequestEvent, capacities: &WorkerCapacitySnapshot, now: u64) -> (known:
        bool)
        requires
            old(self).wf(),
            capacities.wf(),
        ensures
            final(self).wf(),
            (final(self)@, known) == old(self)@.after_event(event, capacities@, now),
            old(self)@.sound() ==> final(self)@.sound(),
    {
        match event {
            RequestEvent::Sent { request_id, worker } => self.sent(request_id.as_str(), worker, now),
            RequestEvent::Completed { request_id, context_tokens, acting_tokens } => {
                self.finish_request(
                    request_id.as_str(),
                    Outcome::Completed { context_tokens, acting_tokens },
                    capacities,
                    now,
                )
            },
            RequestEvent::Aborted { request_id } => self.finish_request(
                request_id.as_str(),
                Outcome::Aborted,
                capacities,
                now,
            ),
            RequestEvent::Other => false,
        }
    }

    /// The cadence of the periodic step, in nanoseconds.
    pub fn scheduler_interval(&self) -> (interval: u64)
        ensures
            interval == self@.config.scheduler_interval,
    {
        self.config.scheduler_interval
    }

    /// Whether the periodic step has anything to do: while programs are tracked.
    pub fn needs_reconcile(&self) -> (needed: bool)
        requires
            self.wf(),
        ensures
            needed == (self@.ledger.programs.len() > 0),
    {
        self.ledger.len() > 0
    }

    /// The worker that a session's program is assigned to.
    pub fn assignment(&self, session_id: &str) -> (worker: Option<WorkerWithDpRank>)
        requires
            self.wf(),
        ensures
            worker == (if self@.ledger.assignments().contains_key(session_id@) {
                Some(self@.ledger.assignments()[session_id@])
            } else {
                None
            }),
    {
        self.ledger.assignment(session_id)
    }

    /// A session's program.
    pub fn program(&self, session_id: &str) -> (program: Option<Program>)
        requires
            self.wf(),
        ensures
            program == (if self@.ledger.programs.contains_key(session_id@) {
                Some(self@.ledger.programs[session_id@])
            } else {
                None
            }),
    {
        self.ledger.get(session_id)
    }

    pub fn program_count(&self) -> (count: usize)
        requires
            self.wf(),
        ensures
            count == self@.ledger.programs.len(),
    {
        self.ledger.len()
    }

    pub fn request_count(&self) -> (count: usize)
        requires
            self.wf(),
        ensures
            count == self@.requests.len(),
    {
        self.requests.len()
    }

    /// The length of the arrival order.
    pub fn arrival_count(&self) -> (count: usize)
        ensures
            count == self@.arrivals.len(),
    {
        self.arrival_order.len()
    }

    /// The request whose waiter keeps the timer.
    pub fn timer_owner(&self) -> (owner: Option<String>)
        ensures
            name_of(owner) == self@.timer_owner,
    {
        match &self.timer_owner {
            Some(owner) => Some(owner.clone()),
            None => None,
        }
    }

    /// The worker that a request was released for.
    pub fn request_target(&self, request_id: &str) -> (target: Option<WorkerWithDpRank>)
        requires
            self.wf(),
        ensures
            target == (if self@.requests.contains_key(request_id@) {
                self@.requests[request_id@].target
            } else {
                None
            }),
    {
        match self.requests.get(request_id) {
            Some(request) => request.target,
            None => None,
        }
    }

    /// The tokens that a request's program will have if it completes with the given context: what
    /// the host weights for tool work.
    pub fn completion_tokens(&self, request_id: &str, context_tokens: Option<usize>) -> (total:
        Option<usize>)
        requires
            self.wf(),
        ensures
            total == (if !self@.requests.contains_key(request_id@) {
                None
            } else if context_tokens is Some {
                context_tokens
            } else {
                Some(self@.requests[request_id@].input_tokens)
            }),
    {
        match self.requests.get(request_id) {
            Some(request) => match context_tokens {
                Some(tokens) => Some(tokens),
                None => Some(request.input_tokens),
            },
            None => None,
        }
    }

    /// The programs between turns: name, tokens (`major`) and since when (`minor`). What the host
    /// computes decayed usage from.
    pub fn acting_programs(&self) -> (found: VecDeque<Ranked>)
        requires
            self.wf(),
        ensures
            ranks(found@) == self@.ledger.order_by(acting()),
    {
        self.ledger.acting_order()
    }

    /// The next request whose waiter is to look again.
    pub fn next_wakeup(&mut self) -> (id: Option<String>)
        requires
            old(self).wf(),
        ensures
            final(self).wf(),
            match id {
                Some(id) => old(self)@.wakeups.len() > 0 && id@ == old(self)@.wakeups[0]
                    && final(self)@ == (Model {
                    wakeups: old(self)@.wakeups.drop_first(),
                    ..old(self)@
                }),
                None => old(self)@.wakeups.len() == 0 && final(self)@ == old(self)@,
            },
            old(self)@.sound() ==> final(self)@.sound(),
    {
        let ghost start = self@;
        let id = self.wakeups.pop_front();
        assert(self.waiting_arrivals@ =~= self@.waiting());
        proof {
            if start.sound() {
                lemma_woken_is_sound(start, self@);
            }
        }
        id
    }
}

} // verus!
