//! Session-aware admission state owned by one policy queue.
use std::collections::{HashMap, VecDeque};
use vstd::hash_map::StringHashMap;
use vstd::prelude::*;

use crate::choice::{lemma_pick_next, lemma_picked, pick, picked, place_of};
use crate::policy_queue::indexed::ProgramEntry;
use crate::policy_queue::model::{
    admitting_workers, is_open, known_once, latest_reports, less_used_worker, more_spare_worker,
    one_id, open_rooms, outlived, overdue, resume_fairness, roomier, roomiest, stranded,
    taking_workers, usage_at, usage_of, usage_with, usage_without, PolicyQueueDecision,
    PolicyQueueWorker, QueueModel, QueueRequest, QueueSession, Resumption,
};
use crate::policy_queue::programs::{
    distinct, entry_names, placed_order, ProgramIndex, RequestSet, SessionSet,
};
use crate::policy_queue::soundness::{
    lemma_admitted_is_sound, lemma_dispatched_is_sound, lemma_finished_is_sound,
    lemma_fresh_is_sound, lemma_reconciled_is_sound,
};
use crate::policy_queue::workers::WorkerTable;
use crate::ranking::{ranks, Rank, Ranked};
use crate::table::Table;
use crate::thunderagent::config::ThunderAgentConfig;
use crate::thunderagent::ledger::SessionAssignments;
use crate::thunderagent::order::{Keys, ProgramOrder};
use crate::thunderagent::placement::{
    acting, fitting_rooms, goes, one_room_each, tokens_after_decay, Acting, Room,
};
use crate::thunderagent::program::{Program, ProgramLifecycle, ProgramStatus};
use crate::thunderagent::relief::OnWorker;
use crate::thunderagent::usage::WorkerUsage;
use crate::worker::{WorkerMap, WorkerWithDpRank};

verus! {

broadcast use vstd::std_specs::hash::group_hash_axioms;

struct RequestState {
    request_id: String,
    session_id: String,
    context_tokens: usize,
    dispatched: bool,
    prior: Option<Program>,
}

impl View for RequestState {
    type V = QueueRequest;

    closed spec fn view(&self) -> QueueRequest {
        QueueRequest {
            request_id: self.request_id@,
            session: self.session_id@,
            context_tokens: self.context_tokens,
            dispatched: self.dispatched,
            prior: self.prior,
        }
    }
}

impl RequestState {
    fn duplicate(&self) -> (copy: RequestState)
        ensures
            copy@ == self@,
    {
        RequestState {
            request_id: self.request_id.clone(),
            session_id: self.session_id.clone(),
            context_tokens: self.context_tokens,
            dispatched: self.dispatched,
            prior: self.prior,
        }
    }
}

struct SessionRequests {
    current: Option<u64>,
    waiting: RequestSet,
}

impl View for SessionRequests {
    type V = QueueSession;

    closed spec fn view(&self) -> QueueSession {
        QueueSession { current: self.current, waiting: self.waiting@ }
    }
}

struct Stranded<'a> {
    workers: &'a WorkerTable,
}

impl<'a> ProgramOrder for Stranded<'a> {
    closed spec fn keys(&self) -> Keys {
        stranded(self.workers@)
    }

    closed spec fn ready(&self) -> bool {
        self.workers.wf()
    }

    fn key(&self, name: &str, program: &Program) -> (key: Option<(u64, u64)>) {
        match program.assigned_worker {
            Some(worker) => match self.workers.get(&worker) {
                Some(_) => None,
                None => Some((0, 0)),
            },
            None => None,
        }
    }
}

struct Outlived<'a> {
    sessions: &'a Table<SessionRequests>,
    now: u64,
    retention: u64,
}

impl<'a> ProgramOrder for Outlived<'a> {
    closed spec fn keys(&self) -> Keys {
        outlived(self.sessions@, self.now, self.retention)
    }

    closed spec fn ready(&self) -> bool {
        true
    }

    fn key(&self, name: &str, program: &Program) -> (key: Option<(u64, u64)>) {
        match program.acting_since {
            Some(since) => if program.status == ProgramStatus::Acting
                && !self.sessions.contains_key(name) && self.now.saturating_sub(since)
                >= self.retention {
                Some((0, 0))
            } else {
                None
            },
            None => None,
        }
    }
}

struct ResumeFairness;

impl ProgramOrder for ResumeFairness {
    closed spec fn keys(&self) -> Keys {
        resume_fairness()
    }

    closed spec fn ready(&self) -> bool {
        true
    }

    fn key(&self, name: &str, program: &Program) -> (key: Option<(u64, u64)>) {
        if program.step_count <= 1 {
            Some((1, program.token_total as u64))
        } else if program.status == ProgramStatus::Reasoning {
            Some((0, program.token_total as u64))
        } else {
            Some((2, program.token_total as u64))
        }
    }
}

struct Overdue {
    now: u64,
    timeout: u64,
}

impl ProgramOrder for Overdue {
    closed spec fn keys(&self) -> Keys {
        overdue(self.now, self.timeout)
    }

    closed spec fn ready(&self) -> bool {
        true
    }

    fn key(&self, name: &str, program: &Program) -> (key: Option<(u64, u64)>) {
        match program.deferred_since {
            Some(since) => if self.now.saturating_sub(since) >= self.timeout {
                Some((0, 0))
            } else {
                None
            },
            None => None,
        }
    }
}

fn find_usage(usage: &WorkerMap<WorkerUsage>, worker: &WorkerWithDpRank) -> (found: WorkerUsage)
    ensures
        found == usage_at(usage@, *worker),
{
    match usage.get(worker) {
        Some(found) => found,
        None => WorkerUsage { used: 0, decayed: 0 },
    }
}

fn add_usage(
    usage: &mut WorkerMap<WorkerUsage>,
    worker: WorkerWithDpRank,
    name: &str,
    program: &Program,
    decays: &Table<usize>,
    buffer: usize,
)
    requires
        decays.wf(),
    ensures
        final(usage)@ == usage_with(old(usage)@, worker, name@, *program, decays@, buffer),
{
    let mut held: WorkerUsage = find_usage(usage, &worker);
    held.add_program(program.tokens(), tokens_after_decay(decays, name, program), buffer);
    usage.insert(worker, held);
}

fn take_usage(
    usage: &mut WorkerMap<WorkerUsage>,
    worker: WorkerWithDpRank,
    name: &str,
    program: &Program,
    decays: &Table<usize>,
    buffer: usize,
)
    requires
        decays.wf(),
    ensures
        final(usage)@ == usage_without(old(usage)@, worker, name@, *program, decays@, buffer),
{
    let mut held: WorkerUsage = find_usage(usage, &worker);
    held.remove_program(program.tokens(), tokens_after_decay(decays, name, program), buffer);
    usage.insert(worker, held);
}

/// The open worker that a new program of the given size goes to: the least used one that it fits
/// on.
fn find_admitting(workers: &WorkerTable, usage: &WorkerMap<WorkerUsage>, required: usize) -> (found:
    Option<usize>)
    requires
        workers.wf(),
    ensures
        place_of(found) == pick(
            workers@.len() as int,
            admitting_workers(workers@, usage@, required),
            less_used_worker(workers@, usage@),
        ),
        found matches Some(at) ==> at < workers@.len(),
{
    let ghost may = admitting_workers(workers@, usage@, required);
    let ghost better = less_used_worker(workers@, usage@);
    let mut best: Option<usize> = None;
    proof {
        workers.lemma_known_once();
    }
    let count: usize = workers.len();
    for at in 0..count
        invariant
            known_once(workers@),
            count == workers@.len(),
            may == admitting_workers(workers@, usage@, required),
            better == less_used_worker(workers@, usage@),
            picked(best, at as int, may, better),
    {
        let report: PolicyQueueWorker = workers.at(at);
        let used: usize = find_usage(usage, &report.worker).used;
        proof {
            lemma_pick_next(best, at, may, better);
        }
        let fits: bool = match report.limits {
            Some(limits) => report.available && used <= limits.capacity && limits.capacity - used
                >= required,
            None => false,
        };
        if fits {
            let replace: bool = match best {
                Some(held) => {
                    let other: WorkerWithDpRank = workers.at(held).worker;
                    let other_used: usize = find_usage(usage, &other).used;
                    used < other_used || (used == other_used && report.worker.before(&other))
                },
                None => true,
            };
            if replace {
                best = Some(at);
            }
        }
    }
    proof {
        lemma_picked(best, count as int, may, better);
    }
    best
}

/// The open worker that a forced program goes to: the one with the most capacity after decayed
/// usage.
fn find_taking(
    workers: &WorkerTable,
    usage: &WorkerMap<WorkerUsage>,
    assigned: Option<WorkerWithDpRank>,
) -> (found: Option<usize>)
    requires
        workers.wf(),
    ensures
        place_of(found) == pick(
            workers@.len() as int,
            taking_workers(workers@, assigned),
            more_spare_worker(workers@, usage@),
        ),
        found matches Some(at) ==> at < workers@.len(),
{
    let ghost may = taking_workers(workers@, assigned);
    let ghost better = more_spare_worker(workers@, usage@);
    let mut best: Option<usize> = None;
    let mut best_spare: i128 = 0;
    proof {
        workers.lemma_known_once();
    }
    let count: usize = workers.len();
    for at in 0..count
        invariant
            known_once(workers@),
            count == workers@.len(),
            may == taking_workers(workers@, assigned),
            better == more_spare_worker(workers@, usage@),
            picked(best, at as int, may, better),
            best matches Some(held) ==> best_spare == workers@[held as int].limits->0.capacity
                - usage_at(usage@, workers@[held as int].worker).decayed,
    {
        let report: PolicyQueueWorker = workers.at(at);
        proof {
            lemma_pick_next(best, at, may, better);
        }
        if let Some(limits) = report.limits {
            if report.available && goes(assigned, report.worker) {
                let spare: i128 = limits.capacity as i128 - find_usage(
                    usage,
                    &report.worker,
                ).decayed as i128;
                let replace: bool = match best {
                    Some(held) => spare > best_spare || (spare == best_spare
                        && report.worker.before(&workers.at(held).worker)),
                    None => true,
                };
                if replace {
                    best = Some(at);
                    best_spare = spare;
                }
            }
        }
    }
    proof {
        lemma_picked(best, count as int, may, better);
    }
    best
}

/// The rooms on open workers.
fn find_open_rooms(workers: &WorkerTable, usage: &WorkerMap<WorkerUsage>, buffer: usize) -> (rooms:
    Vec<Room>)
    requires
        workers.wf(),
    ensures
        rooms@ == open_rooms(workers@, usage@, buffer),
        one_room_each(rooms@),
{
    let mut rooms: Vec<Room> = Vec::new();
    let ghost mut from: Seq<int> = Seq::empty();
    proof {
        workers.lemma_known_once();
        assert(workers@.take(0) =~= Seq::<PolicyQueueWorker>::empty());
    }
    let count: usize = workers.len();
    for at in 0..count
        invariant
            known_once(workers@),
            count == workers@.len(),
            rooms@ == open_rooms(workers@.take(at as int), usage@, buffer),
            rooms@.len() == from.len(),
            forall|k: int|
                0 <= k < from.len() ==> 0 <= #[trigger] from[k] < at && rooms@[k].worker
                    == workers@[from[k]].worker,
            forall|i: int, j: int|
                0 <= i < j < from.len() ==> #[trigger] from[i] < #[trigger] from[j],
            one_room_each(rooms@),
    {
        assert(workers@.take(at + 1).drop_last() =~= workers@.take(at as int));
        let report: PolicyQueueWorker = workers.at(at);
        if let Some(limits) = report.limits {
            let available: usize = limits.resume_limit.saturating_sub(
                find_usage(usage, &report.worker).used,
            );
            if report.available && available > buffer {
                rooms.push(Room { worker: report.worker, available });
                proof {
                    from = from.push(at as int);
                    assert forall|i: int, j: int| 0 <= i < j < rooms@.len() implies (
                    #[trigger] rooms@[i]).worker != (#[trigger] rooms@[j]).worker by {
                        assert(from[i] < from[j]);
                        assert(workers@[from[i]].worker != workers@[from[j]].worker);
                    }
                }
            }
        }
    }
    assert(workers@.take(count as int) =~= workers@);
    rooms
}

/// The largest room that a program fits in.
fn find_roomiest(rooms: &Vec<Room>, required: usize, assigned: Option<WorkerWithDpRank>) -> (found:
    Option<usize>)
    requires
        one_room_each(rooms@),
    ensures
        place_of(found) == roomiest(rooms@, required, assigned),
        found matches Some(at) ==> at < rooms@.len() && required <= rooms@[at as int].available,
{
    let ghost fits = fitting_rooms(rooms@, required, assigned);
    let ghost larger = roomier(rooms@);
    let mut best: Option<usize> = None;
    for at in 0..rooms.len()
        invariant
            one_room_each(rooms@),
            fits == fitting_rooms(rooms@, required, assigned),
            larger == roomier(rooms@),
            picked(best, at as int, fits, larger),
    {
        proof {
            lemma_pick_next(best, at, fits, larger);
        }
        if goes(assigned, rooms[at].worker) && required <= rooms[at].available {
            let replace: bool = match best {
                Some(held) => rooms[at].available > rooms[held].available || (rooms[at].available
                    == rooms[held].available && rooms[at].worker.before(&rooms[held].worker)),
                None => true,
            };
            if replace {
                best = Some(at);
            }
        }
    }
    proof {
        lemma_picked(best, rooms@.len() as int, fits, larger);
    }
    best
}

/// Session-aware admission state owned by one policy queue.
pub struct ThunderAgentPolicy {
    config: ThunderAgentConfig,
    programs: ProgramIndex,
    paused: SessionSet,
    requests: HashMap<u64, RequestState>,
    request_ids: StringHashMap<u64>,
    sessions: Table<SessionRequests>,
    workers: WorkerTable,
    assignments: SessionAssignments,
    next_tick: u128,
}

/// The views of request records.
spec fn request_views(records: Map<u64, RequestState>) -> Map<u64, QueueRequest> {
    Map::new(|id: u64| records.contains_key(id), |id: u64| records[id]@)
}

impl View for ThunderAgentPolicy {
    type V = QueueModel;

    closed spec fn view(&self) -> QueueModel {
        QueueModel {
            config: self.config,
            programs: self.programs@,
            paused: self.paused@,
            requests: request_views(self.requests@),
            request_ids: self.request_ids@,
            sessions: self.sessions@,
            workers: self.workers@,
            assignments: self.assignments@,
            next_tick: self.next_tick,
        }
    }
}

impl ThunderAgentPolicy {
    pub closed spec fn wf(&self) -> bool {
        &&& distinct(self.programs@)
        &&& self.sessions.wf()
        &&& self.workers.wf()
        &&& self.assignments.wf()
    }

    pub fn new(config: ThunderAgentConfig, now: u64) -> (policy: Self)
        ensures
            policy.wf(),
            policy@ == QueueModel::fresh(config, now),
            policy@.sound(),
    {
        proof {
            lemma_fresh_is_sound(config, now);
        }
        let none: Vec<PolicyQueueWorker> = Vec::new();
        let policy = ThunderAgentPolicy {
            config,
            programs: ProgramIndex::new(),
            paused: SessionSet::new(),
            requests: HashMap::new(),
            request_ids: StringHashMap::new(),
            sessions: Table::new(),
            workers: WorkerTable::new(&none),
            assignments: SessionAssignments::new(),
            next_tick: now as u128 + config.scheduler_interval as u128,
        };
        assert(policy@ =~= QueueModel::fresh(config, now));
        policy
    }

    fn set_assignment(&mut self, session_id: &str, worker: Option<WorkerWithDpRank>)
        requires
            old(self).wf(),
        ensures
            final(self).wf(),
            final(self)@ == old(self)@.assigned(session_id@, worker),
    {
        let ghost start = self@;
        if let Some(program) = self.programs.get(session_id) {
            self.programs.insert(session_id, Program { assigned_worker: worker, ..program });
        }
        self.assignments.set(session_id, worker);
        assert(self@ =~= start.assigned(session_id@, worker));
    }

    fn defer_request(&mut self, session_id: &str, now: u64, preserve_assignment: bool)
        requires
            old(self).wf(),
        ensures
            final(self).wf(),
            final(self)@ == old(self)@.deferred(session_id@, now, preserve_assignment),
    {
        let ghost start = self@;
        if let Some(program) = self.programs.get(session_id) {
            self.programs.insert(
                session_id,
                Program {
                    lifecycle: ProgramLifecycle::Paused,
                    deferred_since: Some(now),
                    ..program
                },
            );
            assert(self@ =~= start.with_programs(self@.programs));
            if !preserve_assignment {
                self.set_assignment(session_id, None);
            }
            self.paused.insert(session_id);
            assert(self@ =~= start.deferred(session_id@, now, preserve_assignment));
        }
    }

    fn pause_acting(&mut self, session_id: &str)
        requires
            old(self).wf(),
        ensures
            final(self).wf(),
            final(self)@ == old(self)@.acting_paused(session_id@),
    {
        let ghost start = self@;
        if let Some(program) = self.programs.get(session_id) {
            if program.lifecycle == ProgramLifecycle::Active && program.status
                == ProgramStatus::Acting {
                self.programs.insert(
                    session_id,
                    Program { lifecycle: ProgramLifecycle::Paused, ..program },
                );
                assert(self@ =~= start.with_programs(self@.programs));
                self.set_assignment(session_id, None);
                self.paused.insert(session_id);
                assert(self@ =~= start.acting_paused(session_id@));
            }
        }
    }

    /// Let a paused program run on the given worker. The result is the request that it deferred.
    fn resume_program(&mut self, session_id: &str, worker: Option<WorkerWithDpRank>) -> (ready: Option<
        u64,
    >)
        requires
            old(self).wf(),
        ensures
            final(self).wf(),
            (final(self)@, one_id(ready)) == old(self)@.resumed(session_id@, worker),
    {
        let ghost start = self@;
        let program = match self.programs.get(session_id) {
            Some(program) => program,
            None => {
                return None;
            },
        };
        if program.lifecycle != ProgramLifecycle::Paused {
            return None;
        }
        let current: Option<u64> = match self.sessions.get(session_id) {
            Some(session) => session.current,
            None => None,
        };
        self.programs.insert(
            session_id,
            Program { lifecycle: ProgramLifecycle::Active, deferred_since: None, ..program },
        );
        assert(self@ =~= start.with_programs(self@.programs));
        self.set_assignment(session_id, worker);
        self.paused.remove(session_id);
        assert(self@ =~= start.resumed(session_id@, worker).0);
        if program.deferred_since.is_some() {
            current
        } else {
            None
        }
    }

    /// Take note of the workers, and take programs off those that are gone.
    fn update_workers(&mut self, workers: &Vec<PolicyQueueWorker>)
        requires
            old(self).wf(),
        ensures
            final(self).wf(),
            final(self)@ == old(self)@.workers_updated(workers@),
    {
        let ghost before = self@;
        self.workers = WorkerTable::new(workers);
        let order = self.programs.ordered(&Stranded { workers: &self.workers });
        let ghost all = ranks(order@);
        let ghost start = self@;
        assert(start =~= (QueueModel { workers: self.workers@, ..before }));
        let count: usize = order.len();
        assert(all.skip(0) =~= all);
        for at in 0..count
            invariant
                self.wf(),
                all == ranks(order@),
                count == order@.len(),
                self@.unassigned(all.skip(at as int)) == start.unassigned(all),
        {
            assert(all.skip(at as int).drop_first() =~= all.skip(at + 1));
            assert(all.skip(at as int)[0] == order@[at as int]@);
            self.set_assignment(order[at].name.as_str(), None);
        }
    }

    /// Take a session's program out of the table.
    fn drop_program(&mut self, session_id: &str)
        requires
            old(self).wf(),
        ensures
            final(self).wf(),
            final(self)@ == old(self)@.without(session_id@),
    {
        let ghost start = self@;
        self.programs.remove(session_id);
        self.paused.remove(session_id);
        self.assignments.set(session_id, None);
        assert(self@ =~= start.without(session_id@));
    }

    /// Drop programs whose retention has ended.
    fn expire_retained_programs(&mut self, now: u64)
        requires
            old(self).wf(),
        ensures
            final(self).wf(),
            final(self)@ == old(self)@.programs_expired(now),
    {
        let retention: u64 = self.config.session_retention;
        let order = self.programs.ordered(&Outlived { sessions: &self.sessions, now, retention });
        let ghost all = ranks(order@);
        let ghost start = self@;
        let count: usize = order.len();
        assert(all.skip(0) =~= all);
        for at in 0..count
            invariant
                self.wf(),
                all == ranks(order@),
                count == order@.len(),
                self@.without_all(all.skip(at as int)) == start.without_all(all),
        {
            assert(all.skip(at as int).drop_first() =~= all.skip(at + 1));
            assert(all.skip(at as int)[0] == order@[at as int]@);
            self.drop_program(order[at].name.as_str());
        }
    }

    /// What running programs hold on their workers.
    fn worker_usage(&self, decays: &Table<usize>) -> (usage: WorkerMap<WorkerUsage>)
        requires
            decays.wf(),
        ensures
            usage@ == usage_of(self@.programs, decays@, self@.config.buffer_per_program),
    {
        let buffer: usize = self.config.buffer_per_program;
        let mut usage: WorkerMap<WorkerUsage> = WorkerMap::new();
        let count: usize = self.programs.len();
        assert(self.programs@.take(0) =~= Seq::<ProgramEntry>::empty());
        for at in 0..count
            invariant
                decays.wf(),
                count == self.programs@.len(),
                usage@ == usage_of(self.programs@.take(at as int), decays@, buffer),
        {
            assert(self.programs@.take(at + 1).drop_last() =~= self.programs@.take(at as int));
            if let Some((name, program)) = self.programs.entry(at) {
                if program.lifecycle == ProgramLifecycle::Active {
                    if let Some(worker) = program.assigned_worker {
                        add_usage(&mut usage, worker, name.as_str(), program, decays, buffer);
                    }
                }
            }
        }
        assert(self.programs@.take(count as int) =~= self.programs@);
        usage
    }

    /// Whether a worker is open.
    fn has_open_worker(&self) -> (open: bool)
        ensures
            open == self@.has_open_worker(),
    {
        let count: usize = self.workers.len();
        for at in 0..count
            invariant
                count == self.workers@.len(),
                forall|k: int| 0 <= k < at ==> !is_open(#[trigger] self@.workers[k]),
        {
            let worker: PolicyQueueWorker = self.workers.at(at);
            if worker.available && worker.limits.is_some() {
                assert(is_open(self@.workers[at as int]));
                return true;
            }
        }
        false
    }

    /// Whether a worker is available.
    fn any_available(&self) -> (available: bool)
        ensures
            available == self@.any_available(),
    {
        let count: usize = self.workers.len();
        for at in 0..count
            invariant
                count == self.workers@.len(),
                forall|k: int| 0 <= k < at ==> !(#[trigger] self@.workers[k]).available,
        {
            if self.workers.at(at).available {
                assert(self@.workers[at as int].available);
                return true;
            }
        }
        false
    }

    /// The worker for a new program of the given size.
    fn find_admission_worker(&self, required: usize) -> (found: Option<WorkerWithDpRank>)
        requires
            self.wf(),
        ensures
            found == self@.admission_worker(required),
    {
        let none: Table<usize> = Table::new();
        let usage = self.worker_usage(&none);
        match find_admitting(&self.workers, &usage, required) {
            Some(at) => Some(self.workers.at(at).worker),
            None => None,
        }
    }

    /// Begin a tracked request's turn in the program table.
    fn begin(&mut self, id: u64) -> (known: bool)
        requires
            old(self).wf(),
        ensures
            final(self).wf(),
            known == old(self)@.requests.contains_key(id),
            final(self)@ == (if known {
                old(self)@.begun(id)
            } else {
                old(self)@
            }),
    {
        let ghost start = self@;
        let request = match self.requests.get(&id) {
            Some(request) => request.duplicate(),
            None => {
                return false;
            },
        };
        let session_id: &str = request.session_id.as_str();
        let prior = self.programs.get(session_id);
        self.requests.insert(id, RequestState { prior, ..request.duplicate() });
        let waiting = match self.sessions.remove(session_id) {
            Some(session) => session.waiting,
            None => RequestSet::new(),
        };
        self.sessions.insert(session_id.to_owned(), SessionRequests { current: Some(id), waiting });
        let program = match prior {
            Some(program) => Program {
                status: ProgramStatus::Reasoning,
                token_total: if request.context_tokens > 0 {
                    request.context_tokens
                } else {
                    program.token_total
                },
                step_count: program.step_count.saturating_add(1),
                acting_since: None,
                ..program
            },
            None => Program::new(request.context_tokens),
        };
        self.programs.insert(session_id, program);
        assert(self@.sessions[session_id@] =~= start.begun(id).sessions[session_id@]);
        assert(self@ =~= start.begun(id));
        true
    }

    /// Place or defer a program without a worker.
    fn place(&mut self, session_id: &str, context_tokens: usize, was_new: bool, now: u64) -> (decision:
        PolicyQueueDecision)
        requires
            old(self).wf(),
        ensures
            final(self).wf(),
            (final(self)@, decision) == old(self)@.placed(
                session_id@,
                context_tokens,
                was_new,
                now,
            ),
    {
        if was_new && self.paused.len() > 0 {
            self.defer_request(session_id, now, false);
            return PolicyQueueDecision::Defer;
        }
        if !self.has_open_worker() {
            return PolicyQueueDecision::Ready;
        }
        let required: usize = context_tokens.saturating_add(self.config.buffer_per_program);
        match self.find_admission_worker(required) {
            Some(worker) => {
                self.set_assignment(session_id, Some(worker));
                PolicyQueueDecision::Ready
            },
            None => {
                self.defer_request(session_id, now, false);
                PolicyQueueDecision::Defer
            },
        }
    }

    /// Give a request its turn.
    fn begin_request(&mut self, id: u64, now: u64) -> (decision: PolicyQueueDecision)
        requires
            old(self).wf(),
        ensures
            final(self).wf(),
            (final(self)@, decision) == old(self)@.turn_taken(id, now),
    {
        if !self.begin(id) {
            return PolicyQueueDecision::Defer;
        }
        assert(self@.requests.contains_key(id));
        let request = match self.requests.get(&id) {
            Some(request) => request.duplicate(),
            None => {
                return PolicyQueueDecision::Defer;
            },
        };
        let session_id: &str = request.session_id.as_str();
        let was_new: bool = request.prior.is_none();
        let program = match self.programs.get(session_id) {
            Some(program) => program,
            None => {
                return PolicyQueueDecision::Defer;
            },
        };
        if program.lifecycle == ProgramLifecycle::Paused {
            self.defer_request(session_id, now, false);
            return PolicyQueueDecision::Defer;
        }
        if let Some(worker) = program.assigned_worker {
            match self.workers.get(&worker) {
                Some(report) => {
                    if report.available {
                        return PolicyQueueDecision::Ready;
                    }
                    self.defer_request(session_id, now, true);
                    return PolicyQueueDecision::Defer;
                },
                None => {
                    self.set_assignment(session_id, None);
                },
            }
        }
        self.place(session_id, request.context_tokens, was_new, now)
    }

    /// Decide on a request that arrives.
    pub fn admit_request(
        &mut self,
        id: u64,
        request_id: &str,
        session_id: Option<&str>,
        context_tokens: usize,
        workers: &Vec<PolicyQueueWorker>,
        now: u64,
    ) -> (decision: PolicyQueueDecision)
        requires
            old(self).wf(),
        ensures
            final(self).wf(),
            (final(self)@, decision) == old(self)@.admitted(
                id,
                request_id@,
                match session_id {
                    Some(session_id) => Some(session_id@),
                    None => None,
                },
                context_tokens,
                workers@,
                now,
            ),
            old(self)@.sound() && !old(self)@.requests.contains_key(id) ==> final(self)@.sound(),
    {
        proof {
            if self@.sound() && !self@.requests.contains_key(id) {
                lemma_admitted_is_sound(
                    self@,
                    id,
                    request_id@,
                    match session_id {
                        Some(session_id) => Some(session_id@),
                        None => None,
                    },
                    context_tokens,
                    workers@,
                    now,
                );
            }
        }
        let session_id: &str = match session_id {
            Some(session_id) => session_id,
            None => {
                return PolicyQueueDecision::Bypass;
            },
        };
        if self.request_ids.contains_key(request_id) {
            return PolicyQueueDecision::Bypass;
        }
        let busy: bool = match self.sessions.get(session_id) {
            Some(session) => session.current.is_some(),
            None => false,
        };
        let ghost before = self@;
        self.update_workers(workers);
        let ghost seen = self@;
        proof {
            lemma_sessions_kept(before, workers@);
        }
        self.requests.insert(
            id,
            RequestState {
                request_id: request_id.to_owned(),
                session_id: session_id.to_owned(),
                context_tokens,
                dispatched: false,
                prior: None,
            },
        );
        self.request_ids.insert(request_id.to_owned(), id);
        assert(self@ =~= seen.noted(id, request_id@, session_id@, context_tokens));
        let ghost noted = self@;
        if busy {
            if let Some(mut session) = self.sessions.remove(session_id) {
                session.waiting.insert(id);
                self.sessions.insert(session_id.to_owned(), session);
            }
            assert(self@.sessions[session_id@] =~= noted.queued(
                id,
                session_id@,
            ).sessions[session_id@]);
            assert(self@ =~= noted.queued(id, session_id@));
            return PolicyQueueDecision::Defer;
        }
        self.begin_request(id, now)
    }

    /// Whether it is a tracked request's turn.
    fn is_current(&self, id: u64, session_id: &str) -> (current: bool)
        requires
            self.wf(),
            self@.requests.contains_key(id),
            self@.requests[id].session == session_id@,
        ensures
            current == self@.is_current(id),
    {
        match self.sessions.get(session_id) {
            Some(session) => session.current == Some(id),
            None => false,
        }
    }

    /// Take note of the worker that a request was dispatched to.
    pub fn dispatched(&mut self, id: u64, worker: WorkerWithDpRank)
        requires
            old(self).wf(),
        ensures
            final(self).wf(),
            final(self)@ == old(self)@.dispatched(id, worker),
            old(self)@.sound() ==> final(self)@.sound(),
    {
        proof {
            if self@.sound() {
                lemma_dispatched_is_sound(self@, id, worker);
            }
        }
        let ghost start = self@;
        let request = match self.requests.get(&id) {
            Some(request) => request.duplicate(),
            None => {
                return ;
            },
        };
        let session_id: &str = request.session_id.as_str();
        if !self.is_current(id, session_id) {
            return ;
        }
        self.requests.insert(id, RequestState { dispatched: true, ..request.duplicate() });
        assert(self@ =~= (QueueModel {
            requests: start.requests.insert(
                id,
                QueueRequest { dispatched: true, ..start.requests[id] },
            ),
            ..start
        }));
        self.set_assignment(session_id, Some(worker));
    }

    /// End a turn in the program table.
    fn settle(
        &mut self,
        request: &RequestState,
        completed: bool,
        context_tokens: Option<usize>,
        acting_tokens: usize,
        now: u64,
    )
        requires
            old(self).wf(),
        ensures
            final(self).wf(),
            final(self)@ == old(self)@.settled(
                request@,
                completed,
                context_tokens,
                acting_tokens,
                now,
            ),
    {
        let ghost start = self@;
        let session_id: &str = request.session_id.as_str();
        if !request.dispatched || !completed {
            match request.prior {
                Some(prior) => {
                    self.programs.insert(session_id, prior);
                    self.assignments.set(session_id, prior.assigned_worker);
                    if prior.lifecycle == ProgramLifecycle::Paused {
                        self.paused.insert(session_id);
                    } else {
                        self.paused.remove(session_id);
                    }
                    assert(self@ =~= start.settled(
                        request@,
                        completed,
                        context_tokens,
                        acting_tokens,
                        now,
                    ));
                },
                None => self.drop_program(session_id),
            }
        } else if let Some(program) = self.programs.get(session_id) {
            let token_total: usize = match context_tokens {
                Some(tokens) => tokens,
                None => request.context_tokens,
            };
            self.programs.insert(
                session_id,
                Program {
                    status: ProgramStatus::Acting,
                    token_total,
                    acting_tokens,
                    acting_since: Some(now),
                    deferred_since: None,
                    marked_for_pause: false,
                    ..program
                },
            );
            assert(self@ =~= start.with_programs(self@.programs));
            if program.marked_for_pause {
                self.pause_acting(session_id);
            }
        }
    }

    /// Give the session's next request its turn. The result is that request, if it is ready.
    fn promote_next(&mut self, session_id: &str, now: u64) -> (ready: Option<u64>)
        requires
            old(self).wf(),
        ensures
            final(self).wf(),
            (final(self)@, one_id(ready)) == old(self)@.promoted(session_id@, now),
    {
        let ghost start = self@;
        if let Some(mut session) = self.sessions.remove(session_id) {
            if let Some(id) = session.waiting.take_first() {
                self.sessions.insert(session_id.to_owned(), session);
                let ghost shorter = QueueModel {
                    sessions: start.sessions.insert(
                        session_id@,
                        QueueSession {
                            waiting: start.sessions[session_id@].waiting.remove(0),
                            ..start.sessions[session_id@]
                        },
                    ),
                    ..start
                };
                assert(self@.sessions[session_id@] =~= shorter.sessions[session_id@]);
                assert(self@ =~= shorter);
                return match self.begin_request(id, now) {
                    PolicyQueueDecision::Ready => Some(id),
                    _ => None,
                };
            }
        }
        assert(self@ =~= start.promoted(session_id@, now).0);
        None
    }

    /// End a tracked request. The result is a request that is ready now.
    pub fn finish_by_request_id(
        &mut self,
        request_id: &str,
        completed: bool,
        context_tokens: Option<usize>,
        acting_tokens: usize,
        now: u64,
    ) -> (ready: Option<u64>)
        requires
            old(self).wf(),
        ensures
            final(self).wf(),
            (final(self)@, one_id(ready)) == old(self)@.finished(
                request_id@,
                completed,
                context_tokens,
                acting_tokens,
                now,
            ),
            old(self)@.sound() ==> final(self)@.sound(),
    {
        proof {
            if self@.sound() {
                lemma_finished_is_sound(
                    self@,
                    request_id@,
                    completed,
                    context_tokens,
                    acting_tokens,
                    now,
                );
            }
        }
        let ghost start = self@;
        let id: u64 = match self.request_ids.get(request_id) {
            Some(id) => *id,
            None => {
                return None;
            },
        };
        self.request_ids.remove(request_id);
        let ghost released = QueueModel {
            request_ids: start.request_ids.remove(request_id@),
            ..start
        };
        assert(self@ =~= released);
        let request = match self.requests.get(&id) {
            Some(request) => request.duplicate(),
            None => {
                return None;
            },
        };
        let session_id: &str = request.session_id.as_str();
        let current: bool = self.is_current(id, session_id);
        self.requests.remove(&id);
        let ghost left = QueueModel { requests: start.requests.remove(id), ..released };
        assert(self@ =~= left);
        if !current {
            if let Some(mut session) = self.sessions.remove(session_id) {
                session.waiting.remove(id);
                self.sessions.insert(session_id.to_owned(), session);
                assert(self@.sessions[session_id@] =~= left.unqueued(
                    id,
                    session_id@,
                ).sessions[session_id@]);
            }
            assert(self@ =~= left.unqueued(id, session_id@));
            return None;
        }
        if let Some(session) = self.sessions.remove(session_id) {
            self.sessions.insert(
                session_id.to_owned(),
                SessionRequests { current: None, waiting: session.waiting },
            );
        }
        if let Some(program) = self.programs.get(session_id) {
            self.programs.insert(session_id, Program { deferred_since: None, ..program });
        }
        assert(self@.sessions[session_id@] =~= left.vacated(session_id@).sessions[session_id@]);
        assert(self@ =~= left.vacated(session_id@));
        self.settle(&request, completed, context_tokens, acting_tokens, now);
        self.promote_next(session_id, now)
    }

    /// Resume paused programs in fairness order as far as there is room.
    fn greedy_resume(
        &mut self,
        decays: &Table<usize>,
        usage: &mut WorkerMap<WorkerUsage>,
        ready: &mut Vec<u64>,
    )
        requires
            old(self).wf(),
            decays.wf(),
        ensures
            final(self).wf(),
            final(ready)@.len() >= old(ready)@.len(),
            final(ready)@.take(old(ready)@.len() as int) == old(ready)@,
            (Resumption {
                model: final(self)@,
                usage: final(usage)@,
                ready: final(ready)@.skip(old(ready)@.len() as int),
            }) == old(self)@.programs_resumed(decays@, old(usage)@),
    {
        let buffer: usize = self.config.buffer_per_program;
        let mut rooms = find_open_rooms(&self.workers, usage, buffer);
        let order = self.paused.ordered(&self.programs, &ResumeFairness);
        let ghost all = ranks(order@);
        let ghost had = ready@;
        let ghost whole = self@.packed(rooms@, decays@, usage@, all);
        let count: usize = order.len();
        assert(all.skip(0) =~= all);
        assert(ready@.skip(had.len() as int) =~= Seq::<u64>::empty());
        assert(ready@.take(had.len() as int) =~= had);
        assert(ready@.skip(had.len() as int) + whole.ready =~= whole.ready);
        for at in 0..count
            invariant
                self.wf(),
                decays.wf(),
                one_room_each(rooms@),
                all == ranks(order@),
                count == all.len(),
                ready@.len() >= had.len(),
                ready@.take(had.len() as int) == had,
                ({
                    let rest = self@.packed(rooms@, decays@, usage@, all.skip(at as int));
                    whole == (Resumption {
                        ready: ready@.skip(had.len() as int) + rest.ready,
                        ..rest
                    })
                }),
        {
            assert(all.skip(at as int).drop_first() =~= all.skip(at + 1));
            assert(all.skip(at as int)[0] == order@[at as int]@);
            let name: &str = order[at].name.as_str();
            let ghost so_far = ready@.skip(had.len() as int);
            let ghost before = ready@;
            let ghost was = self@.packed(rooms@, decays@, usage@, all.skip(at as int));
            if let Some(program) = self.programs.get(name) {
                let buffer: usize = self.config.buffer_per_program;
                let required: usize = program.token_total.saturating_add(buffer);
                if let Some(seat) = find_roomiest(&rooms, required, program.assigned_worker) {
                    let room: Room = rooms[seat];
                    let woken = self.resume_program(name, Some(room.worker));
                    if let Some(id) = woken {
                        ready.push(id);
                    }
                    proof {
                        lemma_extended(before, had, woken);
                    }
                    if let Some(program) = self.programs.get(name) {
                        let buffer: usize = self.config.buffer_per_program;
                        add_usage(usage, room.worker, name, &program, decays, buffer);
                    }
                    let ghost had_rooms = rooms@;
                    rooms.set(seat, Room { available: room.available - required, ..room });
                    assert forall|i: int, j: int| 0 <= i < j < rooms@.len() implies (
                    #[trigger] rooms@[i]).worker != (#[trigger] rooms@[j]).worker by {
                        assert(had_rooms[i].worker != had_rooms[j].worker);
                    }
                    let ghost later = self@.packed(rooms@, decays@, usage@, all.skip(at + 1));
                    assert(was.ready =~= one_id(woken) + later.ready);
                    assert(so_far + was.ready =~= ready@.skip(had.len() as int) + later.ready);
                }
            }
        }
        assert(ready@.skip(had.len() as int) + Seq::<u64>::empty() =~= ready@.skip(
            had.len() as int,
        ));
    }

    /// Force programs to run that have been deferred too long.
    fn force_timed_out(
        &mut self,
        decays: &Table<usize>,
        usage: &mut WorkerMap<WorkerUsage>,
        now: u64,
        ready: &mut Vec<u64>,
    )
        requires
            old(self).wf(),
            decays.wf(),
        ensures
            final(self).wf(),
            final(ready)@.len() >= old(ready)@.len(),
            final(ready)@.take(old(ready)@.len() as int) == old(ready)@,
            (Resumption {
                model: final(self)@,
                usage: final(usage)@,
                ready: final(ready)@.skip(old(ready)@.len() as int),
            }) == old(self)@.forced(
                decays@,
                old(usage)@,
                placed_order(
                    old(self)@.paused,
                    old(self)@.programs,
                    overdue(now, old(self)@.config.resume_timeout),
                ),
            ),
    {
        let timeout: u64 = self.config.resume_timeout;
        let order = self.paused.ordered(&self.programs, &Overdue { now, timeout });
        let ghost all = ranks(order@);
        let ghost had = ready@;
        let ghost whole = self@.forced(decays@, usage@, all);
        let count: usize = order.len();
        assert(all.skip(0) =~= all);
        assert(ready@.skip(had.len() as int) =~= Seq::<u64>::empty());
        assert(ready@.take(had.len() as int) =~= had);
        assert(ready@.skip(had.len() as int) + whole.ready =~= whole.ready);
        for at in 0..count
            invariant
                self.wf(),
                decays.wf(),
                all == ranks(order@),
                count == all.len(),
                ready@.len() >= had.len(),
                ready@.take(had.len() as int) == had,
                ({
                    let rest = self@.forced(decays@, usage@, all.skip(at as int));
                    whole == (Resumption {
                        ready: ready@.skip(had.len() as int) + rest.ready,
                        ..rest
                    })
                }),
        {
            assert(all.skip(at as int).drop_first() =~= all.skip(at + 1));
            assert(all.skip(at as int)[0] == order@[at as int]@);
            let name: &str = order[at].name.as_str();
            let ghost so_far = ready@.skip(had.len() as int);
            let ghost before = ready@;
            let ghost was = self@.forced(decays@, usage@, all.skip(at as int));
            if let Some(program) = self.programs.get(name) {
                let target: Option<WorkerWithDpRank> = match find_taking(
                    &self.workers,
                    usage,
                    program.assigned_worker,
                ) {
                    Some(at) => Some(self.workers.at(at).worker),
                    None => None,
                };
                if target.is_some() || self.any_available() {
                    let woken = self.resume_program(name, target);
                    if let Some(id) = woken {
                        ready.push(id);
                    }
                    proof {
                        lemma_extended(before, had, woken);
                    }
                    if let Some(worker) = target {
                        if let Some(program) = self.programs.get(name) {
                            let buffer: usize = self.config.buffer_per_program;
                            add_usage(usage, worker, name, &program, decays, buffer);
                        }
                    }
                    let ghost later = self@.forced(decays@, usage@, all.skip(at + 1));
                    assert(was.ready =~= one_id(woken) + later.ready);
                    assert(so_far + was.ready =~= ready@.skip(had.len() as int) + later.ready);
                }
            }
        }
        assert(ready@.skip(had.len() as int) + Seq::<u64>::empty() =~= ready@.skip(
            had.len() as int,
        ));
    }

    fn drain(
        &mut self,
        worker: WorkerWithDpRank,
        goal: usize,
        decays: &Table<usize>,
        usage: &mut WorkerMap<WorkerUsage>,
        order: &VecDeque<Ranked>,
    )
        requires
            old(self).wf(),
            decays.wf(),
        ensures
            final(self).wf(),
            (final(self)@, final(usage)@) == old(self)@.drained(
                worker,
                goal,
                decays@,
                old(usage)@,
                ranks(order@),
            ),
    {
        let ghost all = ranks(order@);
        let ghost whole = self@.drained(worker, goal, decays@, usage@, all);
        let mut at: usize = 0;
        assert(all.skip(0) =~= all);
        while at < order.len() && find_usage(usage, &worker).used > goal
            invariant
                self.wf(),
                decays.wf(),
                at <= order@.len(),
                all == ranks(order@),
                whole == self@.drained(worker, goal, decays@, usage@, all.skip(at as int)),
            decreases order@.len() - at,
        {
            assert(all.skip(at as int).drop_first() =~= all.skip(at + 1));
            assert(all.skip(at as int)[0] == order@[at as int]@);
            let name: &str = order[at].name.as_str();
            if let Some(program) = self.programs.get(name) {
                let buffer: usize = self.config.buffer_per_program;
                self.pause_acting(name);
                take_usage(usage, worker, name, &program, decays, buffer);
            }
            at = at + 1;
        }
    }

    fn mark(&mut self, order: &VecDeque<Ranked>)
        requires
            old(self).wf(),
        ensures
            final(self).wf(),
            final(self)@ == old(self)@.marked(ranks(order@)),
    {
        let ghost all = ranks(order@);
        let ghost whole = self@.marked(all);
        let count: usize = order.len();
        assert(all.skip(0) =~= all);
        for at in 0..count
            invariant
                self.wf(),
                all == ranks(order@),
                count == all.len(),
                whole == self@.marked(all.skip(at as int)),
        {
            assert(all.skip(at as int).drop_first() =~= all.skip(at + 1));
            assert(all.skip(at as int)[0] == order@[at as int]@);
            let ghost before = self@;
            let name: &str = order[at].name.as_str();
            if let Some(program) = self.programs.get(name) {
                self.programs.insert(name, Program { marked_for_pause: true, ..program });
                assert(self@ =~= before.with_programs(self@.programs));
            }
        }
    }

    fn relieve(
        &mut self,
        worker: PolicyQueueWorker,
        decays: &Table<usize>,
        usage: &mut WorkerMap<WorkerUsage>,
    )
        requires
            old(self).wf(),
            decays.wf(),
        ensures
            final(self).wf(),
            (final(self)@, final(usage)@) == old(self)@.relieved(worker, decays@, old(usage)@),
    {
        let limits = match worker.limits {
            Some(limits) => limits,
            None => {
                return ;
            },
        };
        if !worker.available || find_usage(usage, &worker.worker).used <= limits.pause_limit {
            return ;
        }
        let acting = self.programs.ordered(
            &OnWorker { worker: worker.worker, status: ProgramStatus::Acting },
        );
        let reasoning = self.programs.ordered(
            &OnWorker { worker: worker.worker, status: ProgramStatus::Reasoning },
        );
        self.drain(worker.worker, limits.pause_goal, decays, usage, &acting);
        if find_usage(usage, &worker.worker).used > limits.pause_goal {
            self.mark(&reasoning);
        }
    }

    /// Relieve every open worker that is above its pause limit.
    fn pause_until_safe(&mut self, decays: &Table<usize>, usage: &mut WorkerMap<WorkerUsage>)
        requires
            old(self).wf(),
            decays.wf(),
        ensures
            final(self).wf(),
            final(self)@ == old(self)@.all_relieved(old(self)@.workers, decays@, old(usage)@),
    {
        let ghost all = self@.workers;
        let ghost whole = self@.all_relieved(all, decays@, usage@);
        let mut reports: Vec<PolicyQueueWorker> = Vec::new();
        let count: usize = self.workers.len();
        for at in 0..count
            invariant
                all == self.workers@,
                count == all.len(),
                reports@ == all.take(at as int),
        {
            reports.push(self.workers.at(at));
            assert(reports@ =~= all.take(at + 1));
        }
        assert(all.take(count as int) =~= all);
        assert(all.skip(0) =~= all);
        for at in 0..count
            invariant
                self.wf(),
                decays.wf(),
                reports@ == all,
                count == all.len(),
                whole == self@.all_relieved(all.skip(at as int), decays@, usage@),
        {
            assert(all.skip(at as int).drop_first() =~= all.skip(at + 1));
            self.relieve(reports[at], decays, usage);
        }
    }

    /// The periodic step, once it is due. The requests that are ready now join `ready`.
    ///
    /// `decays` gives the tokens of programs between turns when their usage decays; a program that
    /// it leaves out does not decay.
    pub fn reconcile(
        &mut self,
        workers: &Vec<PolicyQueueWorker>,
        decays: &Table<usize>,
        now: u64,
        ready: &mut Vec<u64>,
    )
        requires
            old(self).wf(),
            decays.wf(),
        ensures
            final(self).wf(),
            final(self)@ == old(self)@.reconciled(workers@, decays@, now).0,
            final(ready)@ == old(ready)@ + old(self)@.reconciled(workers@, decays@, now).1,
            old(self)@.sound() ==> final(self)@.sound(),
    {
        proof {
            if self@.sound() {
                lemma_reconciled_is_sound(self@, workers@, decays@, now);
            }
        }
        let ghost start = self@;
        let ghost had = ready@;
        let due: bool = now as u128 >= self.next_tick;
        self.update_workers(workers);
        if !due {
            assert(ready@ =~= had + Seq::<u64>::empty());
            return ;
        }
        let ghost seen = self@;
        proof {
            lemma_workers_updated_config(start, workers@);
        }
        self.next_tick = now as u128 + self.config.scheduler_interval as u128;
        assert(self@ =~= (QueueModel {
            next_tick: (now + start.config.scheduler_interval) as u128,
            ..seen
        }));
        self.expire_retained_programs(now);
        let mut usage = self.worker_usage(decays);
        self.greedy_resume(decays, &mut usage, ready);
        let ghost resumed = ready@;
        self.force_timed_out(decays, &mut usage, now, ready);
        self.pause_until_safe(decays, &mut usage);
        proof {
            let first = resumed.skip(had.len() as int);
            let second = ready@.skip(resumed.len() as int);
            assert(resumed =~= had + first);
            assert(ready@ =~= resumed + second);
            assert(ready@ =~= had + (first + second));
        }
    }

    /// Take note of what happened. The requests that are ready now join `ready`.
    pub fn on_event(
        &mut self,
        event: PolicyQueueEvent,
        decays: &Table<usize>,
        now: u64,
        ready: &mut Vec<u64>,
    )
        requires
            old(self).wf(),
            decays.wf(),
        ensures
            final(self).wf(),
            final(self)@ == old(self)@.after_event(event, decays@, now).0,
            final(ready)@ == old(ready)@ + old(self)@.after_event(event, decays@, now).1,
            old(self)@.sound() ==> final(self)@.sound(),
    {
        let ghost had = ready@;
        match event {
            PolicyQueueEvent::Dispatched { id, worker } => {
                self.dispatched(id, worker);
                assert(ready@ =~= had + Seq::<u64>::empty());
            },
            PolicyQueueEvent::Completed { request_id, context_tokens, acting_tokens } => {
                let next = self.finish_by_request_id(
                    request_id.as_str(),
                    true,
                    context_tokens,
                    acting_tokens,
                    now,
                );
                if let Some(id) = next {
                    ready.push(id);
                }
                assert(ready@ =~= had + one_id(next));
            },
            PolicyQueueEvent::Aborted { request_id } => {
                let next = self.finish_by_request_id(request_id.as_str(), false, None, 0, now);
                if let Some(id) = next {
                    ready.push(id);
                }
                assert(ready@ =~= had + one_id(next));
            },
            PolicyQueueEvent::Reconcile { workers } => {
                self.reconcile(&workers, decays, now, ready);
            },
            PolicyQueueEvent::Other => {
                assert(ready@ =~= had + Seq::<u64>::empty());
            },
        }
    }

    /// A session's program.
    pub fn program(&self, session_id: &str) -> (program: Option<Program>)
        ensures
            program == self@.program(session_id@),
    {
        self.programs.get(session_id)
    }

    pub fn program_count(&self) -> (count: usize)
        ensures
            count == self@.programs.len(),
    {
        self.programs.len()
    }

    /// The worker that a session is assigned to.
    pub fn assignment(&self, session_id: &str) -> (worker: Option<WorkerWithDpRank>)
        requires
            self.wf(),
        ensures
            worker == (if self@.assignments.contains_key(session_id@) {
                Some(self@.assignments[session_id@])
            } else {
                None
            }),
    {
        self.assignments.get(session_id)
    }

    /// The number of tracked requests.
    pub fn request_count(&self) -> (count: usize)
        ensures
            count == self@.requests.len(),
    {
        assert(self@.requests.dom() =~= self.requests@.dom());
        self.requests.len()
    }

    /// Whether a request is tracked under a request id.
    pub fn tracks(&self, request_id: &str) -> (known: bool)
        ensures
            known == self@.request_ids.contains_key(request_id@),
    {
        self.request_ids.contains_key(request_id)
    }

    /// The tokens that a request's program will have if it completes with the given context: what
    /// the host weights for tool work.
    pub fn completion_tokens(&self, request_id: &str, context_tokens: Option<usize>) -> (total:
        Option<usize>)
        ensures
            total == (if !self@.request_ids.contains_key(request_id@)
                || !self@.requests.contains_key(self@.request_ids[request_id@]) {
                None
            } else if context_tokens is Some {
                context_tokens
            } else {
                Some(self@.requests[self@.request_ids[request_id@]].context_tokens)
            }),
    {
        let id: u64 = match self.request_ids.get(request_id) {
            Some(id) => *id,
            None => {
                return None;
            },
        };
        match self.requests.get(&id) {
            Some(request) => match context_tokens {
                Some(tokens) => Some(tokens),
                None => Some(request.context_tokens),
            },
            None => None,
        }
    }

    /// The programs between turns: name, tokens (`major`) and since when (`minor`). What the host
    /// computes decayed usage from.
    pub fn acting_programs(&self) -> (found: VecDeque<Ranked>)
        requires
            self.wf(),
        ensures
            ranks(found@) == placed_order(
                entry_names(self@.programs),
                self@.programs,
                acting(),
            ),
    {
        self.programs.ordered(&Acting)
    }
}

/// What happens on a policy queue.
///
/// `acting_tokens` is the completed context, weighted for tool work by the host.
pub enum PolicyQueueEvent {
    Dispatched { id: u64, worker: WorkerWithDpRank },
    Completed { request_id: String, context_tokens: Option<usize>, acting_tokens: usize },
    Aborted { request_id: String },
    Reconcile { workers: Vec<PolicyQueueWorker> },
    /// Anything that the policy does not act on.
    Other,
}

impl QueueModel {
    /// What an event makes of the state, and which requests it makes ready.
    pub open spec fn after_event(
        self,
        event: PolicyQueueEvent,
        decays: Map<Seq<char>, usize>,
        now: u64,
    ) -> (QueueModel, Seq<u64>) {
        match event {
            PolicyQueueEvent::Dispatched { id, worker } => (
                self.dispatched(id, worker),
                Seq::empty(),
            ),
            PolicyQueueEvent::Completed { request_id, context_tokens, acting_tokens } =>
                self.finished(request_id@, true, context_tokens, acting_tokens, now),
            PolicyQueueEvent::Aborted { request_id } => self.finished(
                request_id@,
                false,
                None,
                0,
                now,
            ),
            PolicyQueueEvent::Reconcile { workers } => self.reconciled(workers@, decays, now),
            PolicyQueueEvent::Other => (self, Seq::empty()),
        }
    }
}

proof fn lemma_workers_updated_config(model: QueueModel, workers: Seq<PolicyQueueWorker>)
    ensures
        model.workers_updated(workers).config == model.config,
{
    let seen = QueueModel {
        workers: latest_reports(workers),
        ..model
    };
    lemma_unassigned_sessions(
        seen,
        placed_order(entry_names(seen.programs), seen.programs, stranded(seen.workers)),
    );
}

/// Appending at most one id.
proof fn lemma_extended(before: Seq<u64>, had: Seq<u64>, id: Option<u64>)
    requires
        before.len() >= had.len(),
        before.take(had.len() as int) == had,
    ensures
        (before + one_id(id)).take(had.len() as int) == had,
        (before + one_id(id)).skip(had.len() as int) == before.skip(had.len() as int) + one_id(id),
        id matches Some(id) ==> before.push(id) == before + one_id(Some(id)),
        id is None ==> before == before + one_id(id),
{
    assert((before + one_id(id)).take(had.len() as int) =~= before.take(had.len() as int));
    assert((before + one_id(id)).skip(had.len() as int) =~= before.skip(had.len() as int) + one_id(
        id,
    ));
    if let Some(id) = id {
        assert(before.push(id) =~= before + one_id(Some(id)));
    } else {
        assert(before =~= before + one_id(id));
    }
}

proof fn lemma_unassigned_sessions(model: QueueModel, order: Seq<Rank>)
    ensures
        model.unassigned(order).sessions == model.sessions,
        model.unassigned(order).config == model.config,
    decreases order.len(),
{
    if order.len() > 0 {
        lemma_unassigned_sessions(model.assigned(order[0].name, None), order.drop_first());
    }
}

proof fn lemma_sessions_kept(model: QueueModel, workers: Seq<PolicyQueueWorker>)
    ensures
        model.workers_updated(workers).sessions == model.sessions,
{
    let seen = QueueModel {
        workers: latest_reports(workers),
        ..model
    };
    lemma_unassigned_sessions(
        seen,
        placed_order(entry_names(seen.programs), seen.programs, stranded(seen.workers)),
    );
}

} // verus!
