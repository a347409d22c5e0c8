//! What the policy promises of its steps taken together.
use vstd::prelude::*;

use crate::choice::{is_pick, pick};
use crate::policy_queue::indexed::{place_of_name, with_program};
use crate::policy_queue::model::{
    admitting_workers, is_open, less_used_worker, more_spare_worker, open_rooms, outlived, overdue,
    picked_worker, resume_fairness, roomier, roomiest, taking_workers, usage_at, usage_of,
    usage_without, PolicyQueueDecision, PolicyQueueWorker, QueueModel, QueueSession,
};
use crate::policy_queue::programs::{
    entry_names, lemma_entry, lemma_with_program, placed_order, placed_ranks,
};
use crate::policy_queue::soundness::{
    lemma_acting_paused, lemma_admitted_is_sound, lemma_begun, lemma_decided,
    lemma_dispatched_is_sound, lemma_drained, lemma_due, lemma_kept_is_sound, lemma_left, lemma_listed, lemma_marked_once,
    lemma_noted, lemma_packed, lemma_placed_ranks_finite, lemma_programs_expired, lemma_promoted, lemma_reconciled_is_sound, lemma_resumed,
    lemma_settled, lemma_turn_open, lemma_with_item, lemma_without,
    lemma_workers_updated,
};
use crate::ranking::{lemma_listing_exists, Rank};
use crate::thunderagent::order::Keys;
use crate::thunderagent::placement::{fitting_rooms, Room};
use crate::thunderagent::program::{Program, ProgramLifecycle, ProgramStatus};
use crate::thunderagent::relief::on_worker;
use crate::thunderagent::usage::WorkerUsage;
use crate::worker::WorkerWithDpRank;

verus! {

/// A request without a session is let through, and nothing is kept of it.
pub proof fn lemma_sessionless_bypasses(
    model: QueueModel,
    id: u64,
    request_id: Seq<char>,
    context_tokens: usize,
    workers: Seq<PolicyQueueWorker>,
    now: u64,
)
    ensures
        model.admitted(id, request_id, None, context_tokens, workers, now) == (
            model,
            PolicyQueueDecision::Bypass,
        ),
{
}

/// A request under a request id that is in use is let through, and nothing is kept of it.
pub proof fn lemma_known_request_bypasses(
    model: QueueModel,
    id: u64,
    request_id: Seq<char>,
    session: Option<Seq<char>>,
    context_tokens: usize,
    workers: Seq<PolicyQueueWorker>,
    now: u64,
)
    requires
        model.request_ids.contains_key(request_id),
    ensures
        model.admitted(id, request_id, session, context_tokens, workers, now) == (
            model,
            PolicyQueueDecision::Bypass,
        ),
{
}

/// While a request of a session has its turn, another one of that session is deferred, and waits
/// behind all that wait already.
pub proof fn lemma_turns_are_serialized(
    model: QueueModel,
    id: u64,
    request_id: Seq<char>,
    session: Seq<char>,
    context_tokens: usize,
    workers: Seq<PolicyQueueWorker>,
    now: u64,
)
    requires
        model.sound(),
        !model.requests.contains_key(id),
        !model.request_ids.contains_key(request_id),
        model.is_busy(session),
    ensures
        ({
            let (next, decision) = model.admitted(
                id,
                request_id,
                Some(session),
                context_tokens,
                workers,
                now,
            );
            &&& decision == PolicyQueueDecision::Defer
            &&& next.sessions[session].current == model.sessions[session].current
            &&& next.sessions[session].waiting == model.sessions[session].waiting.push(id)
        }),
{
    lemma_workers_change_no_turn(model, workers);
    assert(model.queue_is_tracked(session));
    assert(!model.sessions[session].waiting.contains(id));
}

/// Reported workers change no turn.
proof fn lemma_workers_change_no_turn(model: QueueModel, workers: Seq<PolicyQueueWorker>)
    requires
        model.sound(),
    ensures
        model.workers_updated(workers).same_turns(model),
        model.workers_updated(workers).sound(),
{
    lemma_workers_updated(model, workers);
    lemma_kept_is_sound(model, model.workers_updated(workers));
}

/// A request that is aborted before anything else happens leaves the requests, the turns and all
/// programs as they were before it arrived, but for programs that left workers that are gone.
pub proof fn lemma_abort_restores_programs(
    model: QueueModel,
    id: u64,
    request_id: Seq<char>,
    session: Seq<char>,
    context_tokens: usize,
    workers: Seq<PolicyQueueWorker>,
    now: u64,
    later: u64,
)
    requires
        model.sound(),
        !model.requests.contains_key(id),
        !model.request_ids.contains_key(request_id),
        !model.is_busy(session),
    ensures
        ({
            let seen = model.workers_updated(workers);
            let arrived = model.admitted(
                id,
                request_id,
                Some(session),
                context_tokens,
                workers,
                now,
            ).0;
            let (next, ready) = arrived.finished(request_id, false, None, 0, later);
            &&& next.same_turns(model)
            &&& forall|other: Seq<char>| #[trigger] next.program(other) == seen.program(other)
            &&& ready == Seq::<u64>::empty()
        }),
{
    let seen = model.workers_updated(workers);
    lemma_workers_change_no_turn(model, workers);
    if model.sessions.contains_key(session) {
        assert(model.has_turn(session));
    }
    let noted = seen.noted(id, request_id, session, context_tokens);
    let begun = noted.begun(id);
    let arrived = begun.decided(id, now).0;
    lemma_admitted_is_sound(
        model,
        id,
        request_id,
        Some(session),
        context_tokens,
        workers,
        now,
    );
    lemma_noted(seen, id, request_id, session, context_tokens);
    lemma_begun(noted, id);
    lemma_decided(begun, id, now);
    lemma_left(arrived, request_id);
    let request = arrived.requests[id];
    assert(request == begun.requests[id]);
    assert(request.prior == seen.program(session));
    let left = QueueModel {
        requests: arrived.requests.remove(id),
        request_ids: arrived.request_ids.remove(request_id),
        ..arrived
    };
    let open = left.vacated(session);
    lemma_settled(open, request, false, None, 0, later);
    let settled = open.settled(request, false, None, 0, later);
    assert(open.sessions[session].waiting =~= Seq::<u64>::empty());
    let next = settled.promoted(session, later).0;
    assert(next.sessions =~= model.sessions);
    assert(next.requests =~= model.requests);
    assert(next.request_ids =~= model.request_ids);
    assert forall|other: Seq<char>| #[trigger] next.program(other) == seen.program(other) by {
        assert(next.program(other) == settled.program(other));
        if other != session {
            assert(settled.program(other) == open.program(other));
            assert(open.program(other) == arrived.program(other));
            assert(arrived.program(other) == begun.program(other));
            assert(begun.program(other) == noted.program(other));
        }
    }
}

/// A dispatched request makes its worker that of its session, for the turns to come too.
pub proof fn lemma_dispatch_records_worker(model: QueueModel, id: u64, worker: WorkerWithDpRank)
    requires
        model.sound(),
        model.requests.contains_key(id),
        model.is_current(id),
    ensures
        model.dispatched(id, worker).assignment(model.requests[id].session) == Some(worker),
        model.dispatched(id, worker).program_worker(model.requests[id].session) == Some(worker),
        model.dispatched(id, worker).requests[id].dispatched,
{
    let next = model.dispatched(id, worker);
    lemma_dispatched_is_sound(model, id, worker);
    assert(next.assignment(model.requests[id].session) == next.program_worker(
        model.requests[id].session,
    ));
}

/// When a request whose turn it is ends, the turn goes to the one that has waited the longest, and
/// no other request of the session is ready. A session without another request is forgotten.
pub proof fn lemma_turns_in_order(
    model: QueueModel,
    request_id: Seq<char>,
    completed: bool,
    context_tokens: Option<usize>,
    acting_tokens: usize,
    now: u64,
)
    requires
        model.sound(),
        model.request_ids.contains_key(request_id),
        model.is_current(model.request_ids[request_id]),
    ensures
        ({
            let session = model.requests[model.request_ids[request_id]].session;
            let waiting = model.sessions[session].waiting;
            let (next, ready) = model.finished(
                request_id,
                completed,
                context_tokens,
                acting_tokens,
                now,
            );
            &&& waiting.len() > 0 ==> next.sessions[session].current == Some(waiting[0])
                && next.sessions[session].waiting == waiting.drop_first() && (ready == Seq::<
                u64,
            >::empty() || ready == seq![waiting[0]])
            &&& waiting.len() == 0 ==> !next.sessions.contains_key(session) && ready == Seq::<
                u64,
            >::empty()
        }),
{
    let id = model.request_ids[request_id];
    let request = model.requests[id];
    let session = request.session;
    lemma_left(model, request_id);
    let open = QueueModel {
        requests: model.requests.remove(id),
        request_ids: model.request_ids.remove(request_id),
        ..model
    }.vacated(session);
    let settled = open.settled(request, completed, context_tokens, acting_tokens, now);
    lemma_turn_open(model, request_id, completed, context_tokens, acting_tokens, now);
    let waiting = model.sessions[session].waiting;
    assert(open.sessions[session].waiting == waiting);
    if waiting.len() > 0 {
        let first = waiting[0];
        assert(waiting.contains(first));
        assert(model.queue_is_tracked(session));
        assert(settled.requests.contains_key(first));
        let turn = QueueModel {
            sessions: settled.sessions.insert(
                session,
                QueueSession { waiting: waiting.remove(0), ..settled.sessions[session] },
            ),
            ..settled
        };
        let begun = turn.begun(first);
        lemma_promoted(settled, session, now);
        lemma_decided(begun, first, now);
        assert(waiting.remove(0) =~= waiting.drop_first());
    }
}

/// A new program does not overtake paused ones: its request is deferred and it is paused too.
pub proof fn lemma_new_programs_wait_behind_paused(
    model: QueueModel,
    id: u64,
    request_id: Seq<char>,
    session: Seq<char>,
    context_tokens: usize,
    workers: Seq<PolicyQueueWorker>,
    now: u64,
)
    requires
        model.sound(),
        !model.requests.contains_key(id),
        !model.request_ids.contains_key(request_id),
        model.program(session) is None,
        model.workers_updated(workers).paused.len() > 0,
    ensures
        ({
            let (next, decision) = model.admitted(
                id,
                request_id,
                Some(session),
                context_tokens,
                workers,
                now,
            );
            decision == PolicyQueueDecision::Defer && next.is_paused(session)
        }),
{
    let seen = model.workers_updated(workers);
    lemma_workers_updated(model, workers);
    lemma_workers_change_no_turn(model, workers);
    if model.sessions.contains_key(session) {
        assert(model.has_turn(session));
    }
    assert(seen.program(session) is None);
    let noted = seen.noted(id, request_id, session, context_tokens);
    let begun = noted.begun(id);
    lemma_noted(seen, id, request_id, session, context_tokens);
    assert(noted.program(session) == seen.program(session));
    lemma_begun(noted, id);
    lemma_with_program(noted.programs, session, Program::first_turn(context_tokens));
    assert(begun.program(session) == Some(Program::first_turn(context_tokens)));
    lemma_admitted_is_sound(
        model,
        id,
        request_id,
        Some(session),
        context_tokens,
        workers,
        now,
    );
    let next = begun.deferred(session, now, false);
    assert(begun.decided(id, now) == (next, PolicyQueueDecision::Defer));
    assert(next.paused.contains(session)) by {
        lemma_with_item(begun.paused, session);
    }
    assert(next.paused.contains(session) <==> next.is_paused(session));
}

/// A new program is placed only where it fits: on an open worker whose capacity holds it beside
/// what runs there.
pub proof fn lemma_admission_fits(model: QueueModel, required: usize, worker: WorkerWithDpRank)
    requires
        model.admission_worker(required) == Some(worker),
    ensures
        exists|at: int|
            0 <= at < model.workers.len() && (#[trigger] model.workers[at]).worker == worker
                && is_open(model.workers[at]) && usage_at(
                usage_of(model.programs, Map::empty(), model.config.buffer_per_program),
                worker,
            ).used + required <= model.workers[at].limits->0.capacity,
{
    let usage = usage_of(model.programs, Map::empty(), model.config.buffer_per_program);
    let count = model.workers.len() as int;
    let eligible = admitting_workers(model.workers, usage, required);
    let better = less_used_worker(model.workers, usage);
    let at = pick(count, eligible, better)->0;
    assert(is_pick(at, count, eligible, better));
    assert(model.workers[at].worker == worker);
}

/// While no worker's capacity is known, requests of new sessions flow through where nothing is
/// paused, and their programs have no worker.
pub proof fn lemma_cold_start_flows_through(
    model: QueueModel,
    id: u64,
    request_id: Seq<char>,
    session: Seq<char>,
    context_tokens: usize,
    workers: Seq<PolicyQueueWorker>,
    now: u64,
)
    requires
        model.sound(),
        !model.requests.contains_key(id),
        !model.request_ids.contains_key(request_id),
        model.program(session) is None,
        model.workers_updated(workers).paused.len() == 0,
        !model.workers_updated(workers).has_open_worker(),
    ensures
        ({
            let (next, decision) = model.admitted(
                id,
                request_id,
                Some(session),
                context_tokens,
                workers,
                now,
            );
            decision == PolicyQueueDecision::Ready && next.program_worker(session) is None
        }),
{
    let seen = model.workers_updated(workers);
    lemma_workers_updated(model, workers);
    lemma_workers_change_no_turn(model, workers);
    if model.sessions.contains_key(session) {
        assert(model.has_turn(session));
    }
    assert(seen.program(session) is None);
    let noted = seen.noted(id, request_id, session, context_tokens);
    lemma_noted(seen, id, request_id, session, context_tokens);
    assert(noted.program(session) == seen.program(session));
    lemma_with_program(noted.programs, session, Program::first_turn(context_tokens));
    let begun = noted.begun(id);
    assert(begun.program(session) == Some(Program::first_turn(context_tokens)));
    assert(begun.workers == seen.workers);
    if begun.has_open_worker() {
        let at = choose|at: int|
            0 <= at < begun.workers.len() && is_open(#[trigger] begun.workers[at]);
        assert(is_open(seen.workers[at]));
    }
}

/// Whether requests are tracked and have their turn.
pub open spec fn have_turns(model: QueueModel, ids: Seq<u64>) -> bool {
    forall|at: int|
        0 <= at < ids.len() ==> model.requests.contains_key(#[trigger] ids[at])
            && model.is_current(ids[at])
}

/// A program that resumes names at most the request whose turn it is.
proof fn lemma_resumed_ready(
    model: QueueModel,
    session: Seq<char>,
    worker: Option<WorkerWithDpRank>,
)
    requires
        model.turns_agree_but(None),
    ensures
        have_turns(model, model.resumed(session, worker).1),
{
    if model.sessions.contains_key(session) {
        assert(model.has_turn(session));
    }
}

proof fn lemma_packed_ready(
    model: QueueModel,
    rooms: Seq<Room>,
    decays: Map<Seq<char>, usize>,
    usage: Map<WorkerWithDpRank, WorkerUsage>,
    order: Seq<Rank>,
)
    requires
        model.sound(),
    ensures
        have_turns(model, model.packed(rooms, decays, usage, order).ready),
    decreases order.len(),
{
    if order.len() > 0 {
        let name = order[0].name;
        let rest = order.drop_first();
        match model.program(name) {
            None => lemma_packed_ready(model, rooms, decays, usage, rest),
            Some(program) => {
                let required = program.token_total.saturating_add(
                    model.config.buffer_per_program,
                );
                match roomiest(rooms, required, program.assigned_worker) {
                    None => lemma_packed_ready(model, rooms, decays, usage, rest),
                    Some(at) => {
                        let room = rooms[at];
                        let after = model.resumed(name, Some(room.worker)).0;
                        let left = (room.available - required) as usize;
                        lemma_resumed_ready(model, name, Some(room.worker));
                        lemma_resumed(model, name, Some(room.worker));
                        lemma_kept_is_sound(model, after);
                        lemma_packed_ready(
                            after,
                            rooms.update(at, Room { available: left, ..room }),
                            decays,
                            after.usage_resumed(usage, room.worker, name, decays),
                            rest,
                        );
                    },
                }
            },
        }
    }
}

proof fn lemma_forced_ready(
    model: QueueModel,
    decays: Map<Seq<char>, usize>,
    usage: Map<WorkerWithDpRank, WorkerUsage>,
    order: Seq<Rank>,
)
    requires
        model.sound(),
    ensures
        have_turns(model, model.forced(decays, usage, order).ready),
    decreases order.len(),
{
    if order.len() > 0 {
        let name = order[0].name;
        let rest = order.drop_first();
        match model.program(name) {
            None => lemma_forced_ready(model, decays, usage, rest),
            Some(program) => {
                let target = picked_worker(
                    model.workers,
                    pick(
                        model.workers.len() as int,
                        taking_workers(model.workers, program.assigned_worker),
                        more_spare_worker(model.workers, usage),
                    ),
                );
                if target is None && !model.any_available() {
                    lemma_forced_ready(model, decays, usage, rest);
                } else {
                    let after = model.resumed(name, target).0;
                    lemma_resumed_ready(model, name, target);
                    lemma_resumed(model, name, target);
                    lemma_kept_is_sound(model, after);
                    lemma_forced_ready(
                        after,
                        decays,
                        match target {
                            Some(worker) => after.usage_resumed(usage, worker, name, decays),
                            None => usage,
                        },
                        rest,
                    );
                }
            },
        }
    }
}

/// The periodic step names only tracked requests whose turn it is, and it is still their turn
/// afterwards.
pub proof fn lemma_ready_requests_have_turns(
    model: QueueModel,
    workers: Seq<PolicyQueueWorker>,
    decays: Map<Seq<char>, usize>,
    now: u64,
)
    requires
        model.sound(),
    ensures
        have_turns(model, model.reconciled(workers, decays, now).1),
        have_turns(
            model.reconciled(workers, decays, now).0,
            model.reconciled(workers, decays, now).1,
        ),
{
    let seen = model.workers_updated(workers);
    lemma_workers_change_no_turn(model, workers);
    lemma_reconciled_is_sound(model, workers, decays, now);
    if now >= model.next_tick {
        let due = QueueModel {
            next_tick: (now + model.config.scheduler_interval) as u128,
            ..seen
        };
        lemma_due(seen, due);
        let kept = due.programs_expired(now);
        lemma_programs_expired(due, now);
        let usage = usage_of(kept.programs, decays, kept.config.buffer_per_program);
        let rooms = open_rooms(kept.workers, usage, kept.config.buffer_per_program);
        let order = placed_order(kept.paused, kept.programs, resume_fairness());
        let resumption = kept.programs_resumed(decays, usage);
        lemma_packed(kept, rooms, decays, usage, order);
        lemma_packed_ready(kept, rooms, decays, usage, order);
        lemma_kept_is_sound(kept, resumption.model);
        let late = placed_order(
            resumption.model.paused,
            resumption.model.programs,
            overdue(now, resumption.model.config.resume_timeout),
        );
        lemma_forced_ready(resumption.model, decays, resumption.usage, late);
    }
}

/// Pausing an active program between turns takes it off its worker.
pub proof fn lemma_pausing_clears_assignment(model: QueueModel, session: Seq<char>)
    requires
        model.sound(),
        model.program(session) matches Some(program) && program.lifecycle
            == ProgramLifecycle::Active && program.status == ProgramStatus::Acting,
    ensures
        model.acting_paused(session).is_paused(session),
        model.acting_paused(session).assignment(session) is None,
{
    let next = model.acting_paused(session);
    lemma_acting_paused(model, session);
    lemma_with_item(model.paused, session);
    assert(next.paused.contains(session) <==> next.is_paused(session));
}

/// Taking programs out leaves the others.
proof fn lemma_without_all_programs(model: QueueModel, order: Seq<Rank>, name: Seq<char>)
    requires
        model.tables_agree(),
    ensures
        (exists|at: int| 0 <= at < order.len() && (#[trigger] order[at]).name == name)
            ==> model.without_all(order).program(name) is None,
        !(exists|at: int| 0 <= at < order.len() && (#[trigger] order[at]).name == name)
            ==> model.without_all(order).program(name) == model.program(name),
        model.program(name) is None ==> model.without_all(order).program(name) is None,
    decreases order.len(),
{
    if order.len() > 0 {
        let next = model.without(order[0].name);
        let rest = order.drop_first();
        lemma_without(model, order[0].name);
        lemma_without_all_programs(next, rest, name);
        if order[0].name != name {
            assert(next.program(name) == model.program(name));
            if exists|at: int| 0 <= at < order.len() && (#[trigger] order[at]).name == name {
                let at = choose|at: int| 0 <= at < order.len() && (#[trigger] order[at]).name == name;
                assert(rest[at - 1].name == name);
            } else {
                assert forall|at: int| 0 <= at < rest.len() implies (#[trigger] rest[at]).name
                    != name by {
                    assert(order[at + 1].name != name);
                }
            }
        }
    }
}

/// When retention ends, exactly the programs go whose session has no request and which have acted
/// for the retention time.
pub proof fn lemma_expired_programs_are_gone(model: QueueModel, now: u64, name: Seq<char>)
    requires
        model.sound(),
        model.programs.len() <= u64::MAX,
    ensures
        ({
            let retention = model.config.session_retention;
            let gone = model.program(name) matches Some(program) && outlived(
                model.sessions,
                now,
                retention,
            )(name, program) is Some;
            &&& gone ==> model.programs_expired(now).program(name) is None
            &&& !gone ==> model.programs_expired(now).program(name) == model.program(name)
        }),
{
    let names = entry_names(model.programs);
    let keys = outlived(model.sessions, now, model.config.session_retention);
    let order = placed_order(names, model.programs, keys);
    let all = placed_ranks(names, model.programs, keys);
    lemma_without_all_programs(model, order, name);
    lemma_placed_ranks_finite(names, model.programs, keys);
    lemma_listing_exists(all);
    if let Some(program) = model.program(name) {
        if keys(name, program) is Some {
            let place = place_of_name(model.programs, name);
            lemma_entry(model.programs, place);
            let rank = Rank { major: 0, minor: 0, place: place as u64, name };
            assert(names[place] == name);
            assert(all.contains(rank));
            assert(order.to_set().contains(rank));
            let at = choose|at: int| 0 <= at < order.len() && order[at] == rank;
            assert(order[at].name == name);
        } else {
            assert forall|at: int| 0 <= at < order.len() implies (#[trigger] order[at]).name
                != name by {
                lemma_listed(names, model.programs, keys, at);
            }
        }
    }
}

/// A program resumes only in a room that it fits in, on its own worker where it has one, and in
/// the largest such room.
pub proof fn lemma_resumes_in_the_largest_room(
    rooms: Seq<Room>,
    required: usize,
    assigned: Option<WorkerWithDpRank>,
    other: int,
)
    requires
        roomiest(rooms, required, assigned) is Some,
        0 <= other < rooms.len(),
        required <= rooms[other].available,
        assigned matches Some(own) ==> own == rooms[other].worker,
    ensures
        0 <= roomiest(rooms, required, assigned)->0 < rooms.len(),
        required <= rooms[roomiest(rooms, required, assigned)->0].available,
        assigned matches Some(own) ==> own == rooms[roomiest(
            rooms,
            required,
            assigned,
        )->0].worker,
        rooms[other].available <= rooms[roomiest(rooms, required, assigned)->0].available,
{
    let at = roomiest(rooms, required, assigned)->0;
    let fits = fitting_rooms(rooms, required, assigned);
    assert(is_pick(at, rooms.len() as int, fits, roomier(rooms)));
    assert(fits(other));
}

/// A program with a key is listed.
proof fn lemma_is_listed(model: QueueModel, keys: Keys, name: Seq<char>) -> (at: int)
    requires
        model.tables_agree(),
        model.programs.len() <= u64::MAX,
        model.program(name) matches Some(program) && keys(name, program) is Some,
    ensures
        0 <= at < placed_order(entry_names(model.programs), model.programs, keys).len(),
        placed_order(entry_names(model.programs), model.programs, keys)[at].name == name,
{
    let names = entry_names(model.programs);
    let order = placed_order(names, model.programs, keys);
    let all = placed_ranks(names, model.programs, keys);
    let program = model.program(name)->0;
    let key = keys(name, program)->0;
    let place = place_of_name(model.programs, name);
    lemma_placed_ranks_finite(names, model.programs, keys);
    lemma_listing_exists(all);
    lemma_entry(model.programs, place);
    let rank = Rank { major: key.0, minor: key.1, place: place as u64, name };
    assert(names[place] == name);
    assert(all.contains(rank));
    assert(order.to_set().contains(rank));
    choose|at: int| 0 <= at < order.len() && order[at] == rank
}

/// A drain touches only active programs between turns, and ends above the goal only where it has
/// paused all that it was given.
proof fn lemma_drained_programs(
    model: QueueModel,
    worker: WorkerWithDpRank,
    goal: usize,
    decays: Map<Seq<char>, usize>,
    usage: Map<WorkerWithDpRank, WorkerUsage>,
    order: Seq<Rank>,
    name: Seq<char>,
)
    requires
        model.tables_agree(),
    ensures
        ({
            let (next, left) = model.drained(worker, goal, decays, usage, order);
            &&& model.is_paused(name) ==> next.is_paused(name)
            &&& model.program(name) matches Some(program) ==> (program.status
                == ProgramStatus::Reasoning ==> next.program(name) == Some(program))
            &&& (exists|at: int| 0 <= at < order.len() && (#[trigger] order[at]).name == name)
                && usage_at(left, worker).used > goal && (model.program(name) matches Some(program)
                && program.status == ProgramStatus::Acting) ==> next.is_paused(name)
        }),
    decreases order.len(),
{
    if order.len() > 0 && usage_at(usage, worker).used > goal {
        let first = order[0].name;
        let rest = order.drop_first();
        if order[0].name != name && exists|at: int|
            0 <= at < order.len() && (#[trigger] order[at]).name == name {
            let at = choose|at: int| 0 <= at < order.len() && (#[trigger] order[at]).name == name;
            assert(rest[at - 1].name == name);
        }
        match model.program(first) {
            None => lemma_drained_programs(model, worker, goal, decays, usage, rest, name),
            Some(program) => {
                let next = model.acting_paused(first);
                lemma_acting_paused(model, first);
                lemma_paused_at_once(model, first);
                lemma_drained_programs(
                    next,
                    worker,
                    goal,
                    decays,
                    usage_without(
                        usage,
                        worker,
                        first,
                        program,
                        decays,
                        model.config.buffer_per_program,
                    ),
                    rest,
                    name,
                );
                if first != name {
                    assert(next.program(name) == model.program(name));
                }
            },
        }
    }
}

/// An acting program is paused afterwards, whether it was before or not.
proof fn lemma_paused_at_once(model: QueueModel, session: Seq<char>)
    requires
        model.tables_agree(),
    ensures
        model.program(session) matches Some(program) ==> (if program.status
            == ProgramStatus::Acting {
            model.acting_paused(session).is_paused(session)
        } else {
            model.acting_paused(session).program(session) == Some(program)
        }),
        model.is_paused(session) ==> model.acting_paused(session) == model,
{
    if let Some(program) = model.program(session) {
        if program.lifecycle == ProgramLifecycle::Active && program.status
            == ProgramStatus::Acting {
            let next = model.acting_paused(session);
            lemma_acting_paused(model, session);
            lemma_with_item(model.paused, session);
            assert(next.paused.contains(session) <==> next.is_paused(session));
        }
    }
}

/// Marking leaves lifecycles alone and marks all that it is given.
proof fn lemma_marked_programs(model: QueueModel, order: Seq<Rank>, name: Seq<char>)
    requires
        model.tables_agree(),
    ensures
        model.is_paused(name) ==> model.marked(order).is_paused(name),
        model.program(name) matches Some(program) ==> (model.marked(order).program(
            name,
        ) matches Some(after) && (program.marked_for_pause ==> after.marked_for_pause)),
        (exists|at: int| 0 <= at < order.len() && (#[trigger] order[at]).name == name)
            && model.program(name) is Some ==> (model.marked(order).program(name) matches Some(
            after,
        ) && after.marked_for_pause),
    decreases order.len(),
{
    if order.len() > 0 {
        let first = order[0].name;
        let rest = order.drop_first();
        if first != name && exists|at: int|
            0 <= at < order.len() && (#[trigger] order[at]).name == name {
            let at = choose|at: int| 0 <= at < order.len() && (#[trigger] order[at]).name == name;
            assert(rest[at - 1].name == name);
        }
        match model.program(first) {
            Some(program) => {
                let noted = Program { marked_for_pause: true, ..program };
                let here = model.with_programs(with_program(model.programs, first, noted));
                lemma_with_program(model.programs, first, noted);
                lemma_marked_once(model, first, program);
                lemma_marked_programs(here, rest, name);
                if first != name {
                    assert(here.program(name) == model.program(name));
                }
            },
            None => lemma_marked_programs(model, rest, name),
        }
    }
}

/// After the relief of an overloaded open worker, its usage has reached the pause goal, or all
/// programs that ran there between turns are paused and all others that ran there are marked to
/// pause after their turn.
pub proof fn lemma_relief_drains_or_marks(
    model: QueueModel,
    worker: PolicyQueueWorker,
    decays: Map<Seq<char>, usize>,
    usage: Map<WorkerWithDpRank, WorkerUsage>,
    name: Seq<char>,
)
    requires
        model.sound(),
        model.programs.len() <= u64::MAX,
        is_open(worker),
        usage_at(usage, worker.worker).used > worker.limits->0.pause_limit,
        model.program(name) matches Some(program) && program.lifecycle
            == ProgramLifecycle::Active && program.assigned_worker == Some(worker.worker)
            && !program.marked_for_pause,
    ensures
        ({
            let (next, left) = model.relieved(worker, decays, usage);
            ||| usage_at(left, worker.worker).used <= worker.limits->0.pause_goal
            ||| next.is_paused(name)
            ||| (next.program(name) matches Some(after) && after.marked_for_pause)
        }),
{
    let names = entry_names(model.programs);
    let acting_keys = on_worker(worker.worker, ProgramStatus::Acting);
    let reasoning_keys = on_worker(worker.worker, ProgramStatus::Reasoning);
    let acting = placed_order(names, model.programs, acting_keys);
    let reasoning = placed_order(names, model.programs, reasoning_keys);
    let goal = worker.limits->0.pause_goal;
    let (drained, left) = model.drained(worker.worker, goal, decays, usage, acting);
    let program = model.program(name)->0;
    lemma_drained_programs(model, worker.worker, goal, decays, usage, acting, name);
    lemma_drained(model, worker.worker, goal, decays, usage, acting);
    lemma_marked_programs(drained, reasoning, name);
    match program.status {
        ProgramStatus::Acting => {
            let at = lemma_is_listed(model, acting_keys, name);
            assert(acting[at].name == name);
        },
        ProgramStatus::Reasoning => {
            let at = lemma_is_listed(model, reasoning_keys, name);
            assert(reasoning[at].name == name);
        },
    }
}

/// What a resumption does to one program.
proof fn lemma_resumed_program(
    model: QueueModel,
    session: Seq<char>,
    worker: Option<WorkerWithDpRank>,
    name: Seq<char>,
)
    requires
        model.tables_agree(),
    ensures
        model.resumed(session, worker).0.workers == model.workers,
        !model.is_paused(name) ==> !model.resumed(session, worker).0.is_paused(name),
        name == session ==> !model.resumed(session, worker).0.is_paused(name),
        name != session ==> model.resumed(session, worker).0.program(name) == model.program(name),
{
    if let Some(program) = model.program(session) {
        if program.lifecycle == ProgramLifecycle::Paused {
            let held = Program {
                lifecycle: ProgramLifecycle::Active,
                deferred_since: None,
                ..program
            };
            let last = Program { assigned_worker: worker, ..held };
            let once = with_program(model.programs, session, held);
            lemma_with_program(model.programs, session, held);
            lemma_with_program(once, session, last);
        }
    }
}

/// Forcing resumes everyone that it is given while some worker is available.
proof fn lemma_forced_programs(
    model: QueueModel,
    decays: Map<Seq<char>, usize>,
    usage: Map<WorkerWithDpRank, WorkerUsage>,
    order: Seq<Rank>,
    name: Seq<char>,
)
    requires
        model.tables_agree(),
        model.any_available(),
    ensures
        !model.is_paused(name) ==> !model.forced(decays, usage, order).model.is_paused(name),
        (exists|at: int| 0 <= at < order.len() && (#[trigger] order[at]).name == name)
            ==> !model.forced(decays, usage, order).model.is_paused(name),
    decreases order.len(),
{
    if order.len() > 0 {
        let first = order[0].name;
        let rest = order.drop_first();
        if first != name && exists|at: int|
            0 <= at < order.len() && (#[trigger] order[at]).name == name {
            let at = choose|at: int| 0 <= at < order.len() && (#[trigger] order[at]).name == name;
            assert(rest[at - 1].name == name);
        }
        match model.program(first) {
            None => lemma_forced_programs(model, decays, usage, rest, name),
            Some(program) => {
                let target = picked_worker(
                    model.workers,
                    pick(
                        model.workers.len() as int,
                        taking_workers(model.workers, program.assigned_worker),
                        more_spare_worker(model.workers, usage),
                    ),
                );
                let after = model.resumed(first, target).0;
                lemma_resumed(model, first, target);
                lemma_resumed_program(model, first, target, name);
                let open = choose|open: int|
                    0 <= open < model.workers.len() && (#[trigger] model.workers[open]).available;
                assert(after.workers[open].available);
                lemma_forced_programs(
                    after,
                    decays,
                    match target {
                        Some(worker) => after.usage_resumed(usage, worker, first, decays),
                        None => usage,
                    },
                    rest,
                    name,
                );
            },
        }
    }
}

/// While some worker is available, no program stays paused that has been deferred for the resume
/// timeout.
pub proof fn lemma_timeout_forces_release(
    model: QueueModel,
    decays: Map<Seq<char>, usize>,
    usage: Map<WorkerWithDpRank, WorkerUsage>,
    now: u64,
    name: Seq<char>,
)
    requires
        model.sound(),
        model.paused.len() <= u64::MAX,
        model.any_available(),
        model.program(name) matches Some(program) && program.deferred_since matches Some(since)
            && now.saturating_sub(since) >= model.config.resume_timeout,
    ensures
        !model.forced(
            decays,
            usage,
            placed_order(
                model.paused,
                model.programs,
                overdue(now, model.config.resume_timeout),
            ),
        ).model.is_paused(name),
{
    let keys = overdue(now, model.config.resume_timeout);
    let order = placed_order(model.paused, model.programs, keys);
    lemma_forced_programs(model, decays, usage, order, name);
    if model.is_paused(name) {
        assert(model.paused.contains(name));
        let place = choose|place: int| 0 <= place < model.paused.len() && model.paused[place] == name;
        let all = placed_ranks(model.paused, model.programs, keys);
        lemma_placed_ranks_finite(model.paused, model.programs, keys);
        lemma_listing_exists(all);
        let rank = Rank { major: 0, minor: 0, place: place as u64, name };
        assert(all.contains(rank));
        assert(order.to_set().contains(rank));
        let at = choose|at: int| 0 <= at < order.len() && order[at] == rank;
        assert(order[at].name == name);
    }
}

} // verus!
