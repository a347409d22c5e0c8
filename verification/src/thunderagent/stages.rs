//! How the steps are made up of smaller ones, and what the larger stages come to.
use vstd::prelude::*;

use crate::ranking::Rank;
use crate::text::text_before;
use crate::thunderagent::capacity::{one_card_each, Capacities, CapacityCard};
use crate::thunderagent::choices::{held_on, lemma_liveness, live};
use crate::thunderagent::config::ThunderAgentConfig;
use crate::thunderagent::effects::{
    lemma_admission, lemma_beginning, lemma_decision, lemma_deferral, lemma_expiry,
    lemma_leaving_workers, lemma_making_room, lemma_one_program_at_a_time, lemma_queueing,
    lemma_release,
};
use crate::thunderagent::ledger::{used_on, Ledger};
use crate::thunderagent::model::{
    drop_leading, expired, only, Model, Outcome, RequestPhase, Session, WaitStatus,
};
use crate::thunderagent::placement::{
    best_room, decayed_more, decayed_tokens, forced_target, largest_first, running, timed_out, Room,
};
use crate::thunderagent::precedence::{
    is_taken, lemma_rested_programs_expire, lemma_smallest_is_relieved_first,
    lemma_stranded_are_taken, precedes, resume_tokens, taken_once,
};
use crate::thunderagent::program::{Program, ProgramLifecycle, ProgramStatus};
use crate::thunderagent::relief::{on_removed_worker, on_worker};
use crate::thunderagent::scheduler::RequestEvent;
use crate::thunderagent::soundness::lemma_expired;
use crate::worker::WorkerWithDpRank;

verus! {

/// A new scheduler tracks nothing, and its first periodic step is due after the interval.
pub proof fn lemma_fresh(config: ThunderAgentConfig, now: u64, name: Seq<char>)
    ensures
        ({
            let model = Model::fresh(config, now);
            &&& model.config == config
            &&& model.ledger.buffer == config.buffer_per_program
            &&& !model.ledger.programs.contains_key(name)
            &&& model.ledger.programs.dom().finite()
            &&& forall|worker: WorkerWithDpRank| held_on(model.ledger.usage, worker) == 0
            &&& !model.requests.contains_key(name)
            &&& !model.sessions.contains_key(name)
            &&& model.arrivals.len() == 0
            &&& model.wakeups.len() == 0
            &&& model.timer_owner is None
            &&& model.snapshot_id is None
            &&& model.next_retention_expiry is None
            &&& model.next_reconcile_at == now + config.scheduler_interval
        }),
{
}

/// What a waiter finds: nothing of a request that is not tracked, and otherwise its phase.
pub proof fn lemma_waiter_finds(model: Model, id: Seq<char>)
    ensures
        model.wait_status(id) == WaitStatus::Missing <==> !model.requests.contains_key(id),
        model.wait_status(id) == WaitStatus::Waiting <==> model.requests.contains_key(id)
            && model.requests[id].phase == RequestPhase::Waiting,
        model.wait_status(id) == WaitStatus::Released <==> model.requests.contains_key(id)
            && model.requests[id].phase == RequestPhase::Released,
        model.is_waiting(id) <==> model.requests.contains_key(id) && model.requests[id].phase
            == RequestPhase::Waiting,
        model.waiting().contains(id) <==> model.requests.contains_key(id)
            && model.requests[id].phase == RequestPhase::Waiting,
{
}

/// Requests are admitted one after the other.
pub proof fn lemma_admissions_follow_each_other(
    model: Model,
    ids: Seq<Seq<char>>,
    id: Seq<char>,
    capacities: Capacities,
    now: u64,
)
    ensures
        model.all_admitted(Seq::empty(), capacities, now).0 == model,
        model.all_admitted(seq![id] + ids, capacities, now).0 == model.admitted(
            id,
            capacities,
            now,
        ).0.all_admitted(ids, capacities, now).0,
{
    assert((seq![id] + ids).drop_first() =~= ids);
    assert((seq![id] + ids)[0] == id);
}

/// Every waiting request with nothing of its session ahead of it is a candidate, in order of arrival.
pub proof fn lemma_candidates(model: Model, id: Seq<char>)
    ensures
        model.candidates().contains(id) ==> model.arrivals.contains(id) && {
            let session = model.requests[id].session;
            &&& model.requests.contains_key(id)
            &&& model.requests[id].phase == RequestPhase::Waiting
            &&& model.sessions.contains_key(session)
            &&& model.sessions[session].current is None
            &&& model.sessions[session].waiting.len() > 0
            &&& model.sessions[session].waiting[0] == id
        },
        ({
            let session = model.requests[id].session;
            &&& model.arrivals.contains(id)
            &&& model.requests.contains_key(id)
            &&& model.requests[id].phase == RequestPhase::Waiting
            &&& model.sessions.contains_key(session)
            &&& model.sessions[session].current is None
            &&& model.sessions[session].waiting.len() > 0
            &&& model.sessions[session].waiting[0] == id
        }) ==> model.candidates().contains(id),
{
    let pred = |name: Seq<char>| model.is_next(name);
    if model.candidates().contains(id) {
        model.arrivals.lemma_filter_contains_rev(pred, id);
        let k = choose|k: int| 0 <= k < model.candidates().len() && model.candidates()[k] == id;
        model.arrivals.lemma_filter_pred(pred, k);
    }
    if model.arrivals.contains(id) && model.is_next(id) {
        let k = choose|k: int| 0 <= k < model.arrivals.len() && model.arrivals[k] == id;
        model.arrivals.lemma_filter_contains(pred, k);
    }
}

/// An arrival ends retention, makes room, leaves workers that are gone, queues the request and admits
/// it.
pub proof fn lemma_arrival_stages(
    model: Model,
    id: Seq<char>,
    session: Seq<char>,
    input_tokens: usize,
    session_final: bool,
    capacities: Capacities,
    now: u64,
)
    ensures
        ({
            let kept = model.programs_expired(now).0;
            let roomy = kept.room_made(session);
            let cleared = roomy.removed_cleared(capacities).0;
            let queued = cleared.enqueued(id, session, input_tokens, session_final);
            let admitted = queued.admitted(id, capacities, now).0;
            let next = model.registered(
                id,
                session,
                input_tokens,
                session_final,
                capacities,
                now,
            );
            &&& next.ledger == admitted.ledger
            &&& next.requests == admitted.requests
            &&& next.sessions == admitted.sessions
            &&& next.timer_owner == admitted.timer_owner
            &&& next.wakeups == admitted.wakeups
            &&& next.next_reconcile_at == admitted.next_reconcile_at
        }),
{
}

/// A session that is new to the program table and without requests has its first request released
/// for a live worker on which it fits beside what is held there, where one is left over; and no live
/// worker on which it fits holds less, of equals it is the lowest.
pub proof fn lemma_new_session_is_placed(
    model: Model,
    id: Seq<char>,
    session: Seq<char>,
    input_tokens: usize,
    session_final: bool,
    capacities: Capacities,
    now: u64,
)
    requires
        one_card_each(capacities.cards),
        model.sound(),
        !model.sessions.contains_key(session),
        !model.ledger.programs.contains_key(session),
    ensures
        ({
            let next = model.registered(
                id,
                session,
                input_tokens,
                session_final,
                capacities,
                now,
            );
            let whole = input_tokens + model.config.buffer_per_program;
            let required = if whole <= usize::MAX {
                whole
            } else {
                usize::MAX as int
            };
            let usage = next.ledger.usage;
            next.requests[id].phase == RequestPhase::Released ==> (
            next.requests[id].target matches Some(worker) ==> {
                &&& live(capacities, worker)
                &&& exists|at: int|
                    0 <= at < capacities.cards.len() && (#[trigger] capacities.cards[at]).worker
                        == worker && held_on(usage, worker) + required
                        <= capacities.cards[at].capacity
                &&& forall|at: int|
                    0 <= at < capacities.cards.len() && live(
                        capacities,
                        (#[trigger] capacities.cards[at]).worker,
                    ) && held_on(usage, capacities.cards[at].worker) + required
                        <= capacities.cards[at].capacity ==> held_on(usage, worker) <= held_on(
                        usage,
                        capacities.cards[at].worker,
                    ) && (held_on(usage, worker) == held_on(usage, capacities.cards[at].worker)
                        ==> !capacities.cards[at].worker.is_before(worker))
            })
        }),
{
    let kept = model.programs_expired(now).0;
    let roomy = kept.room_made(session);
    let cleared = roomy.removed_cleared(capacities).0;
    let queued = cleared.enqueued(id, session, input_tokens, session_final);
    lemma_expiry(model, now, session);
    lemma_expired(model, now);
    lemma_making_room(kept, session);
    assert(!roomy.ledger.programs.contains_key(session));
    assert(roomy.ledger.programs.dom().finite()) by {
        if let Some(first) = kept.evicted() {
            assert(roomy.ledger.programs.dom() =~= kept.ledger.programs.dom()
                || roomy.ledger.programs.dom() =~= kept.ledger.programs.dom().remove(first.name));
        }
    }
    lemma_leaving_workers(roomy, capacities, session);
    lemma_queueing(
        cleared,
        id,
        session,
        input_tokens,
        session_final,
    );
    lemma_admission(queued, id, capacities, now);
    assert(queued.sessions[session].waiting =~= seq![id]);
    let next = model.registered(id, session, input_tokens, session_final, capacities, now);
    if queued.can_begin(id) {
        let begun = queued.begun(id);
        lemma_beginning(queued, id);
        lemma_making_room(queued, session);
        let base = queued.room_made(session);
        assert(!base.ledger.programs.contains_key(session));
        let program = Program::first_turn(input_tokens);
        assert(begun.ledger.programs[session] == program);
        lemma_decision(begun, id, capacities, now);
        assert(begun.requests[id].prior is None);
        let after = begun.decided(id, capacities, now).0;
        assert(next.ledger == after.ledger && next.requests == after.requests);
        if after.requests[id].phase == RequestPhase::Released {
            let choice = after.requests[id].target;
            assert(after.ledger.usage == begun.ledger.usage) by {
                let required = input_tokens.saturating_add(begun.config.buffer_per_program);
                let worker = begun.ledger.admission_worker(capacities, required);
                lemma_release(begun, id, None);
                lemma_release(begun, id, worker);
                assert(begun.ledger.charge(program) is None);
            }
        }
    }
}

/// The end of a tracked request: it leaves its queue, its turn is settled, the next request of its
/// session is admitted, a session without requests is forgotten, and someone who waits is made to
/// look again. An unknown request changes nothing.
pub proof fn lemma_finish_stages(
    model: Model,
    id: Seq<char>,
    outcome: Outcome,
    capacities: Capacities,
    now: u64,
)
    ensures
        ({
            let (next, known) = model.finished(id, outcome, capacities, now);
            let request = model.requests[id];
            let settled = model.dequeued(id).settled(request, outcome, now);
            let session = request.session;
            let idle = !settled.sessions.contains_key(session)
                || settled.sessions[session].current is Some
                || settled.sessions[session].waiting.len() == 0;
            let admitted = if idle {
                settled
            } else {
                settled.admitted(settled.sessions[session].waiting[0], capacities, now).0
            };
            &&& known <==> model.requests.contains_key(id)
            &&& !known ==> next == model
            &&& known ==> {
                &&& next.requests == admitted.requests
                &&& next.ledger == admitted.ledger
                &&& next.timer_owner == admitted.timer_owner
                &&& admitted.sessions.contains_key(session)
                    && admitted.sessions[session].current is None
                    && admitted.sessions[session].waiting.len() == 0 ==> next.sessions
                    == admitted.sessions.remove(session)
                &&& !(admitted.sessions.contains_key(session)
                    && admitted.sessions[session].current is None
                    && admitted.sessions[session].waiting.len() == 0) ==> next.sessions
                    == admitted.sessions
                &&& next.next_retention_expiry == (Model {
                    sessions: next.sessions,
                    ..admitted
                }).retention_scheduled(session).next_retention_expiry
                &&& admitted.timer_owner is Some ==> next.next_reconcile_at == now
                &&& admitted.timer_owner is None ==> next.next_reconcile_at
                    == admitted.next_reconcile_at
            }
        }),
{
}

/// A request that leaves its queue is no longer tracked, and no longer its session's current one; no
/// other request, no program and no other session changes. One that was waiting passes the timer on.
pub proof fn lemma_leaving_a_queue(model: Model, id: Seq<char>)
    requires
        model.requests.contains_key(id),
    ensures
        ({
            let next = model.dequeued(id);
            let session = model.requests[id].session;
            &&& next.requests == model.requests.remove(id)
            &&& next.ledger == model.ledger
            &&& next.sessions.remove(session) == model.sessions.remove(session)
            &&& model.requests[id].phase == RequestPhase::Waiting ==> {
                let passed = (Model { requests: next.requests, ..model }).timer_passed(id);
                &&& next.timer_owner == passed.timer_owner
                &&& next.arrivals == passed.arrivals
                &&& next.wakeups == passed.wakeups
            }
            &&& model.requests[id].phase == RequestPhase::Released ==> {
                &&& next.timer_owner == model.timer_owner
                &&& next.arrivals == model.arrivals
                &&& next.wakeups == model.wakeups
            }
            &&& next.config == model.config
            &&& model.sessions.contains_key(session) ==> {
                &&& next.sessions.contains_key(session)
                &&& model.sessions[session].current == Some(id)
                    ==> next.sessions[session].current is None
                &&& model.sessions[session].current != Some(id) ==> next.sessions[session].current
                    == model.sessions[session].current
                &&& model.sessions[session].current != Some(id) && model.requests[id].phase
                    == RequestPhase::Waiting && model.sessions[session].stale < usize::MAX
                    ==> next.sessions[session] == (Session {
                    stale: (model.sessions[session].stale + 1) as usize,
                    ..model.sessions[session]
                }).compacted(model.waiting().remove(id))
                &&& model.sessions[session].current == Some(id) || model.requests[id].phase
                    == RequestPhase::Released ==> next.sessions[session].waiting
                    == model.sessions[session].compacted(model.waiting().remove(id)).waiting
            }
        }),
{
    let next = model.dequeued(id);
    let session = model.requests[id].session;
    assert(next.sessions.remove(session) =~= model.sessions.remove(session));
    let left = Model { requests: model.requests.remove(id), ..model };
    assert(left.waiting() =~= model.waiting().remove(id));
}

/// The periodic step ends retention, leaves workers that are gone, admits, resumes, forces and
/// relieves, and comes again after the interval.
pub proof fn lemma_reconcile_stages(
    model: Model,
    capacities: Capacities,
    decays: Map<Seq<char>, usize>,
    now: u64,
)
    ensures
        ({
            let timed = Model {
                next_reconcile_at: (now + model.config.scheduler_interval) as u128,
                ..model
            };
            let cleared = timed.programs_expired(now).0.removed_cleared(capacities).0;
            let admitted = cleared.all_admitted(cleared.candidates(), capacities, now).0;
            let decayed = admitted.ledger.decayed_usage(
                decays,
                Map::empty(),
                admitted.ledger.order_by(running()),
            );
            let rooms = admitted.ledger.rooms(capacities, capacities.cards.len());
            let packing = admitted.packed(
                rooms,
                decays,
                decayed,
                admitted.ledger.order_by(largest_first(admitted.ledger.resumable(rooms))),
            );
            let late = packing.model.ledger.order_by(
                timed_out(now, packing.model.config.resume_timeout),
            );
            let forced = packing.model.forced(capacities, decays, packing.decayed, late).0;
            let next = model.reconciled(capacities, decays, now).0;
            &&& next.ledger == forced.ledger.all_relieved(capacities.cards).0
            &&& next.requests == forced.requests
            &&& next.sessions == forced.sessions
            &&& next.timer_owner == forced.timer_owner
            &&& next.wakeups == forced.wakeups
            &&& next.next_reconcile_at == forced.next_reconcile_at
            &&& model.before_resuming(capacities, now) == admitted
            &&& admitted.programs_resumed(capacities, decays, decayed) == packing
        }),
{
}

/// Placing one more program: where no room takes it nothing happens. Otherwise it resumes in the room
/// that takes it, and where it is still in the table afterwards the room is smaller by its tokens and
/// the headroom.
pub proof fn lemma_packing_step(
    model: Model,
    rooms: Seq<Room>,
    decays: Map<Seq<char>, usize>,
    decayed: Map<WorkerWithDpRank, usize>,
    order: Seq<Rank>,
)
    ensures
        order.len() == 0 ==> model.packed(rooms, decays, decayed, order).model == model,
        order.len() > 0 ==> {
            let name = order[0].name;
            let rest = order.drop_first();
            let program = model.ledger.programs[name];
            let whole = resume_tokens(model.ledger, name);
            let seat = best_room(rooms, whole as usize, program.assigned_worker);
            let skipped = !model.ledger.programs.contains_key(name) || seat is None;
            let room = rooms[seat->0];
            let after = model.resumed(name, Some(room.worker)).0;
            let stays = after.ledger.programs.contains_key(name) && program.lifecycle
                == ProgramLifecycle::Paused;
            let all = model.packed(rooms, decays, decayed, order).model;
            &&& skipped ==> all == model.packed(rooms, decays, decayed, rest).model
            &&& !skipped && !stays ==> all == after.packed(rooms, decays, decayed, rest).model
            &&& !skipped && stays ==> all == after.packed(
                rooms.update(
                    seat->0,
                    Room { available: (room.available - whole) as usize, ..room },
                ),
                decays,
                decayed_more(
                    decayed,
                    room.worker,
                    decayed_tokens(decays, name, after.ledger.programs[name]),
                    model.ledger.buffer,
                ),
                rest,
            ).model
        },
{
    if order.len() > 0 {
        let name = order[0].name;
        let program = model.ledger.programs[name];
        let whole = resume_tokens(model.ledger, name);
        assert(whole == model.ledger.required(name));
        let seat = best_room(rooms, whole as usize, program.assigned_worker);
        if model.ledger.programs.contains_key(name) && seat is Some {
            let room = rooms[seat->0];
            let after = model.resumed(name, Some(room.worker)).0;
            if after.ledger.programs.contains_key(name) && program.lifecycle
                == ProgramLifecycle::Paused {
                let tokens = decayed_tokens(decays, name, after.ledger.programs[name]);
                let more = decayed_more(decayed, room.worker, tokens, model.ledger.buffer);
                let later = after.packed(
                    rooms.update(
                        seat->0,
                        Room { available: (room.available - whole) as usize, ..room },
                    ),
                    decays,
                    more,
                    order.drop_first(),
                );
                assert(model.packed(rooms, decays, decayed, order).model == later.model);
            }
        }
    }
}

/// Forcing one more program: it resumes on the worker that takes it, or without one where some
/// worker is live; while none is live it stays as it is.
pub proof fn lemma_forcing_step(
    model: Model,
    capacities: Capacities,
    decays: Map<Seq<char>, usize>,
    decayed: Map<WorkerWithDpRank, usize>,
    order: Seq<Rank>,
)
    ensures
        order.len() == 0 ==> model.forced(capacities, decays, decayed, order).0 == model,
        order.len() > 0 ==> {
            let name = order[0].name;
            let rest = order.drop_first();
            let program = model.ledger.programs[name];
            let target = forced_target(capacities, decayed, program.assigned_worker);
            let nowhere = target is None && forall|worker: WorkerWithDpRank|
                !live(capacities, worker);
            let skipped = !model.ledger.programs.contains_key(name) || nowhere;
            let all = model.forced(capacities, decays, decayed, order).0;
            &&& skipped ==> all == model.forced(capacities, decays, decayed, rest).0
            &&& !skipped ==> {
                let after = model.resumed(name, target).0;
                let counted = target is Some && program.lifecycle == ProgramLifecycle::Paused
                    && after.ledger.programs.contains_key(name);
                &&& counted ==> all == after.forced(
                    capacities,
                    decays,
                    decayed_more(
                        decayed,
                        target->0,
                        decayed_tokens(decays, name, after.ledger.programs[name]),
                        model.ledger.buffer,
                    ),
                    rest,
                ).0
                &&& !counted ==> all == after.forced(capacities, decays, decayed, rest).0
            }
        },
{
    if order.len() > 0 {
        let name = order[0].name;
        let rest = order.drop_first();
        let program = model.ledger.programs[name];
        let target = forced_target(capacities, decayed, program.assigned_worker);
        if capacities.has_live_worker() {
            let worker = choose|worker: WorkerWithDpRank| capacities.is_live(worker);
            lemma_liveness(capacities, worker);
        } else {
            assert forall|worker: WorkerWithDpRank| !live(capacities, worker) by {
                lemma_liveness(capacities, worker);
            }
        }
        if model.ledger.programs.contains_key(name) && !(target is None
            && !capacities.has_live_worker()) {
            let (after, changed) = model.resumed(name, target);
            let more = match target {
                Some(worker) if changed && after.ledger.programs.contains_key(name) =>
                    decayed_more(
                    decayed,
                    worker,
                    decayed_tokens(decays, name, after.ledger.programs[name]),
                    model.ledger.buffer,
                ),
                _ => decayed,
            };
            assert(model.forced(capacities, decays, decayed, order).0 == after.forced(
                capacities,
                decays,
                more,
                rest,
            ).0);
        }
    }
}

/// The tokens that a program holds on its worker between turns.
pub open spec fn acting_charge(ledger: Ledger, name: Seq<char>) -> int {
    let whole = ledger.programs[name].acting_tokens + ledger.buffer;
    if whole <= usize::MAX {
        whole
    } else {
        usize::MAX as int
    }
}

/// Draining a worker pauses the first programs of an order, each of which loses its worker, and
/// touches no other program. It goes on until the worker holds no more than the goal or the order
/// ends, and it does not pause a program once the goal is reached.
pub proof fn lemma_draining(
    ledger: Ledger,
    worker: WorkerWithDpRank,
    goal: usize,
    order: Seq<Rank>,
) -> (count: int)
    requires
        taken_once(order),
        forall|at: int|
            0 <= at < order.len() ==> {
                let name = (#[trigger] order[at]).name;
                &&& ledger.programs.contains_key(name)
                &&& ledger.programs[name].lifecycle == ProgramLifecycle::Active
                &&& ledger.programs[name].status == ProgramStatus::Acting
                &&& ledger.programs[name].assigned_worker == Some(worker)
            },
    ensures
        ({
            let after = ledger.drained(worker, goal, order).0;
            &&& 0 <= count <= order.len()
            &&& forall|at: int|
                0 <= at < count ==> {
                    let name = (#[trigger] order[at]).name;
                    after.programs.contains_key(name) && after.programs[name] == (Program {
                        lifecycle: ProgramLifecycle::Paused,
                        assigned_worker: None,
                        ..ledger.programs[name]
                    })
                }
            &&& forall|name: Seq<char>|
                #![trigger after.programs.contains_key(name)]
                (forall|at: int| 0 <= at < count ==> (#[trigger] order[at]).name != name)
                    ==> after.programs.contains_key(name) == ledger.programs.contains_key(name) && (
                ledger.programs.contains_key(name) ==> after.programs[name]
                    == ledger.programs[name])
            &&& held_on(after.usage, worker) <= goal || count == order.len()
            &&& count > 0 ==> held_on(after.usage, worker) + acting_charge(
                ledger,
                order[count - 1].name,
            ) > goal
            &&& held_on(ledger.usage, worker) <= goal ==> count == 0
            &&& after.buffer == ledger.buffer
        }),
    decreases order.len(),
{
    if order.len() == 0 || used_on(ledger.usage, worker) <= goal {
        0
    } else {
        let name = order[0].name;
        let rest = order.drop_first();
        let here = ledger.with_paused(name);
        let paused = Program {
            lifecycle: ProgramLifecycle::Paused,
            assigned_worker: None,
            ..ledger.programs[name]
        };
        lemma_one_program_at_a_time(ledger, name, paused);
        assert forall|at: int| 0 <= at < rest.len() implies {
            let other = (#[trigger] rest[at]).name;
            &&& other != name
            &&& here.programs.contains_key(other)
            &&& here.programs[other].lifecycle == ProgramLifecycle::Active
            &&& here.programs[other].status == ProgramStatus::Acting
            &&& here.programs[other].assigned_worker == Some(worker)
        } by {
            assert(rest[at] == order[at + 1]);
            assert(order[0].name != order[at + 1].name);
        }
        assert(taken_once(rest)) by {
            assert forall|i: int, j: int| 0 <= i < j < rest.len() implies (#[trigger] rest[i]).name
                != (#[trigger] rest[j]).name by {
                assert(order[i + 1].name != order[j + 1].name);
            }
        }
        let more = lemma_draining(here, worker, goal, rest);
        let count = more + 1;
        let after = ledger.drained(worker, goal, order).0;
        assert(after == here.drained(worker, goal, rest).0);
        assert forall|at: int| 0 <= at < count implies {
            let other = (#[trigger] order[at]).name;
            after.programs.contains_key(other) && after.programs[other] == (Program {
                lifecycle: ProgramLifecycle::Paused,
                assigned_worker: None,
                ..ledger.programs[other]
            })
        } by {
            if at == 0 {
                assert forall|k: int| 0 <= k < more implies (#[trigger] rest[k]).name != name by {
                    assert(rest[k] == order[k + 1]);
                    assert(order[0].name != order[k + 1].name);
                }
                assert(here.programs[name] == paused);
                assert(after.programs.contains_key(name) == here.programs.contains_key(name));
            } else {
                assert(rest[at - 1] == order[at]);
                assert(order[0].name != order[at].name);
            }
        }
        assert forall|other: Seq<char>|
            #![trigger after.programs.contains_key(other)]
            (forall|at: int| 0 <= at < count ==> (#[trigger] order[at]).name != other) implies
            after.programs.contains_key(other) == ledger.programs.contains_key(other) && (
        ledger.programs.contains_key(other) ==> after.programs[other]
            == ledger.programs[other]) by {
            assert(order[0].name != other);
            assert forall|at: int| 0 <= at < more implies (#[trigger] rest[at]).name != other by {
                assert(order[at + 1].name != other);
            }
            assert(after.programs.contains_key(other) == here.programs.contains_key(other));
        }
        if more > 0 {
            assert(rest[more - 1] == order[count - 1]);
            assert(order[0].name != order[count - 1].name);
        } else {
            assert(after == here) by {
                if rest.len() > 0 {
                    assert(used_on(here.usage, worker) <= goal) by {
                        if used_on(here.usage, worker) > goal {
                            let first = rest[0].name;
                            lemma_drains_on(here, worker, goal, rest);
                        }
                    }
                }
            }
        }
        count
    }
}

/// Above the goal a drain pauses at least its first program.
proof fn lemma_drains_on(
    ledger: Ledger,
    worker: WorkerWithDpRank,
    goal: usize,
    order: Seq<Rank>,
)
    requires
        order.len() > 0,
        taken_once(order),
        used_on(ledger.usage, worker) > goal,
        ledger.can_pause(order[0].name),
    ensures
        ({
            let after = ledger.drained(worker, goal, order).0;
            &&& after.programs.contains_key(order[0].name)
            &&& after.programs[order[0].name].lifecycle == ProgramLifecycle::Paused
        }),
{
    let here = ledger.with_paused(order[0].name);
    lemma_pauses_stay(here, worker, goal, order.drop_first(), order[0].name);
}

proof fn lemma_pauses_stay(
    ledger: Ledger,
    worker: WorkerWithDpRank,
    goal: usize,
    order: Seq<Rank>,
    name: Seq<char>,
)
    requires
        ledger.programs.contains_key(name),
        ledger.programs[name].lifecycle == ProgramLifecycle::Paused,
    ensures
        ({
            let after = ledger.drained(worker, goal, order).0;
            &&& after.programs.contains_key(name)
            &&& after.programs[name].lifecycle == ProgramLifecycle::Paused
        }),
    decreases order.len(),
{
    if order.len() > 0 && used_on(ledger.usage, worker) > goal {
        lemma_pauses_stay(
            ledger.with_paused(order[0].name),
            worker,
            goal,
            order.drop_first(),
            name,
        );
    }
}

/// Marking touches only the programs that it is given, and only their marks.
pub proof fn lemma_marking(ledger: Ledger, order: Seq<Rank>, name: Seq<char>)
    ensures
        ({
            let after = ledger.marked(order).0;
            &&& after.programs.contains_key(name) == ledger.programs.contains_key(name)
            &&& ledger.programs.contains_key(name) && is_taken(order, name) ==> after.programs[name]
                == (Program { marked_for_pause: true, ..ledger.programs[name] })
            &&& ledger.programs.contains_key(name) && !is_taken(order, name)
                ==> after.programs[name] == ledger.programs[name]
        }),
    decreases order.len(),
{
    if order.len() > 0 {
        let rest = order.drop_first();
        lemma_marking(ledger.with_mark(order[0].name), rest, name);
        if is_taken(order, name) {
            let at = choose|at: int| 0 <= at < order.len() && (#[trigger] order[at]).name == name;
            if at > 0 {
                assert(rest[at - 1].name == name);
            }
        } else {
            assert(order[0].name != name);
            assert forall|at: int| 0 <= at < rest.len() implies (#[trigger] rest[at]).name
                != name by {
                assert(order[at + 1].name != name);
            }
        }
    }
}

/// The relief of one worker. Up to its pause limit nothing happens. Above it programs on it between
/// turns are paused, the smaller first, until it holds no more than its goal; where they are not
/// enough, those in a turn on it are marked to pause after it, and only then. No other program is
/// touched.
pub proof fn lemma_relief(ledger: Ledger, card: CapacityCard, a: Seq<char>, b: Seq<char>)
    requires
        ledger.programs.dom().finite(),
        ledger.programs.contains_key(a),
        ledger.programs.contains_key(b),
    ensures
        ({
            let after = ledger.relieved(card).0;
            let program = ledger.programs[a];
            let other = ledger.programs[b];
            let here = program.lifecycle == ProgramLifecycle::Active && program.assigned_worker
                == Some(card.worker) && !program.marked_for_pause;
            let there = other.lifecycle == ProgramLifecycle::Active && other.assigned_worker
                == Some(card.worker) && !other.marked_for_pause;
            let acting = ledger.order_by(on_worker(card.worker, ProgramStatus::Acting));
            let drained = ledger.drained(card.worker, card.pause_goal, acting).0;
            let paused = Program {
                lifecycle: ProgramLifecycle::Paused,
                assigned_worker: None,
                ..program
            };
            &&& held_on(ledger.usage, card.worker) <= card.pause_limit ==> after == ledger
            &&& held_on(ledger.usage, card.worker) > card.pause_limit ==> {
                &&& after.programs.contains_key(a)
                &&& !here ==> after.programs[a] == program
                &&& here && program.status == ProgramStatus::Acting ==> after.programs[a] == program
                    || after.programs[a] == paused
                &&& here && program.status == ProgramStatus::Acting && held_on(
                    drained.usage,
                    card.worker,
                ) > card.pause_goal ==> after.programs[a] == paused
                &&& here && there && program.status == ProgramStatus::Acting && other.status
                    == ProgramStatus::Acting && (program.token_total < other.token_total || (
                program.token_total == other.token_total && text_before(a, b)))
                    && after.programs[b].lifecycle == ProgramLifecycle::Paused ==> after.programs[a]
                    == paused
                &&& here && program.status == ProgramStatus::Reasoning && held_on(
                    drained.usage,
                    card.worker,
                ) <= card.pause_goal ==> after.programs[a] == program
                &&& here && program.status == ProgramStatus::Reasoning && held_on(
                    drained.usage,
                    card.worker,
                ) > card.pause_goal ==> after.programs[a] == (Program {
                    marked_for_pause: true,
                    ..program
                })
            }
        }),
{
    let worker = card.worker;
    if used_on(ledger.usage, worker) > card.pause_limit {
        let acting = ledger.order_by(on_worker(worker, ProgramStatus::Acting));
        let reasoning = ledger.order_by(on_worker(worker, ProgramStatus::Reasoning));
        lemma_smallest_is_relieved_first(ledger, worker, ProgramStatus::Acting, a, b);
        lemma_smallest_is_relieved_first(ledger, worker, ProgramStatus::Acting, b, a);
        lemma_smallest_is_relieved_first(ledger, worker, ProgramStatus::Reasoning, a, b);
        lemma_smallest_is_relieved_first(ledger, worker, ProgramStatus::Reasoning, b, a);
        assert forall|at: int| 0 <= at < acting.len() implies {
            let name = (#[trigger] acting[at]).name;
            &&& ledger.programs.contains_key(name)
            &&& ledger.programs[name].lifecycle == ProgramLifecycle::Active
            &&& ledger.programs[name].status == ProgramStatus::Acting
            &&& ledger.programs[name].assigned_worker == Some(worker)
        } by {
            let name = acting[at].name;
            assert(is_taken(acting, name));
            lemma_smallest_is_relieved_first(ledger, worker, ProgramStatus::Acting, name, name);
        }
        let count = lemma_draining(ledger, worker, card.pause_goal, acting);
        let drained = ledger.drained(worker, card.pause_goal, acting).0;
        assert(drained.programs.contains_key(a) && drained.programs.contains_key(b)) by {
            lemma_still_there(ledger, acting, count, drained, a);
            lemma_still_there(ledger, acting, count, drained, b);
        }
        lemma_marking(drained, reasoning, a);
        lemma_marking(drained, reasoning, b);
        if precedes(acting, a, b) {
            let (i, j) = choose|i: int, j: int|
                0 <= i < j < acting.len() && (#[trigger] acting[i]).name == a && (
                #[trigger] acting[j]).name == b;
            if j < count {
                assert(drained.programs[acting[i].name].lifecycle == ProgramLifecycle::Paused);
            } else {
                assert forall|at: int| 0 <= at < count implies (#[trigger] acting[at]).name != b by {
                    assert(acting[at].name != acting[j].name);
                }
                assert(drained.programs[b] == ledger.programs[b]);
            }
        }
        if is_taken(acting, a) {
            let i = choose|i: int| 0 <= i < acting.len() && (#[trigger] acting[i]).name == a;
            if i < count {
                assert(drained.programs[acting[i].name].lifecycle == ProgramLifecycle::Paused);
            } else {
                assert forall|at: int| 0 <= at < count implies (#[trigger] acting[at]).name != a by {
                    assert(acting[at].name != acting[i].name);
                }
            }
        } else {
            assert forall|at: int| 0 <= at < count implies (#[trigger] acting[at]).name != a by {
                assert(is_taken(acting, acting[at].name));
            }
        }
    }
}

proof fn lemma_still_there(
    ledger: Ledger,
    order: Seq<Rank>,
    count: int,
    after: Ledger,
    name: Seq<char>,
)
    requires
        0 <= count <= order.len(),
        ledger.programs.contains_key(name),
        forall|at: int|
            0 <= at < count ==> after.programs.contains_key((#[trigger] order[at]).name),
        forall|other: Seq<char>|
            #![trigger after.programs.contains_key(other)]
            (forall|at: int| 0 <= at < count ==> (#[trigger] order[at]).name != other)
                ==> after.programs.contains_key(other) == ledger.programs.contains_key(other),
    ensures
        after.programs.contains_key(name),
{
    if exists|at: int| 0 <= at < count && (#[trigger] order[at]).name == name {
        let at = choose|at: int| 0 <= at < count && (#[trigger] order[at]).name == name;
        assert(after.programs.contains_key(order[at].name));
    }
}

/// Workers are relieved one after the other.
pub proof fn lemma_reliefs_follow_each_other(
    ledger: Ledger,
    card: CapacityCard,
    cards: Seq<CapacityCard>,
)
    ensures
        ledger.all_relieved(Seq::empty()).0 == ledger,
        ledger.all_relieved(seq![card] + cards).0 == ledger.relieved(card).0.all_relieved(
            cards,
        ).0,
{
    assert((seq![card] + cards).drop_first() =~= cards);
    assert((seq![card] + cards)[0] == card);
}

/// Events: a sent request is sent, a completed or aborted one ends so, and others change nothing.
pub proof fn lemma_events(
    model: Model,
    request_id: String,
    worker: WorkerWithDpRank,
    context_tokens: Option<usize>,
    acting_tokens: usize,
    capacities: Capacities,
    now: u64,
)
    ensures
        model.after_event(RequestEvent::Sent { request_id, worker }, capacities, now) == model.sent(
            request_id@,
            worker,
            now,
        ),
        model.after_event(
            RequestEvent::Completed { request_id, context_tokens, acting_tokens },
            capacities,
            now,
        ) == model.finished(
            request_id@,
            Outcome::Completed { context_tokens, acting_tokens },
            capacities,
            now,
        ),
        model.after_event(RequestEvent::Aborted { request_id }, capacities, now) == model.finished(
            request_id@,
            Outcome::Aborted,
            capacities,
            now,
        ),
        model.after_event(RequestEvent::Other, capacities, now) == (model, false),
{
}

/// Decayed usage adds up program by program.
pub proof fn lemma_decayed_usage_adds_up(
    ledger: Ledger,
    decays: Map<Seq<char>, usize>,
    decayed: Map<WorkerWithDpRank, usize>,
    first: Rank,
    rest: Seq<Rank>,
)
    requires
        ledger.programs[first.name].assigned_worker is Some,
    ensures
        ledger.decayed_usage(decays, decayed, Seq::empty()) == decayed,
        ledger.decayed_usage(decays, decayed, seq![first] + rest) == ledger.decayed_usage(
            decays,
            decayed_more(
                decayed,
                ledger.programs[first.name].assigned_worker->0,
                decayed_tokens(decays, first.name, ledger.programs[first.name]),
                ledger.buffer,
            ),
            rest,
        ),
{
    assert((seq![first] + rest).drop_first() =~= rest);
    assert((seq![first] + rest)[0] == first);
}

proof fn lemma_leading(queue: Seq<Seq<char>>, kept: Set<Seq<char>>)
    ensures
        ({
            let rest = drop_leading(queue, kept);
            let dropped = queue.len() - rest.len();
            &&& 0 <= dropped
            &&& rest == queue.skip(dropped)
            &&& forall|at: int| 0 <= at < dropped ==> !kept.contains(#[trigger] queue[at])
            &&& rest.len() > 0 ==> kept.contains(rest[0])
        }),
    decreases queue.len(),
{
    if queue.len() > 0 && !kept.contains(queue[0]) {
        let shorter = queue.drop_first();
        lemma_leading(shorter, kept);
        let rest = drop_leading(shorter, kept);
        let dropped = queue.len() - rest.len();
        assert(rest =~= queue.skip(dropped));
        assert forall|at: int| 0 <= at < dropped implies !kept.contains(#[trigger] queue[at]) by {
            if at > 0 {
                assert(queue[at] == shorter[at - 1]);
            }
        }
    } else {
        assert(queue.skip(0) =~= queue);
    }
}

/// A queue that loses ended requests keeps every waiting one, in its order and at its front. It loses
/// all ended ones once those behind the front are eight or more and half of it, and otherwise those
/// before the front.
pub proof fn lemma_compaction(session: Session, waiting: Set<Seq<char>>, id: Seq<char>)
    ensures
        ({
            let next = session.compacted(waiting);
            let front = session.waiting.len() - drop_leading(session.waiting, waiting).len();
            let behind = if session.stale > front {
                session.stale - front
            } else {
                0
            };
            let rest = session.waiting.skip(front);
            let many = behind >= 8 && behind + behind >= rest.len();
            &&& next.current == session.current
            &&& 0 <= front <= session.waiting.len()
            &&& forall|at: int| 0 <= at < front ==> !waiting.contains(#[trigger] session.waiting[at])
            &&& front < session.waiting.len() ==> waiting.contains(session.waiting[front])
            &&& !many ==> next.waiting == rest && next.stale == behind
            &&& many ==> next.stale == 0
            &&& many ==> next.waiting == rest.filter(|name: Seq<char>| waiting.contains(name))
            &&& waiting.contains(id) ==> (next.waiting.contains(id) <==> session.waiting.contains(
                id,
            ))
            &&& next.stale < 8 || next.stale + next.stale < next.waiting.len()
        }),
{
    let next = session.compacted(waiting);
    lemma_leading(session.waiting, waiting);
    let rest = drop_leading(session.waiting, waiting);
    let front = session.waiting.len() - rest.len();
    let pred = |name: Seq<char>| waiting.contains(name);
    if waiting.contains(id) {
        if session.waiting.contains(id) {
            let at = choose|at: int| 0 <= at < session.waiting.len() && session.waiting[at] == id;
            assert(rest[at - front] == id);
            rest.lemma_filter_contains(pred, at - front);
        }
        if rest.contains(id) {
            let at = choose|at: int| 0 <= at < rest.len() && rest[at] == id;
            assert(session.waiting[at + front] == id);
        }
        if only(rest, waiting).contains(id) {
            rest.lemma_filter_contains_rev(pred, id);
        }
    }
}

/// The arrivals lose the ended requests once they are more than twice the waiting ones and two
/// hundred and fifty-six. The waiting ones stay in their order.
pub proof fn lemma_arrival_compaction(model: Model)
    ensures
        ({
            let next = model.arrivals_compacted();
            let waiting = model.waiting();
            let many = model.arrivals.len() > waiting.len() + waiting.len() + 256;
            &&& !many ==> next == model
            &&& many ==> next.arrivals == model.arrivals.filter(
                |id: Seq<char>|
                    model.requests.contains_key(id) && model.requests[id].phase
                        == RequestPhase::Waiting,
            )
            &&& next.ledger == model.ledger
            &&& next.requests == model.requests
            &&& next.sessions == model.sessions
            &&& next.timer_owner == model.timer_owner
            &&& next.wakeups == model.wakeups
            &&& next.next_reconcile_at == model.next_reconcile_at
        }),
{
    let waiting = model.waiting();
    let raw = |id: Seq<char>|
        model.requests.contains_key(id) && model.requests[id].phase == RequestPhase::Waiting;
    let named = |name: Seq<char>| waiting.contains(name);
    assert(raw =~= named);
}

proof fn lemma_filter_order(
    items: Seq<Seq<char>>,
    pred: spec_fn(Seq<char>) -> bool,
    p: int,
    q: int,
) -> (places: (int, int))
    requires
        0 <= p < q < items.len(),
        pred(items[p]),
        pred(items[q]),
    ensures
        0 <= places.0 < places.1 < items.filter(pred).len(),
        items.filter(pred)[places.0] == items[p],
        items.filter(pred)[places.1] == items[q],
    decreases items.len(),
{
    let shorter = items.drop_last();
    reveal(Seq::filter);
    if q < items.len() - 1 {
        let places = lemma_filter_order(shorter, pred, p, q);
        assert(shorter[p] == items[p] && shorter[q] == items[q]);
        places
    } else {
        assert(shorter[p] == items[p]);
        shorter.lemma_filter_contains(pred, p);
        let left = shorter.filter(pred);
        let at = choose|at: int| 0 <= at < left.len() && left[at] == items[p];
        (at, left.len() as int)
    }
}

/// Of two candidates the one that arrived earlier is admitted first.
pub proof fn lemma_candidates_in_order_of_arrival(model: Model, p: int, q: int)
    requires
        0 <= p < q < model.arrivals.len(),
        model.candidates().contains(model.arrivals[p]),
        model.candidates().contains(model.arrivals[q]),
    ensures
        exists|i: int, j: int|
            0 <= i < j < model.candidates().len() && #[trigger] model.candidates()[i]
                == model.arrivals[p] && #[trigger] model.candidates()[j] == model.arrivals[q],
{
    let pred = |id: Seq<char>| model.is_next(id);
    let a = choose|a: int|
        0 <= a < model.candidates().len() && model.candidates()[a] == model.arrivals[p];
    let b = choose|b: int|
        0 <= b < model.candidates().len() && model.candidates()[b] == model.arrivals[q];
    model.arrivals.lemma_filter_pred(pred, a);
    model.arrivals.lemma_filter_pred(pred, b);
    let places = lemma_filter_order(model.arrivals, pred, p, q);
    assert(model.candidates()[places.0] == model.arrivals[p]);
    assert(model.candidates()[places.1] == model.arrivals[q]);
}

/// A step reports a change exactly where it makes one: retention where a program leaves, lost workers
/// where a program leaves its worker, a deferral where the program differs after it, a resumption
/// where the program was paused, and a release where the request was let go.
pub proof fn lemma_changes_are_reported(
    model: Model,
    id: Seq<char>,
    session: Seq<char>,
    worker: Option<WorkerWithDpRank>,
    capacities: Capacities,
    keep_worker: bool,
    now: u64,
)
    requires
        model.ledger.programs.dom().finite(),
    ensures
        ({
            let (next, changed) = model.programs_expired(now);
            &&& !changed ==> next.ledger == model.ledger
            &&& changed ==> exists|name: Seq<char>| #[trigger]
                model.ledger.programs.contains_key(name) && !next.ledger.programs.contains_key(name)
        }),
        ({
            let (next, changed) = model.removed_cleared(capacities);
            &&& !changed ==> next.ledger == model.ledger
            &&& changed ==> exists|name: Seq<char>| #[trigger]
                model.ledger.programs.contains_key(name)
                    && model.ledger.programs[name].assigned_worker is Some
                    && next.ledger.programs[name].assigned_worker is None
        }),
        ({
            let (next, changed) = model.deferred(session, now, keep_worker);
            let known = model.ledger.programs.contains_key(session);
            &&& !known ==> !changed
            &&& known ==> (changed <==> next.ledger.programs[session]
                != model.ledger.programs[session])
        }),
        model.resumed(session, worker).1 <==> model.ledger.programs.contains_key(session)
            && model.ledger.programs[session].lifecycle == ProgramLifecycle::Paused,
        ({
            let (next, released) = model.released(id, worker);
            &&& !released ==> next == model
            &&& released ==> model.requests[id].phase == RequestPhase::Waiting
                && next.requests[id].phase == RequestPhase::Released
        }),
{
    let (after, expiries) = model.programs_expired(now);
    let gone = model.ledger.order_by(
        expired(model.sessions, now, model.config.session_retention),
    );
    if expiries {
        let name = gone[0].name;
        assert(is_taken(gone, name));
        lemma_rested_programs_expire(
            model.ledger,
            model.sessions,
            now,
            model.config.session_retention,
            name,
        );
        lemma_expiry(model, now, name);
        assert(model.ledger.programs.contains_key(name));
    }
    let (cleared, clears) = model.removed_cleared(capacities);
    let lost = model.ledger.order_by(on_removed_worker(capacities));
    if clears {
        let name = lost[0].name;
        assert(is_taken(lost, name));
        lemma_stranded_are_taken(model.ledger, capacities, name);
        lemma_liveness(capacities, model.ledger.programs[name].assigned_worker->0);
        lemma_leaving_workers(model, capacities, name);
        assert(model.ledger.programs.contains_key(name));
    }
    lemma_release(model, id, worker);
}

/// A decision reports a change exactly where it changes the request's phase or its program.
pub proof fn lemma_decisions_are_reported(
    model: Model,
    id: Seq<char>,
    capacities: Capacities,
    now: u64,
)
    requires
        one_card_each(capacities.cards),
        model.is_next(id),
        model.requests[id].began,
        model.ledger.programs.contains_key(model.requests[id].session),
    ensures
        ({
            let (next, changed) = model.decided(id, capacities, now);
            let session = model.requests[id].session;
            changed <==> next.requests[id].phase != model.requests[id].phase
                || next.ledger.programs[session] != model.ledger.programs[session]
        }),
{
    let request = model.requests[id];
    let session = request.session;
    let program = model.ledger.programs[session];
    let (next, changed) = model.decided(id, capacities, now);
    let free = model.with_ledger(
        if program.assigned_worker is Some {
            model.ledger.assigned(session, None)
        } else {
            model.ledger
        },
    );
    let required = request.input_tokens.saturating_add(model.config.buffer_per_program);
    let choice = free.ledger.admission_worker(capacities, required);
    lemma_release(model, id, program.assigned_worker);
    lemma_release(model, id, None);
    lemma_release(free, id, choice);
    lemma_deferral(model, session, now, true);
    lemma_deferral(model, session, now, false);
    lemma_deferral(free, session, now, false);
}

/// Relief reports a change exactly where it pauses or marks a program.
pub proof fn lemma_reliefs_are_reported(ledger: Ledger, order: Seq<Rank>, card: CapacityCard)
    ensures
        !ledger.marked(order).1 ==> ledger.marked(order).0 == ledger,
        !ledger.drained(card.worker, card.pause_goal, order).1 ==> ledger.drained(
            card.worker,
            card.pause_goal,
            order,
        ).0 == ledger,
        !ledger.relieved(card).1 ==> ledger.relieved(card).0 == ledger,
        ledger.marked(order).1 ==> exists|name: Seq<char>| #[trigger]
            ledger.programs.contains_key(name) && !ledger.programs[name].marked_for_pause
                && ledger.marked(order).0.programs[name].marked_for_pause,
        ledger.drained(card.worker, card.pause_goal, order).1 ==> exists|name: Seq<char>| #[trigger]
            ledger.programs.contains_key(name) && ledger.programs[name].lifecycle
                == ProgramLifecycle::Active && ledger.drained(
                card.worker,
                card.pause_goal,
                order,
            ).0.programs[name].lifecycle == ProgramLifecycle::Paused,
{
    lemma_marks_are_reported(ledger, order);
    lemma_drains_are_reported(ledger, card.worker, card.pause_goal, order);
    let acting = ledger.order_by(on_worker(card.worker, ProgramStatus::Acting));
    let reasoning = ledger.order_by(on_worker(card.worker, ProgramStatus::Reasoning));
    lemma_drains_are_reported(ledger, card.worker, card.pause_goal, acting);
    lemma_marks_are_reported(
        ledger.drained(card.worker, card.pause_goal, acting).0,
        reasoning,
    );
}

proof fn lemma_marks_are_reported(ledger: Ledger, order: Seq<Rank>)
    ensures
        !ledger.marked(order).1 ==> ledger.marked(order).0 == ledger,
        ledger.marked(order).1 ==> exists|name: Seq<char>| #[trigger]
            ledger.programs.contains_key(name) && !ledger.programs[name].marked_for_pause
                && ledger.marked(order).0.programs[name].marked_for_pause,
    decreases order.len(),
{
    if order.len() > 0 {
        let name = order[0].name;
        let here = ledger.with_mark(name);
        let rest = order.drop_first();
        lemma_marks_are_reported(here, rest);
        if ledger.can_mark(name) {
            lemma_marking(here, rest, name);
            assert(ledger.programs.contains_key(name));
        } else if here.marked(rest).1 {
            let other = choose|other: Seq<char>| #[trigger]
                here.programs.contains_key(other) && !here.programs[other].marked_for_pause
                    && here.marked(rest).0.programs[other].marked_for_pause;
            assert(ledger.programs.contains_key(other));
        }
    }
}

proof fn lemma_drains_are_reported(
    ledger: Ledger,
    worker: WorkerWithDpRank,
    goal: usize,
    order: Seq<Rank>,
)
    ensures
        ({
            let (after, changed) = ledger.drained(worker, goal, order);
            &&& !changed ==> after == ledger
            &&& changed ==> exists|name: Seq<char>| #[trigger]
                ledger.programs.contains_key(name) && ledger.programs[name].lifecycle
                    == ProgramLifecycle::Active && after.programs[name].lifecycle
                    == ProgramLifecycle::Paused
        }),
    decreases order.len(),
{
    if order.len() > 0 && used_on(ledger.usage, worker) > goal {
        let name = order[0].name;
        let here = ledger.with_paused(name);
        let rest = order.drop_first();
        lemma_drains_are_reported(here, worker, goal, rest);
        if ledger.can_pause(name) {
            lemma_pauses_stay(here, worker, goal, rest, name);
            assert(ledger.programs.contains_key(name));
        } else if here.drained(worker, goal, rest).1 {
            let other = choose|other: Seq<char>| #[trigger]
                here.programs.contains_key(other) && here.programs[other].lifecycle
                    == ProgramLifecycle::Active && here.drained(
                    worker,
                    goal,
                    rest,
                ).0.programs[other].lifecycle == ProgramLifecycle::Paused;
            assert(ledger.programs.contains_key(other));
        }
    }
}

/// Packing and forcing report a change exactly where they resume a program; without one they leave
/// the state as it is.
pub proof fn lemma_resumptions_are_reported(
    model: Model,
    rooms: Seq<Room>,
    capacities: Capacities,
    decays: Map<Seq<char>, usize>,
    decayed: Map<WorkerWithDpRank, usize>,
    order: Seq<Rank>,
)
    ensures
        ({
            let packing = model.packed(rooms, decays, decayed, order);
            let (forced, changed) = model.forced(capacities, decays, decayed, order);
            &&& !packing.changed ==> packing.model == model && packing.decayed == decayed
            &&& !changed ==> forced == model
            &&& packing.changed || changed ==> exists|at: int|
                0 <= at < order.len() && model.ledger.programs.contains_key(
                    (#[trigger] order[at]).name,
                ) && model.ledger.programs[order[at].name].lifecycle == ProgramLifecycle::Paused
        }),
    decreases order.len(),
{
    if order.len() > 0 {
        let rest = order.drop_first();
        let name = order[0].name;
        lemma_resumptions_are_reported(model, rooms, capacities, decays, decayed, rest);
        assert forall|at: int| 0 <= at < rest.len() implies #[trigger] rest[at] == order[at + 1] by {}
        if model.packed(rooms, decays, decayed, rest).changed || model.forced(
            capacities,
            decays,
            decayed,
            rest,
        ).1 {
            let at = choose|at: int|
                0 <= at < rest.len() && model.ledger.programs.contains_key(
                    (#[trigger] rest[at]).name,
                ) && model.ledger.programs[rest[at].name].lifecycle == ProgramLifecycle::Paused;
            assert(model.ledger.programs.contains_key(order[at + 1].name));
        }
        if model.ledger.programs.contains_key(name) && model.ledger.programs[name].lifecycle
            == ProgramLifecycle::Paused {
            assert(model.ledger.programs.contains_key(order[0].name));
        }
    }
}

/// A waiter that keeps the timer and sleeps as long as it is told takes the periodic step when it
/// wakes, and would not have taken it at any time before, unless the sleep is none at all. One that
/// does not keep the timer is told nothing and takes no step.
pub proof fn lemma_sleeper_wakes_in_time(model: Model, id: Seq<char>, now: u64, later: u64)
    requires
        now <= later,
    ensures
        model.sleep(id, now) is None <==> model.timer_owner != Some(id),
        model.sleep(id, now) is None ==> !model.takes_step(id, later),
        model.sleep(id, now) matches Some(length) ==> (model.takes_step(id, later) <==> later >= now
            + length),
{
}

/// The periodic step reports a change exactly where one of its stages does.
pub proof fn lemma_reconcile_reports(
    model: Model,
    capacities: Capacities,
    decays: Map<Seq<char>, usize>,
    now: u64,
)
    ensures
        ({
            let timed = Model {
                next_reconcile_at: (now + model.config.scheduler_interval) as u128,
                ..model
            };
            let (kept, expiries) = timed.programs_expired(now);
            let (cleared, clears) = kept.removed_cleared(capacities);
            let (admitted, admissions) = cleared.all_admitted(
                cleared.candidates(),
                capacities,
                now,
            );
            let decayed = admitted.ledger.decayed_usage(
                decays,
                Map::empty(),
                admitted.ledger.order_by(running()),
            );
            let packing = admitted.programs_resumed(capacities, decays, decayed);
            let late = packing.model.ledger.order_by(
                timed_out(now, packing.model.config.resume_timeout),
            );
            let (forced, forces) = packing.model.forced(capacities, decays, packing.decayed, late);
            let (relieved, reliefs) = forced.ledger.all_relieved(capacities.cards);
            model.reconciled(capacities, decays, now).1 <==> expiries || clears || admissions
                || packing.changed || forces || reliefs
        }),
{
}

} // verus!
