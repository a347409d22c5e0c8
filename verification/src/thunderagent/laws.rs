//! Laws of program-aware flow control.
use vstd::prelude::*;

use crate::choice::is_pick;
use crate::ranking::{is_first_rank, Rank};
use crate::thunderagent::capacity::{Capacities, CapacityCard};
use crate::thunderagent::ledger::{used_on, Ledger};
use crate::thunderagent::model::{
    drop_leading, evictable, only, Model, Outcome, Request, RequestPhase, Session, WaitStatus,
};
use crate::thunderagent::order::{has_key, lemma_first, lemma_order};
use crate::thunderagent::placement::{
    best_room, decayed_more, decayed_tokens, fitting_rooms, forced_target, largest_first,
    tighter_room, Room,
};
use crate::thunderagent::program::{Program, ProgramLifecycle, ProgramStatus};
use crate::thunderagent::relief::{on_removed_worker, on_worker};
use crate::thunderagent::soundness::lemma_expired;
use crate::worker::WorkerWithDpRank;

verus! {

/// No two requests of one session are released at the same time.
pub proof fn lemma_sessions_are_serialized(model: Model, a: Seq<char>, b: Seq<char>)
    requires
        model.sound(),
        model.wait_status(a) == WaitStatus::Released,
        model.wait_status(b) == WaitStatus::Released,
        model.requests[a].session == model.requests[b].session,
    ensures
        a == b,
{
}

/// A request is released only when its session has no released request and all that arrived before
/// it in the session are gone; otherwise nothing changes.
pub proof fn lemma_released_in_turn(model: Model, id: Seq<char>, worker: Option<WorkerWithDpRank>)
    ensures
        ({
            let (next, released) = model.released(id, worker);
            let session = model.requests[id].session;
            &&& released ==> {
                &&& model.wait_status(id) == WaitStatus::Waiting
                &&& model.sessions[session].current is None
                &&& model.sessions[session].waiting[0] == id
                &&& next.wait_status(id) == WaitStatus::Released
                &&& next.sessions[session].current == Some(id)
                &&& next.sessions[session].waiting == model.sessions[session].waiting.drop_first()
            }
            &&& !released ==> next == model
        }),
{
}

/// Tracked requests and retained programs stay within the configured limit.
pub proof fn lemma_limits(model: Model)
    requires
        model.sound(),
    ensures
        model.requests.len() <= model.config.max_tracked_requests,
        model.ledger.programs.len() <= model.config.max_tracked_requests,
{
}

/// Someone keeps the reconcile timer exactly while someone waits.
pub proof fn lemma_timer(model: Model)
    requires
        model.sound(),
    ensures
        model.timer_owner is Some <==> exists|id: Seq<char>|
            model.wait_status(id) == WaitStatus::Waiting,
        model.timer_owner matches Some(owner) ==> model.wait_status(owner) == WaitStatus::Waiting,
{
    if let Some(owner) = model.timer_owner {
        assert(model.wait_status(owner) == WaitStatus::Waiting);
    } else {
        assert forall|id: Seq<char>| model.wait_status(id) != WaitStatus::Waiting by {
            assert(!model.is_waiting(id));
        }
    }
}

/// A turn that is aborted leaves the programs as they were before it began, but for a program that
/// had to make room.
pub proof fn lemma_abort_restores_programs(model: Model, id: Seq<char>, now: u64)
    requires
        model.sound(),
        model.is_next(id),
        !model.requests[id].began,
        model.can_begin(id),
    ensures
        model.begun(id).settled(model.begun(id).requests[id], Outcome::Aborted, now).ledger.programs
            == model.room_made(model.requests[id].session).ledger.programs,
        model.has_room(model.requests[id].session) ==> model.begun(id).settled(
            model.begun(id).requests[id],
            Outcome::Aborted,
            now,
        ).ledger.programs == model.ledger.programs,
{
    let begun = model.begun(id);
    let back = begun.settled(begun.requests[id], Outcome::Aborted, now);
    let roomy = model.room_made(model.requests[id].session);
    assert(back.ledger.programs =~= roomy.ledger.programs);
}

/// A released final request has taken its session's program out of the table.
pub proof fn lemma_final_request_takes_program(
    model: Model,
    id: Seq<char>,
    worker: Option<WorkerWithDpRank>,
)
    requires
        model.released(id, worker).1,
        model.requests[id].session_final,
    ensures
        !model.released(id, worker).0.ledger.programs.contains_key(model.requests[id].session),
        Model::took_program(model.released(id, worker).0.requests[id]),
{
}

/// Neither completion nor abort brings the program of a released final request back.
pub proof fn lemma_final_program_stays_out(
    model: Model,
    request: Request,
    outcome: Outcome,
    now: u64,
)
    requires
        Model::took_program(request),
    ensures
        model.settled(request, outcome, now) == model,
{
}

/// While a released final request is tracked, its session has no program.
pub proof fn lemma_taken_program_is_out(model: Model, id: Seq<char>)
    requires
        model.sound(),
        model.wait_status(id) == WaitStatus::Released,
        model.requests[id].session_final,
    ensures
        !model.ledger.programs.contains_key(model.requests[id].session),
        !model.ledger.assignments().contains_key(model.requests[id].session),
{
}

/// When a released final request completes or is aborted, its session has no program afterwards,
/// unless the session's next request has begun, whose program is then a new one.
pub proof fn lemma_taken_program_is_not_restored(
    model: Model,
    id: Seq<char>,
    outcome: Outcome,
    capacities: Capacities,
    now: u64,
)
    requires
        model.sound(),
        model.wait_status(id) == WaitStatus::Released,
        model.requests[id].session_final,
    ensures
        ({
            let next = model.finished(id, outcome, capacities, now).0;
            let session = model.requests[id].session;
            next.ledger.programs.contains_key(session) ==> exists|other: Seq<char>| #[trigger]
                next.requests.contains_key(other) && next.requests[other].session == session
                    && next.requests[other].began && next.requests[other].prior is None
        }),
{
    let request = model.requests[id];
    let session = request.session;
    let next = model.finished(id, outcome, capacities, now).0;
    let settled = model.dequeued(id).settled(request, outcome, now);
    let admitted = settled.next_admitted(session, capacities, now);
    assert(settled.ledger == model.ledger);
    assert(next.ledger == admitted.ledger);
    assert(next.requests == admitted.requests);
    if let Some(other) = settled.pending(session) {
        if settled.is_next(other) && settled.can_begin(other) {
            assert(settled.requests[other] == model.requests[other]);
            assert(model.requests.contains_key(other));
            let begun = settled.begun(other);
            lemma_decided_elsewhere(begun, other, capacities, now, session);
            if settled.requests[other].session == session {
                assert(begun.requests[other].prior is None && begun.requests[other].began);
                assert(next.requests.contains_key(other));
            } else {
                assert(!begun.ledger.programs.contains_key(session));
            }
        }
    }
}

/// Deciding on a request keeps what it began with, and makes no program of another session.
proof fn lemma_decided_elsewhere(
    model: Model,
    id: Seq<char>,
    capacities: Capacities,
    now: u64,
    name: Seq<char>,
)
    requires
        model.requests.contains_key(id),
    ensures
        ({
            let next = model.decided(id, capacities, now).0;
            &&& next.requests.contains_key(id)
            &&& next.requests[id].session == model.requests[id].session
            &&& next.requests[id].began == model.requests[id].began
            &&& next.requests[id].prior == model.requests[id].prior
            &&& name != model.requests[id].session && !model.ledger.programs.contains_key(name)
                ==> !next.ledger.programs.contains_key(name)
        }),
{
}

/// A sent request's program is assigned to the worker that it was sent to.
pub proof fn lemma_sent_sets_worker(model: Model, id: Seq<char>, worker: WorkerWithDpRank, now: u64)
    requires
        model.wait_status(id) == WaitStatus::Released,
        model.ledger.programs.contains_key(model.requests[id].session),
    ensures
        model.sent(id, worker, now).0.ledger.programs[model.requests[id].session].assigned_worker
            == Some(worker),
        model.sent(id, worker, now).0.ledger.assignments().contains_key(
            model.requests[id].session,
        ),
        model.sent(id, worker, now).0.ledger.assignments()[model.requests[id].session] == worker,
{
}

/// A paused program holds no tokens and has no worker.
pub proof fn lemma_pausing_clears_assignment(ledger: Ledger, session: Seq<char>)
    requires
        ledger.can_pause(session),
    ensures
        ledger.with_paused(session).programs[session].lifecycle == ProgramLifecycle::Paused,
        ledger.with_paused(session).programs[session].assigned_worker is None,
        ledger.charge(ledger.with_paused(session).programs[session]) is None,
        ledger.with_paused(session).paused().contains(session),
        !ledger.with_paused(session).assignments().contains_key(session),
{
}

/// The program that makes room has no requests, and no other such program has acted longer ago.
pub proof fn lemma_eviction_takes_the_oldest(model: Model, other: Seq<char>)
    requires
        model.evicted() is Some,
        model.ledger.programs.contains_key(other),
        !model.sessions.contains_key(other),
    ensures
        !model.sessions.contains_key(model.evicted()->0.name),
        model.ledger.programs.contains_key(model.evicted()->0.name),
        match model.ledger.programs[model.evicted()->0.name].acting_since {
            None => true,
            Some(since) => model.ledger.programs[other].acting_since matches Some(later) && since
                <= later,
        },
{
    let first = model.evicted()->0;
    let set = model.ledger.ranks_by(evictable(model.sessions));
    assert(is_first_rank(first, set));
    let program = model.ledger.programs[other];
    let rank = match program.acting_since {
        Some(since) => Rank { major: 1, minor: since, place: 0, name: other },
        None => Rank { major: 0, minor: 0, place: 0, name: other },
    };
    assert(set.contains(rank));
    assert(set.contains(first));
}

/// Without known capacity a program that is not paused is not held back.
pub proof fn lemma_cold_start_flows_through(
    model: Model,
    id: Seq<char>,
    capacities: Capacities,
    now: u64,
)
    requires
        model.sound(),
        model.is_next(id),
        model.can_begin(id),
        !capacities.has_usable_capacity(),
        !model.ledger.paused().contains(model.requests[id].session),
    ensures
        model.admitted(id, capacities, now).0.wait_status(id) == WaitStatus::Released,
{
    let session = model.requests[id].session;
    let begun = model.begun(id);
    if !model.requests[id].began && !model.has_room(session) {
        let first = model.evicted()->0;
        assert(first.name != session) by {
            lemma_first(model.ledger, evictable(model.sessions));
        }
    }
    assert(begun.ledger.programs.contains_key(session));
    assert(begun.ledger.programs[session].lifecycle == ProgramLifecycle::Active);
    assert(begun.is_next(id));
}

/// Without any worker's capacity no paused program resumes before its timeout.
pub proof fn lemma_missing_capacity_keeps_pauses(
    model: Model,
    capacities: Capacities,
    decays: Map<Seq<char>, usize>,
    decayed: Map<WorkerWithDpRank, usize>,
)
    requires
        capacities.cards.len() == 0,
    ensures
        model.programs_resumed(capacities, decays, decayed).model == model,
        !model.programs_resumed(capacities, decays, decayed).changed,
{
    let rooms = model.ledger.rooms(capacities, capacities.cards.len());
    let chosen = model.ledger.resumable(rooms);
    lemma_packed_nowhere(
        model,
        decays,
        decayed,
        model.ledger.order_by(largest_first(chosen)),
    );
}

proof fn lemma_packed_nowhere(
    model: Model,
    decays: Map<Seq<char>, usize>,
    decayed: Map<WorkerWithDpRank, usize>,
    order: Seq<Rank>,
)
    ensures
        model.packed(Seq::empty(), decays, decayed, order).model == model,
        !model.packed(Seq::empty(), decays, decayed, order).changed,
    decreases order.len(),
{
    if order.len() > 0 {
        lemma_packed_nowhere(model, decays, decayed, order.drop_first());
    }
}

/// A program resumes only in a room that it fits in, on its own worker where it has one, and in
/// the tightest such room.
pub proof fn lemma_best_fit(
    rooms: Seq<Room>,
    required: usize,
    assigned: Option<WorkerWithDpRank>,
    other: int,
)
    requires
        best_room(rooms, required, assigned) is Some,
        0 <= other < rooms.len(),
        required <= rooms[other].available,
        assigned matches Some(own) ==> own == rooms[other].worker,
    ensures
        0 <= best_room(rooms, required, assigned)->0 < rooms.len(),
        required <= rooms[best_room(rooms, required, assigned)->0].available,
        assigned matches Some(own) ==> own == rooms[best_room(
            rooms,
            required,
            assigned,
        )->0].worker,
        rooms[best_room(rooms, required, assigned)->0].available <= rooms[other].available,
{
    let at = best_room(rooms, required, assigned)->0;
    let fits = fitting_rooms(rooms, required, assigned);
    assert(is_pick(at, rooms.len() as int, fits, tighter_room(rooms)));
    assert(fits(other));
}

/// The tokens that resuming programs takes together.
pub open spec fn total_required(ledger: Ledger, order: Seq<Rank>) -> int
    decreases order.len(),
{
    if order.len() == 0 {
        0
    } else {
        ledger.required(order[0].name) + total_required(ledger, order.drop_first())
    }
}

/// The programs that resume together fit into all rooms taken together, and with the next one in
/// fairness order they would not.
pub proof fn lemma_fair_prefix(ledger: Ledger, order: Seq<Rank>, budget: int)
    requires
        budget >= 0,
    ensures
        ledger.affordable(order, budget) <= order.len(),
        total_required(ledger, order.take(ledger.affordable(order, budget) as int)) <= budget,
        ledger.affordable(order, budget) < order.len() ==> total_required(
            ledger,
            order.take(ledger.affordable(order, budget) as int + 1),
        ) > budget,
    decreases order.len(),
{
    let count = ledger.affordable(order, budget);
    if order.len() == 0 {
        assert(order.take(0) =~= Seq::<Rank>::empty());
    } else if ledger.required(order[0].name) > budget {
        assert(order.take(0) =~= Seq::<Rank>::empty());
        let one = order.take(1);
        assert(one.drop_first() =~= Seq::<Rank>::empty());
        assert(total_required(ledger, one.drop_first()) == 0);
    } else {
        let rest = order.drop_first();
        let left = budget - ledger.required(order[0].name);
        lemma_fair_prefix(ledger, rest, left);
        assert(order.take(count as int).drop_first() =~= rest.take(count - 1));
        if count < order.len() {
            assert(order.take(count as int + 1).drop_first() =~= rest.take(count as int));
        }
    }
}

/// A resumed session never pauses another.
proof fn lemma_resumed_pauses_none(
    model: Model,
    session: Seq<char>,
    worker: Option<WorkerWithDpRank>,
    name: Seq<char>,
)
    ensures
        !model.ledger.paused().contains(name) ==> !model.resumed(
            session,
            worker,
        ).0.ledger.paused().contains(name),
        !model.resumed(session, worker).0.ledger.paused().contains(session),
{
    if model.ledger.paused().contains(session) {
        let running = model.with_ledger(
            model.ledger.with(
                session,
                Program {
                    lifecycle: ProgramLifecycle::Active,
                    deferred_since: None,
                    assigned_worker: worker,
                    ..model.ledger.programs[session]
                },
            ),
        );
        assert(!running.ledger.paused().contains(session));
    }
}

proof fn lemma_forced_pauses_none(
    model: Model,
    capacities: Capacities,
    decays: Map<Seq<char>, usize>,
    decayed: Map<WorkerWithDpRank, usize>,
    order: Seq<Rank>,
    name: Seq<char>,
)
    requires
        capacities.has_live_worker(),
    ensures
        !model.ledger.paused().contains(name) ==> !model.forced(
            capacities,
            decays,
            decayed,
            order,
        ).0.ledger.paused().contains(name),
        (exists|at: int| 0 <= at < order.len() && (#[trigger] order[at]).name == name)
            ==> !model.forced(capacities, decays, decayed, order).0.ledger.paused().contains(name),
    decreases order.len(),
{
    if order.len() > 0 {
        let first = order[0].name;
        let rest = order.drop_first();
        if exists|at: int| 0 <= at < order.len() && (#[trigger] order[at]).name == name {
            let at = choose|at: int| 0 <= at < order.len() && (#[trigger] order[at]).name == name;
            if at > 0 {
                assert(rest[at - 1].name == name);
            }
        }
        if !model.ledger.programs.contains_key(first) {
            lemma_forced_pauses_none(model, capacities, decays, decayed, rest, name);
        } else {
            let target = forced_target(
                capacities,
                decayed,
                model.ledger.programs[first].assigned_worker,
            );
            let (after, changed) = model.resumed(first, target);
            let counted = match target {
                Some(worker) if changed && after.ledger.programs.contains_key(first) =>
                    decayed_more(
                    decayed,
                    worker,
                    decayed_tokens(decays, first, after.ledger.programs[first]),
                    model.ledger.buffer,
                ),
                _ => decayed,
            };
            lemma_resumed_pauses_none(model, first, target, name);
            lemma_forced_pauses_none(after, capacities, decays, counted, rest, name);
        }
    }
}

/// While any worker is live, a program that is due to be forced is not paused afterwards.
pub proof fn lemma_timeout_forces_release(
    model: Model,
    capacities: Capacities,
    decays: Map<Seq<char>, usize>,
    decayed: Map<WorkerWithDpRank, usize>,
    order: Seq<Rank>,
    at: int,
)
    requires
        capacities.has_live_worker(),
        0 <= at < order.len(),
    ensures
        !model.forced(capacities, decays, decayed, order).0.ledger.paused().contains(
            order[at].name,
        ),
{
    lemma_forced_pauses_none(model, capacities, decays, decayed, order, order[at].name);
}

/// Compacting an arrival order without repetitions bounds it by the waiting requests.
pub proof fn lemma_arrivals_are_bounded(model: Model)
    requires
        model.requests.dom().finite(),
        model.arrivals.no_duplicates(),
    ensures
        model.arrivals_compacted().arrivals.len() <= 2 * model.waiting().len() + 256,
{
    let waiting = model.waiting();
    let kept = only(model.arrivals, waiting);
    let pred = |name: Seq<char>| waiting.contains(name);
    vstd::set_lib::lemma_set_subset_finite(model.requests.dom(), waiting);
    lemma_filter_distinct(model.arrivals, pred);
    assert(kept.to_set().subset_of(waiting)) by {
        assert forall|name: Seq<char>| kept.to_set().contains(name) implies waiting.contains(
            name,
        ) by {
            let k = choose|k: int| 0 <= k < kept.len() && kept[k] == name;
            model.arrivals.lemma_filter_pred(pred, k);
        }
    }
    kept.unique_seq_to_set();
    vstd::set_lib::lemma_len_subset(kept.to_set(), waiting);
}

proof fn lemma_filter_distinct(items: Seq<Seq<char>>, pred: spec_fn(Seq<char>) -> bool)
    requires
        items.no_duplicates(),
    ensures
        items.filter(pred).no_duplicates(),
    decreases items.len(),
{
    reveal(Seq::filter);
    if items.len() > 0 {
        let rest = items.drop_last();
        lemma_filter_distinct(rest, pred);
        if pred(items.last()) {
            let kept = rest.filter(pred);
            assert(!kept.contains(items.last())) by {
                if kept.contains(items.last()) {
                    rest.lemma_filter_contains_rev(pred, items.last());
                    let k = choose|k: int| 0 <= k < rest.len() && rest[k] == items.last();
                    assert(items[k] == items[items.len() - 1]);
                }
            }
        }
    }
}

proof fn lemma_drained_programs(
    ledger: Ledger,
    worker: WorkerWithDpRank,
    goal: usize,
    order: Seq<Rank>,
    name: Seq<char>,
)
    ensures
        ({
            let after = ledger.drained(worker, goal, order).0;
            &&& after.programs.contains_key(name) == ledger.programs.contains_key(name)
            &&& after.programs.contains_key(name) ==> after.programs[name] == ledger.programs[name]
                || (!after.can_pause(name) && after.programs[name].lifecycle
                == ProgramLifecycle::Paused)
            &&& used_on(after.usage, worker) > goal && (exists|at: int|
                0 <= at < order.len() && (#[trigger] order[at]).name == name) ==> !after.can_pause(
                name,
            )
        }),
    decreases order.len(),
{
    if order.len() > 0 && used_on(ledger.usage, worker) > goal {
        let rest = order.drop_first();
        let here = ledger.with_paused(order[0].name);
        lemma_drained_programs(here, worker, goal, rest, name);
        if exists|at: int| 0 <= at < order.len() && (#[trigger] order[at]).name == name {
            let at = choose|at: int| 0 <= at < order.len() && (#[trigger] order[at]).name == name;
            if at > 0 {
                assert(rest[at - 1].name == name);
            }
        }
    }
}

proof fn lemma_marked_programs(ledger: Ledger, order: Seq<Rank>, name: Seq<char>)
    ensures
        ({
            let after = ledger.marked(order).0;
            &&& after.programs.contains_key(name) == ledger.programs.contains_key(name)
            &&& after.programs.contains_key(name) ==> {
                ||| after.programs[name] == ledger.programs[name]
                ||| after.programs[name] == (Program {
                    marked_for_pause: true,
                    ..ledger.programs[name]
                })
            }
            &&& after.programs.contains_key(name) && (exists|at: int|
                0 <= at < order.len() && (#[trigger] order[at]).name == name)
                ==> after.programs[name].marked_for_pause
        }),
    decreases order.len(),
{
    if order.len() > 0 {
        let rest = order.drop_first();
        let here = ledger.with_mark(order[0].name);
        lemma_marked_programs(here, rest, name);
        if exists|at: int| 0 <= at < order.len() && (#[trigger] order[at]).name == name {
            let at = choose|at: int| 0 <= at < order.len() && (#[trigger] order[at]).name == name;
            if at > 0 {
                assert(rest[at - 1].name == name);
            }
        }
    }
}

/// An overloaded worker is drained to its goal, or else every program on it is paused already or
/// marked to pause after its turn.
pub proof fn lemma_relief_drains_or_marks(ledger: Ledger, card: CapacityCard, name: Seq<char>)
    requires
        ledger.programs.dom().finite(),
        used_on(ledger.usage, card.worker) > card.pause_limit,
        used_on(ledger.relieved(card).0.usage, card.worker) > card.pause_goal,
        ledger.relieved(card).0.programs.contains_key(name),
        ledger.relieved(card).0.programs[name].lifecycle == ProgramLifecycle::Active,
        ledger.relieved(card).0.programs[name].assigned_worker == Some(card.worker),
    ensures
        ledger.relieved(card).0.programs[name].marked_for_pause,
{
    let worker = card.worker;
    let goal = card.pause_goal;
    let acting_keys = on_worker(worker, ProgramStatus::Acting);
    let reasoning_keys = on_worker(worker, ProgramStatus::Reasoning);
    let acting = ledger.order_by(acting_keys);
    let reasoning = ledger.order_by(reasoning_keys);
    let drained = ledger.drained(worker, goal, acting).0;
    let after = ledger.relieved(card).0;
    lemma_order(ledger, acting_keys);
    lemma_order(ledger, reasoning_keys);
    lemma_drained_programs(ledger, worker, goal, acting, name);
    lemma_marked_programs(drained, reasoning, name);
    if used_on(drained.usage, worker) > goal && !after.programs[name].marked_for_pause {
        let program = ledger.programs[name];
        assert(drained.programs[name] == program);
        if program.status == ProgramStatus::Acting {
            assert(has_key(ledger, acting_keys, name));
        } else {
            assert(has_key(ledger, reasoning_keys, name));
        }
    }
}

/// What a decision on a request leaves alone: all programs but that of its session, and all of the
/// request but its phase and target.
proof fn lemma_decided_locally(model: Model, id: Seq<char>, capacities: Capacities, now: u64)
    requires
        model.requests.contains_key(id),
    ensures
        ({
            let next = model.decided(id, capacities, now).0;
            let request = model.requests[id];
            &&& forall|other: Seq<char>|
                #![trigger next.ledger.programs.contains_key(other)]
                #![trigger next.ledger.programs[other]]
                other != request.session ==> next.ledger.programs.contains_key(other)
                    == model.ledger.programs.contains_key(other) && next.ledger.programs[other]
                    == model.ledger.programs[other]
            &&& next.requests.dom() == model.requests.dom()
            &&& next.requests[id].session == request.session
            &&& next.requests[id].prior == request.prior
            &&& next.requests[id].began == request.began
            &&& next.requests[id].session_final == request.session_final
            &&& next.sessions == model.sessions && next.requests[id].phase == request.phase
                || next.requests[id].phase == RequestPhase::Released && next.sessions
                == model.sessions.insert(
                request.session,
                Session {
                    current: Some(id),
                    waiting: model.sessions[request.session].waiting.drop_first(),
                    ..model.sessions[request.session]
                },
            )
        }),
{
    let next = model.decided(id, capacities, now).0;
    assert(next.requests.dom() =~= model.requests.dom());
}

/// Rolling a request back that has the session to itself brings back the program of before.
proof fn lemma_lone_request_rolled_back(
    model: Model,
    id: Seq<char>,
    programs: Map<Seq<char>, Program>,
    capacities: Capacities,
    now: u64,
)
    requires
        model.requests.contains_key(id),
        model.requests[id].began,
        !model.requests[id].session_final,
        model.requests[id].prior == (if programs.contains_key(model.requests[id].session) {
            Some(programs[model.requests[id].session])
        } else {
            None
        }),
        forall|other: Seq<char>|
            #![trigger model.ledger.programs.contains_key(other)]
            #![trigger model.ledger.programs[other]]
            other != model.requests[id].session ==> model.ledger.programs.contains_key(other)
                == programs.contains_key(other) && model.ledger.programs[other]
                == programs[other],
        model.sessions.contains_key(model.requests[id].session),
        model.sessions[model.requests[id].session].waiting.len() == 0
            || model.sessions[model.requests[id].session].waiting == seq![id],
    ensures
        model.finished(id, Outcome::Aborted, capacities, now).0.ledger.programs == programs,
{
    let request = model.requests[id];
    let session = request.session;
    let waiting = Model { requests: model.requests.remove(id), ..model }.waiting();
    assert(!waiting.contains(id));
    lemma_queue_emptied(model.sessions[session], id, waiting);
    let left = model.dequeued(id);
    assert(left.sessions[session].waiting.len() == 0);
    assert(left.ledger == model.ledger);
    let settled = left.settled(request, Outcome::Aborted, now);
    assert(settled.pending(session) is None);
    assert(settled.ledger.programs =~= programs);
}

/// A request of an idle session that is aborted before anything else happens leaves the programs
/// as it found them, whether it was released or deferred: as they are once retention has ended,
/// room is made and workers that are gone have lost theirs. A final request is another matter.
pub proof fn lemma_aborted_arrival_leaves_programs(
    model: Model,
    id: Seq<char>,
    session: Seq<char>,
    input_tokens: usize,
    capacities: Capacities,
    now: u64,
    later: u64,
)
    requires
        model.sound(),
        model.refusal(id, session, now) is None,
        !model.sessions.contains_key(session),
    ensures
        model.registered(id, session, input_tokens, false, capacities, now).finished(
            id,
            Outcome::Aborted,
            capacities,
            later,
        ).0.ledger.programs == model.programs_expired(now).0.room_made(session).removed_cleared(
            capacities,
        ).0.ledger.programs,
{
    let expired = model.programs_expired(now).0;
    let found = expired.room_made(session).removed_cleared(capacities).0;
    let registered = model.registered(id, session, input_tokens, false, capacities, now);
    lemma_expired(model, now);
    lemma_room_is_made(expired, session, capacities);
    lemma_arrived(found, id, session, input_tokens, capacities, now);
    lemma_lone_request_rolled_back(registered, id, found.ledger.programs, capacities, later);
}

/// What an arrival in an idle session leaves behind.
proof fn lemma_arrived(
    model: Model,
    id: Seq<char>,
    session: Seq<char>,
    input_tokens: usize,
    capacities: Capacities,
    now: u64,
)
    requires
        model.has_room(session),
        !model.sessions.contains_key(session),
    ensures
        ({
            let next = model.enqueued(id, session, input_tokens, false).admitted(
                id,
                capacities,
                now,
            ).0.arrivals_compacted();
            let programs = model.ledger.programs;
            &&& next.requests.contains_key(id)
            &&& next.requests[id].session == session
            &&& next.requests[id].began
            &&& !next.requests[id].session_final
            &&& next.requests[id].prior == (if programs.contains_key(session) {
                Some(programs[session])
            } else {
                None
            })
            &&& forall|other: Seq<char>|
                #![trigger next.ledger.programs.contains_key(other)]
                #![trigger next.ledger.programs[other]]
                other != session ==> next.ledger.programs.contains_key(other)
                    == programs.contains_key(other) && next.ledger.programs[other]
                    == programs[other]
            &&& next.sessions.contains_key(session)
            &&& next.sessions[session].waiting.len() == 0 || next.sessions[session].waiting
                == seq![id]
        }),
{
    let queued = model.enqueued(id, session, input_tokens, false);
    assert(queued.sessions[session].waiting =~= seq![id]);
    assert(queued.is_next(id) && queued.can_begin(id));
    let begun = queued.begun(id);
    lemma_decided_locally(begun, id, capacities, now);
    assert(seq![id].drop_first() =~= Seq::<Seq<char>>::empty());
}

/// With room made, a session's turn can begin.
proof fn lemma_room_is_made(model: Model, session: Seq<char>, capacities: Capacities)
    requires
        model.can_have_room(session),
        model.ledger.programs.dom().finite(),
        model.ledger.programs.len() <= model.config.max_tracked_requests,
    ensures
        model.room_made(session).removed_cleared(capacities).0.has_room(session),
        model.room_made(session).removed_cleared(capacities).0.sessions == model.sessions,
        model.room_made(session).removed_cleared(capacities).0.config == model.config,
        model.room_made(session).removed_cleared(capacities).0.requests == model.requests,
{
    let roomy = model.room_made(session);
    if !model.has_room(session) {
        lemma_first(model.ledger, evictable(model.sessions));
        let first = model.evicted()->0;
        assert(roomy.ledger.programs =~= model.ledger.programs.remove(first.name));
    }
    if roomy.snapshot_id != Some(capacities.id) {
        lemma_unassigned_names(
            roomy.ledger,
            roomy.ledger.order_by(on_removed_worker(capacities)),
        );
    }
}

/// Taking programs off their workers changes nothing else of them.
proof fn lemma_unassigned_names(ledger: Ledger, order: Seq<Rank>)
    ensures
        ledger.unassigned(order).programs.dom() == ledger.programs.dom(),
    decreases order.len(),
{
    if order.len() > 0 {
        let next = ledger.assigned(order[0].name, None);
        assert(next.programs.dom() =~= ledger.programs.dom());
        lemma_unassigned_names(next, order.drop_first());
    }
}

/// A session whose only request leaves has an empty queue.
proof fn lemma_queue_emptied(session: Session, id: Seq<char>, waiting: Set<Seq<char>>)
    requires
        !waiting.contains(id),
        session.waiting.len() == 0 || session.waiting == seq![id],
    ensures
        session.compacted(waiting).waiting.len() == 0,
        (Session { current: None, ..session }).compacted(waiting).waiting.len() == 0,
        (Session { stale: session.stale.saturating_add(1), ..session }).compacted(
            waiting,
        ).waiting.len() == 0,
{
    reveal_with_fuel(drop_leading, 2);
    let rest = drop_leading(session.waiting, waiting);
    assert(rest.len() == 0);
    assert(only(rest, waiting).len() == 0) by {
        lemma_filter_len(rest, waiting);
    }
}

proof fn lemma_filter_len(queue: Seq<Seq<char>>, kept: Set<Seq<char>>)
    requires
        queue.len() == 0,
    ensures
        only(queue, kept).len() == 0,
{
    reveal(Seq::filter);
}

/// Once a new snapshot is seen that reports anything, no program is assigned to a worker that is
/// not live.
pub proof fn lemma_removed_workers_lose_programs(
    model: Model,
    capacities: Capacities,
    name: Seq<char>,
)
    requires
        model.sound(),
        model.snapshot_id != Some(capacities.id),
        capacities.cards.len() > 0 || capacities.live is Some,
        model.removed_cleared(capacities).0.ledger.programs.contains_key(name),
    ensures
        model.removed_cleared(capacities).0.ledger.programs[name].assigned_worker matches Some(
            worker,
        ) ==> capacities.is_live(worker),
{
    let keys = on_removed_worker(capacities);
    let order = model.ledger.order_by(keys);
    lemma_order(model.ledger, keys);
    lemma_unassigned_names(model.ledger, order);
    assert(model.ledger.programs.contains_key(name));
    lemma_unassigned_programs(model.ledger, order, name);
    if has_key(model.ledger, keys, name) {
        let at = choose|at: int| 0 <= at < order.len() && (#[trigger] order[at]).name == name;
        assert(order[at].name == name);
    }
}

/// A listed program has no worker afterwards, and any other keeps its own.
proof fn lemma_unassigned_programs(ledger: Ledger, order: Seq<Rank>, name: Seq<char>)
    requires
        ledger.programs.contains_key(name),
    ensures
        ledger.unassigned(order).programs.contains_key(name),
        (exists|at: int| 0 <= at < order.len() && (#[trigger] order[at]).name == name)
            ==> ledger.unassigned(order).programs[name].assigned_worker is None,
        ledger.unassigned(order).programs[name].assigned_worker is None || ledger.unassigned(
            order,
        ).programs[name].assigned_worker == ledger.programs[name].assigned_worker,
    decreases order.len(),
{
    if order.len() > 0 {
        let next = ledger.assigned(order[0].name, None);
        let rest = order.drop_first();
        lemma_unassigned_programs(next, rest, name);
        if order[0].name != name {
            if exists|at: int| 0 <= at < order.len() && (#[trigger] order[at]).name == name {
                let at = choose|at: int| 0 <= at < order.len() && (#[trigger] order[at]).name == name;
                assert(rest[at - 1].name == name);
            }
        }
    }
}

} // verus!
