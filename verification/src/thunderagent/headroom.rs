//! Resuming programs leaves the headroom that is required for it.
use vstd::prelude::*;

use crate::choice::is_pick;
use crate::ranking::Rank;
use crate::thunderagent::accounting::{lemma_admitting_keeps_weights, weighs_no_more};
use crate::thunderagent::capacity::{one_card_each, Capacities};
use crate::thunderagent::config::ThunderAgentConfig;
use crate::thunderagent::ledger::{used_on, Ledger};
use crate::thunderagent::model::{Model, Outcome};
use crate::thunderagent::placement::{
    best_room, decayed_more, decayed_tokens, fitting_rooms, largest_first, one_room_each,
    tighter_room, Room,
};
use crate::thunderagent::program::{Program, ProgramLifecycle};
use crate::thunderagent::turns::{
    lemma_admitting_keeps_turns, lemma_finishing_keeps_turns, lemma_reconciling_keeps_turns,
    lemma_registering_keeps_turns, lemma_releasing_keeps_turns, lemma_sending_keeps_turns,
};
use crate::worker::WorkerWithDpRank;

verus! {

impl Model {
    /// No session's queue holds the id of another session's request.
    pub open spec fn queues_own_requests(self) -> bool {
        forall|session: Seq<char>, at: int|
            #![trigger self.sessions[session].waiting[at]]
            self.sessions.contains_key(session) && 0 <= at < self.sessions[session].waiting.len()
                && self.requests.contains_key(self.sessions[session].waiting[at])
                ==> self.requests[self.sessions[session].waiting[at]].session == session
    }
}

/// A resumed program takes at most its required tokens, on its worker alone.
proof fn lemma_resumed_usage(
    model: Model,
    name: Seq<char>,
    worker: WorkerWithDpRank,
    observed: WorkerWithDpRank,
)
    requires
        model.queues_own_requests(),
        weighs_no_more(model.ledger),
        model.ledger.programs.contains_key(name),
    ensures
        ({
            let after = model.resumed(name, Some(worker)).0;
            &&& used_on(after.ledger.usage, observed) <= used_on(model.ledger.usage, observed) + (
            if observed == worker && after.ledger.programs.contains_key(name) {
                model.ledger.required(name)
            } else {
                0
            })
            &&& after.queues_own_requests()
            &&& weighs_no_more(after.ledger)
            &&& after.ledger.buffer == model.ledger.buffer
        }),
{
    let program = model.ledger.programs[name];
    if program.lifecycle == ProgramLifecycle::Paused {
        let active = Program {
            lifecycle: ProgramLifecycle::Active,
            deferred_since: None,
            assigned_worker: Some(worker),
            ..program
        };
        let running = model.with_ledger(model.ledger.with(name, active));
        assert(running.ledger.programs =~= model.ledger.programs.insert(name, active));
        assert(weighs_no_more(running.ledger));
        if let Some(id) = model.pending(name) {
            let after = running.released(id, Some(worker)).0;
            assert(model.sessions[name].waiting[0] == id);
            if running.can_release(id) {
                assert(running.requests[id].session == name);
                let gone = running.let_go(id, Some(worker));
                assert(after.ledger == gone.ledger);
                assert(after.sessions == gone.sessions);
                assert(after.requests == gone.requests);
                assert forall|session: Seq<char>, at: int|
                    #![trigger after.sessions[session].waiting[at]]
                    after.sessions.contains_key(session) && 0 <= at
                        < after.sessions[session].waiting.len() && after.requests.contains_key(
                        after.sessions[session].waiting[at],
                    ) implies after.requests[after.sessions[session].waiting[at]].session
                    == session by {
                    if session == name {
                        assert(after.sessions[session].waiting[at]
                            == model.sessions[session].waiting[at + 1]);
                    } else {
                        assert(after.sessions[session].waiting[at]
                            == model.sessions[session].waiting[at]);
                    }
                }
            }
        }
    }
}

/// Packing keeps a worker's usage within a limit that its usage and its room are within.
proof fn lemma_packed_usage(
    model: Model,
    rooms: Seq<Room>,
    decays: Map<Seq<char>, usize>,
    decayed: Map<WorkerWithDpRank, usize>,
    order: Seq<Rank>,
    worker: WorkerWithDpRank,
    limit: int,
)
    requires
        model.queues_own_requests(),
        weighs_no_more(model.ledger),
        one_room_each(rooms),
        used_on(model.ledger.usage, worker) <= limit,
        forall|at: int|
            0 <= at < rooms.len() && (#[trigger] rooms[at]).worker == worker ==> used_on(
                model.ledger.usage,
                worker,
            ) + rooms[at].available <= limit,
    ensures
        used_on(
            model.packed(rooms, decays, decayed, order).model.ledger.usage,
            worker,
        ) <= limit,
    decreases order.len(),
{
    if order.len() > 0 {
        let name = order[0].name;
        let rest = order.drop_first();
        let seat = if model.ledger.programs.contains_key(name) {
            best_room(
                rooms,
                model.ledger.required(name),
                model.ledger.programs[name].assigned_worker,
            )
        } else {
            None
        };
        match seat {
            None => lemma_packed_usage(model, rooms, decays, decayed, rest, worker, limit),
            Some(at) => {
                let room = rooms[at];
                let required = model.ledger.required(name);
                let fits = fitting_rooms(
                    rooms,
                    required,
                    model.ledger.programs[name].assigned_worker,
                );
                assert(is_pick(at, rooms.len() as int, fits, tighter_room(rooms)));
                let (after, changed) = model.resumed(name, Some(room.worker));
                lemma_resumed_usage(model, name, room.worker, worker);
                if !changed || !after.ledger.programs.contains_key(name) {
                    lemma_packed_usage(after, rooms, decays, decayed, rest, worker, limit);
                } else {
                    let left = (room.available - required) as usize;
                    let tokens = decayed_tokens(decays, name, after.ledger.programs[name]);
                    let next = rooms.update(at, Room { available: left, ..room });
                    assert forall|i: int, j: int| 0 <= i < j < next.len() implies (
                    #[trigger] next[i]).worker != (#[trigger] next[j]).worker by {
                        assert(rooms[i].worker != rooms[j].worker);
                    }
                    assert forall|k: int|
                        0 <= k < next.len() && (#[trigger] next[k]).worker == worker implies used_on(
                        after.ledger.usage,
                        worker,
                    ) + next[k].available <= limit by {
                        assert(rooms[k].worker == worker);
                        if k != at {
                            assert(rooms[k].worker != rooms[at].worker);
                        }
                    }
                    lemma_packed_usage(
                        after,
                        next,
                        decays,
                        decayed_more(decayed, room.worker, tokens, model.ledger.buffer),
                        rest,
                        worker,
                        limit,
                    );
                }
            },
        }
    }
}

/// A room is what is left on a live worker under its resume limit.
proof fn lemma_rooms(ledger: Ledger, capacities: Capacities, count: nat)
    requires
        count <= capacities.cards.len(),
        one_card_each(capacities.cards),
    ensures
        one_room_each(ledger.rooms(capacities, count)),
        forall|at: int|
            0 <= at < ledger.rooms(capacities, count).len() ==> is_room(
                ledger,
                capacities,
                count,
                #[trigger] ledger.rooms(capacities, count)[at],
            ),
    decreases count,
{
    if count > 0 {
        let before = (count - 1) as nat;
        lemma_rooms(ledger, capacities, before);
        let earlier = ledger.rooms(capacities, before);
        let rooms = ledger.rooms(capacities, count);
        assert forall|at: int| 0 <= at < rooms.len() implies is_room(
            ledger,
            capacities,
            count,
            #[trigger] rooms[at],
        ) by {
            if at < earlier.len() {
                assert(is_room(ledger, capacities, before, earlier[at]));
                let card = choose|card: int| room_of(ledger, capacities, card, before, rooms[at]);
                assert(room_of(ledger, capacities, card, count, rooms[at]));
            } else {
                assert(room_of(ledger, capacities, count - 1, count, rooms[at]));
            }
        }
        assert forall|i: int, j: int| 0 <= i < j < rooms.len() implies (
        #[trigger] rooms[i]).worker != (#[trigger] rooms[j]).worker by {
            if j < earlier.len() {
                assert(earlier[i].worker != earlier[j].worker);
            } else {
                assert(is_room(ledger, capacities, before, earlier[i]));
                let card = choose|card: int| room_of(ledger, capacities, card, before, earlier[i]);
                assert(capacities.cards[card].worker != capacities.cards[count - 1].worker);
            }
        }
    }
}

/// A room is on the worker of a card, and holds what is left under its resume limit.
pub open spec fn room_of(
    ledger: Ledger,
    capacities: Capacities,
    card: int,
    count: nat,
    room: Room,
) -> bool {
    &&& 0 <= card < count
    &&& capacities.cards[card].worker == room.worker
    &&& capacities.is_live(room.worker)
    &&& room.available > 0
    &&& room.available == ledger.available(capacities, card)
}

/// A room is that of one of the first cards.
pub open spec fn is_room(ledger: Ledger, capacities: Capacities, count: nat, room: Room) -> bool {
    exists|card: int| room_of(ledger, capacities, card, count, room)
}

/// Normal resume keeps its headroom: afterwards a worker holds no more than before, or no more than
/// its resume limit. Programs may not be charged more between turns than they hold, and no queue
/// may hold the id of a request that another session uses.
pub proof fn lemma_resume_keeps_headroom(
    model: Model,
    capacities: Capacities,
    decays: Map<Seq<char>, usize>,
    decayed: Map<WorkerWithDpRank, usize>,
    worker: WorkerWithDpRank,
)
    requires
        model.queues_own_requests(),
        weighs_no_more(model.ledger),
        one_card_each(capacities.cards),
    ensures
        ({
            let after = model.programs_resumed(capacities, decays, decayed).model;
            let used = used_on(after.ledger.usage, worker);
            ||| used <= used_on(model.ledger.usage, worker)
            ||| exists|at: int|
                0 <= at < capacities.cards.len() && (#[trigger] capacities.cards[at]).worker
                    == worker && used <= capacities.cards[at].resume_limit
        }),
{
    let count = capacities.cards.len();
    let rooms = model.ledger.rooms(capacities, count);
    let order = model.ledger.order_by(largest_first(model.ledger.resumable(rooms)));
    let before = used_on(model.ledger.usage, worker) as int;
    lemma_rooms(model.ledger, capacities, count);
    if exists|at: int| 0 <= at < rooms.len() && (#[trigger] rooms[at]).worker == worker {
        let own = choose|at: int| 0 <= at < rooms.len() && (#[trigger] rooms[at]).worker == worker;
        assert(is_room(model.ledger, capacities, count, rooms[own]));
        let card = choose|card: int| room_of(model.ledger, capacities, card, count, rooms[own]);
        let limit = capacities.cards[card].resume_limit as int;
        assert forall|at: int|
            0 <= at < rooms.len() && (#[trigger] rooms[at]).worker == worker implies before
            + rooms[at].available <= limit by {
            if at < own {
                assert(rooms[at].worker != rooms[own].worker);
            } else if own < at {
                assert(rooms[own].worker != rooms[at].worker);
            }
        }
        lemma_packed_usage(model, rooms, decays, decayed, order, worker, limit);
        assert(capacities.cards[card].worker == worker);
    } else {
        lemma_packed_usage(model, rooms, decays, decayed, order, worker, before);
    }
}

/// Where queues only shrink and no request changes its session, every queue still holds its own.
proof fn lemma_owned(model: Model, next: Model)
    requires
        model.queues_own_requests(),
        model.keeps_turns(next),
    ensures
        next.queues_own_requests(),
{
    assert forall|session: Seq<char>, at: int|
        #![trigger next.sessions[session].waiting[at]]
        next.sessions.contains_key(session) && 0 <= at < next.sessions[session].waiting.len()
            && next.requests.contains_key(next.sessions[session].waiting[at]) implies
        next.requests[next.sessions[session].waiting[at]].session == session by {
        let id = next.sessions[session].waiting[at];
        assert(next.sessions[session].waiting.contains(id));
        assert(next.queues(session, id));
        assert(model.queues(session, id));
        let queue = model.sessions[session].waiting;
        let place = choose|place: int| 0 <= place < queue.len() && queue[place] == id;
        assert(model.sessions[session].waiting[place] == id);
    }
}

/// In a new state no queue holds the id of another session's request.
pub proof fn lemma_fresh_queues_own_requests(config: ThunderAgentConfig, now: u64)
    ensures
        Model::fresh(config, now).queues_own_requests(),
{
}

/// The end of retention, all that a refused request brings about, keeps every queue to its own
/// session's requests.
pub proof fn lemma_expiring_keeps_queues(model: Model, now: u64)
    requires
        model.queues_own_requests(),
    ensures
        model.programs_expired(now).0.queues_own_requests(),
{
}

/// Taking up a request keeps every queue to its own session's requests. The id may not linger in
/// another session's queue.
pub proof fn lemma_registering_keeps_queues(
    model: Model,
    id: Seq<char>,
    session: Seq<char>,
    input_tokens: usize,
    session_final: bool,
    capacities: Capacities,
    now: u64,
)
    requires
        model.queues_own_requests(),
        forall|other: Seq<char>| #[trigger]
            model.queues(other, id) ==> other == session,
    ensures
        model.registered(
            id,
            session,
            input_tokens,
            session_final,
            capacities,
            now,
        ).queues_own_requests(),
{
    let queued = model.enqueued(id, session, input_tokens, session_final);
    assert forall|other: Seq<char>, at: int|
        #![trigger queued.sessions[other].waiting[at]]
        queued.sessions.contains_key(other) && 0 <= at < queued.sessions[other].waiting.len()
            && queued.requests.contains_key(queued.sessions[other].waiting[at]) implies
        queued.requests[queued.sessions[other].waiting[at]].session == other by {
        let name = queued.sessions[other].waiting[at];
        if name == id {
            if other != session {
                assert(model.sessions[other].waiting.contains(name));
                assert(model.queues(other, id));
            }
        } else {
            assert(model.sessions[other].waiting[at] == name);
        }
    }
    lemma_registering_keeps_turns(
        model,
        id,
        session,
        input_tokens,
        session_final,
        capacities,
        now,
    );
    lemma_owned(
        queued,
        model.registered(id, session, input_tokens, session_final, capacities, now),
    );
}

/// A release keeps every queue to its own session's requests.
pub proof fn lemma_releasing_keeps_queues(
    model: Model,
    id: Seq<char>,
    worker: Option<WorkerWithDpRank>,
)
    requires
        model.queues_own_requests(),
    ensures
        model.released(id, worker).0.queues_own_requests(),
{
    lemma_releasing_keeps_turns(model, id, worker);
    lemma_owned(model, model.released(id, worker).0);
}

/// The periodic step keeps every queue to its own session's requests.
pub proof fn lemma_reconciling_keeps_queues(
    model: Model,
    capacities: Capacities,
    decays: Map<Seq<char>, usize>,
    now: u64,
)
    requires
        model.queues_own_requests(),
    ensures
        model.reconciled(capacities, decays, now).0.queues_own_requests(),
{
    lemma_reconciling_keeps_turns(model, capacities, decays, now);
    lemma_owned(model, model.reconciled(capacities, decays, now).0);
}

/// The end of a request keeps every queue to its own session's requests.
pub proof fn lemma_finishing_keeps_queues(
    model: Model,
    id: Seq<char>,
    outcome: Outcome,
    capacities: Capacities,
    now: u64,
)
    requires
        model.queues_own_requests(),
    ensures
        model.finished(id, outcome, capacities, now).0.queues_own_requests(),
{
    lemma_finishing_keeps_turns(model, id, outcome, capacities, now);
    lemma_owned(model, model.finished(id, outcome, capacities, now).0);
}

/// Sending a request keeps every queue to its own session's requests.
pub proof fn lemma_sending_keeps_queues(
    model: Model,
    id: Seq<char>,
    worker: WorkerWithDpRank,
    now: u64,
)
    requires
        model.queues_own_requests(),
    ensures
        model.sent(id, worker, now).0.queues_own_requests(),
{
    lemma_sending_keeps_turns(model, id, worker, now);
    lemma_owned(model, model.sent(id, worker, now).0);
}

/// Where the periodic step resumes programs, a worker afterwards holds no more than before it, or
/// no more than its resume limit.
pub proof fn lemma_reconciling_keeps_headroom(
    model: Model,
    capacities: Capacities,
    decays: Map<Seq<char>, usize>,
    decayed: Map<WorkerWithDpRank, usize>,
    now: u64,
    worker: WorkerWithDpRank,
)
    requires
        model.sound(),
        model.weights_kept(),
        model.queues_own_requests(),
        one_card_each(capacities.cards),
    ensures
        ({
            let before = model.before_resuming(capacities, now);
            let after = before.programs_resumed(capacities, decays, decayed).model;
            let used = used_on(after.ledger.usage, worker);
            ||| used <= used_on(before.ledger.usage, worker)
            ||| exists|at: int|
                0 <= at < capacities.cards.len() && (#[trigger] capacities.cards[at]).worker
                    == worker && used <= capacities.cards[at].resume_limit
        }),
{
    let before = model.before_resuming(capacities, now);
    lemma_admitting_keeps_weights(model, capacities, now);
    lemma_admitting_keeps_turns(model, capacities, now);
    lemma_owned(model, before);
    lemma_resume_keeps_headroom(before, capacities, decays, decayed, worker);
}

} // verus!
