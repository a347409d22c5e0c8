//! A deferred request is released at the latest when its timeout has passed.
use vstd::prelude::*;

use crate::ranking::Rank;
use crate::thunderagent::capacity::Capacities;
use crate::thunderagent::ledger::Ledger;
use crate::thunderagent::model::{evictable, expired, Model, WaitStatus};
use crate::thunderagent::order::{has_key, lemma_first, lemma_order};
use crate::thunderagent::placement::{
    best_room, decayed_more, decayed_tokens, forced_target, largest_first, running, timed_out, Room,
};
use crate::thunderagent::program::{Program, ProgramLifecycle};
use crate::thunderagent::relief::on_removed_worker;
use crate::thunderagent::soundness::{
    lemma_all_admitted, lemma_expired, lemma_packed, lemma_removed_cleared, lemma_timed_is_sound,
};
use crate::worker::WorkerWithDpRank;

verus! {

/// A program has been paused and deferred since a moment.
pub open spec fn deferred_at(ledger: Ledger, session: Seq<char>, since: u64) -> bool {
    &&& ledger.programs.contains_key(session)
    &&& ledger.programs[session].lifecycle == ProgramLifecycle::Paused
    &&& ledger.programs[session].deferred_since == Some(since)
}

impl Model {
    /// A request whose turn has begun waits, and its program has been deferred since a moment.
    pub open spec fn held_since(self, id: Seq<char>, since: u64) -> bool {
        &&& self.is_next(id)
        &&& self.requests[id].began
        &&& deferred_at(self.ledger, self.requests[id].session, since)
    }

    /// In a later state the request is released or still held since the same moment.
    pub open spec fn holds(self, next: Model, id: Seq<char>, since: u64) -> bool {
        &&& next.config == self.config
        &&& self.held_since(id, since) ==> next.wait_status(id) == WaitStatus::Released
            || next.held_since(id, since)
        &&& self.wait_status(id) == WaitStatus::Released ==> next.wait_status(id)
            == WaitStatus::Released
    }
}

proof fn lemma_without_others(ledger: Ledger, order: Seq<Rank>, session: Seq<char>, since: u64)
    requires
        deferred_at(ledger, session, since),
        forall|at: int| 0 <= at < order.len() ==> (#[trigger] order[at]).name != session,
    ensures
        deferred_at(ledger.without_all(order), session, since),
    decreases order.len(),
{
    if order.len() > 0 {
        let rest = order.drop_first();
        assert forall|at: int| 0 <= at < rest.len() implies (#[trigger] rest[at]).name
            != session by {
            assert(rest[at] == order[at + 1]);
        }
        lemma_without_others(ledger.without(order[0].name), rest, session, since);
    }
}

proof fn lemma_unassigned_defers(ledger: Ledger, order: Seq<Rank>, session: Seq<char>, since: u64)
    requires
        deferred_at(ledger, session, since),
    ensures
        deferred_at(ledger.unassigned(order), session, since),
    decreases order.len(),
{
    if order.len() > 0 {
        lemma_unassigned_defers(
            ledger.assigned(order[0].name, None),
            order.drop_first(),
            session,
            since,
        );
    }
}

proof fn lemma_expired_holds(model: Model, now: u64, id: Seq<char>, since: u64)
    requires
        model.sound(),
    ensures
        model.holds(model.programs_expired(now).0, id, since),
{
    let keys = expired(model.sessions, now, model.config.session_retention);
    let gone = model.ledger.order_by(keys);
    if model.held_since(id, since) {
        let session = model.requests[id].session;
        lemma_order(model.ledger, keys);
        assert forall|at: int| 0 <= at < gone.len() implies (#[trigger] gone[at]).name
            != session by {
            assert(has_key(model.ledger, keys, gone[at].name));
        }
        lemma_without_others(model.ledger, gone, session, since);
    }
}

proof fn lemma_cleared_holds(model: Model, capacities: Capacities, id: Seq<char>, since: u64)
    ensures
        model.holds(model.removed_cleared(capacities).0, id, since),
{
    if model.held_since(id, since) {
        lemma_unassigned_defers(
            model.ledger,
            model.ledger.order_by(on_removed_worker(capacities)),
            model.requests[id].session,
            since,
        );
    }
}

proof fn lemma_released_holds(
    model: Model,
    other: Seq<char>,
    worker: Option<WorkerWithDpRank>,
    id: Seq<char>,
    since: u64,
)
    ensures
        model.holds(model.released(other, worker).0, id, since),
{
    if model.can_release(other) && other != id && model.held_since(id, since) {
        assert(model.requests[other].session != model.requests[id].session);
    }
}

proof fn lemma_begun_holds(model: Model, other: Seq<char>, id: Seq<char>, since: u64)
    requires
        model.is_next(other),
    ensures
        model.holds(model.begun(other), id, since),
        model.held_since(id, since) && other == id ==> model.begun(other) == model,
{
    if model.held_since(id, since) && other != id && !model.requests[other].began {
        let session = model.requests[other].session;
        assert(session != model.requests[id].session);
        if !model.has_room(session) {
            lemma_first(model.ledger, evictable(model.sessions));
        }
    }
}

proof fn lemma_decided_holds(
    model: Model,
    other: Seq<char>,
    capacities: Capacities,
    now: u64,
    id: Seq<char>,
    since: u64,
)
    requires
        model.is_next(other),
    ensures
        model.holds(model.decided(other, capacities, now).0, id, since),
{
    let request = model.requests[other];
    let session = request.session;
    let program = model.ledger.programs[session];
    let free = model.with_ledger(
        if program.assigned_worker is Some {
            model.ledger.assigned(session, None)
        } else {
            model.ledger
        },
    );
    let required = request.input_tokens.saturating_add(model.config.buffer_per_program);
    lemma_released_holds(model, other, None, id, since);
    lemma_released_holds(model, other, program.assigned_worker, id, since);
    lemma_released_holds(
        free,
        other,
        free.ledger.admission_worker(capacities, required),
        id,
        since,
    );
    if model.held_since(id, since) && other != id {
        assert(session != model.requests[id].session);
    }
}

proof fn lemma_admitted_holds(
    model: Model,
    other: Seq<char>,
    capacities: Capacities,
    now: u64,
    id: Seq<char>,
    since: u64,
)
    ensures
        model.holds(model.admitted(other, capacities, now).0, id, since),
{
    if model.is_next(other) && model.can_begin(other) {
        let begun = model.begun(other);
        lemma_begun_holds(model, other, id, since);
        assert(begun.is_next(other));
        lemma_decided_holds(begun, other, capacities, now, id, since);
    }
}

proof fn lemma_all_admitted_holds(
    model: Model,
    ids: Seq<Seq<char>>,
    capacities: Capacities,
    now: u64,
    id: Seq<char>,
    since: u64,
)
    ensures
        model.holds(model.all_admitted(ids, capacities, now).0, id, since),
    decreases ids.len(),
{
    if ids.len() > 0 {
        let here = model.admitted(ids[0], capacities, now).0;
        lemma_admitted_holds(model, ids[0], capacities, now, id, since);
        lemma_all_admitted_holds(here, ids.drop_first(), capacities, now, id, since);
    }
}

/// Resuming a session holds others, and releases its own held request.
proof fn lemma_resumed_holds(
    model: Model,
    session: Seq<char>,
    worker: Option<WorkerWithDpRank>,
    id: Seq<char>,
    since: u64,
)
    ensures
        model.holds(model.resumed(session, worker).0, id, since),
        model.held_since(id, since) && model.requests[id].session == session
            ==> model.resumed(session, worker).0.wait_status(id) == WaitStatus::Released,
{
    if model.resumed(session, worker).1 {
        let running = model.with_ledger(
            model.ledger.with(
                session,
                Program {
                    lifecycle: ProgramLifecycle::Active,
                    deferred_since: None,
                    assigned_worker: worker,
                    ..model.ledger.programs[session]
                },
            ),
        );
        if let Some(first) = model.pending(session) {
            lemma_released_holds(running, first, worker, id, since);
            if model.held_since(id, since) && model.requests[id].session == session {
                assert(first == id);
                assert(running.is_next(id));
                assert(running.can_release(id));
            }
        }
    }
}

proof fn lemma_packed_holds(
    model: Model,
    rooms: Seq<Room>,
    decays: Map<Seq<char>, usize>,
    decayed: Map<WorkerWithDpRank, usize>,
    order: Seq<Rank>,
    id: Seq<char>,
    since: u64,
)
    ensures
        model.holds(model.packed(rooms, decays, decayed, order).model, id, since),
    decreases order.len(),
{
    if order.len() > 0 {
        let name = order[0].name;
        let rest = order.drop_first();
        let seat = if model.ledger.programs.contains_key(name) {
            best_room(
                rooms,
                model.ledger.required(name),
                model.ledger.programs[name].assigned_worker,
            )
        } else {
            None
        };
        match seat {
            None => lemma_packed_holds(model, rooms, decays, decayed, rest, id, since),
            Some(at) => {
                let room = rooms[at];
                let (after, changed) = model.resumed(name, Some(room.worker));
                lemma_resumed_holds(model, name, Some(room.worker), id, since);
                if !changed || !after.ledger.programs.contains_key(name) {
                    lemma_packed_holds(after, rooms, decays, decayed, rest, id, since);
                } else {
                    let left = (room.available - model.ledger.required(name)) as usize;
                    let tokens = decayed_tokens(decays, name, after.ledger.programs[name]);
                    lemma_packed_holds(
                        after,
                        rooms.update(at, Room { available: left, ..room }),
                        decays,
                        decayed_more(decayed, room.worker, tokens, model.ledger.buffer),
                        rest,
                        id,
                        since,
                    );
                }
            },
        }
    }
}

/// Forcing a session releases its held request while any worker is live.
proof fn lemma_forced_releases(
    model: Model,
    capacities: Capacities,
    decays: Map<Seq<char>, usize>,
    decayed: Map<WorkerWithDpRank, usize>,
    order: Seq<Rank>,
    id: Seq<char>,
    since: u64,
)
    requires
        capacities.has_live_worker(),
    ensures
        model.holds(model.forced(capacities, decays, decayed, order).0, id, since),
        model.held_since(id, since) && (exists|at: int|
            0 <= at < order.len() && (#[trigger] order[at]).name == model.requests[id].session)
            ==> model.forced(capacities, decays, decayed, order).0.wait_status(id)
            == WaitStatus::Released,
    decreases order.len(),
{
    if order.len() > 0 {
        let name = order[0].name;
        let rest = order.drop_first();
        let session = model.requests[id].session;
        if name != session && exists|at: int|
            0 <= at < order.len() && (#[trigger] order[at]).name == session {
            let at = choose|at: int|
                0 <= at < order.len() && (#[trigger] order[at]).name == session;
            assert(rest[at - 1].name == session);
        }
        if !model.ledger.programs.contains_key(name) {
            lemma_forced_releases(model, capacities, decays, decayed, rest, id, since);
        } else {
            let target = forced_target(
                capacities,
                decayed,
                model.ledger.programs[name].assigned_worker,
            );
            let (after, changed) = model.resumed(name, target);
            lemma_resumed_holds(model, name, target, id, since);
            lemma_session_kept(model, name, target, id);
            lemma_forced_releases(
                after,
                capacities,
                decays,
                match target {
                    Some(worker) if changed && after.ledger.programs.contains_key(name) =>
                        decayed_more(
                        decayed,
                        worker,
                        decayed_tokens(decays, name, after.ledger.programs[name]),
                        model.ledger.buffer,
                    ),
                    _ => decayed,
                },
                rest,
                id,
                since,
            );
        }
    }
}

/// A request stays in its session.
proof fn lemma_session_kept(
    model: Model,
    session: Seq<char>,
    worker: Option<WorkerWithDpRank>,
    id: Seq<char>,
)
    ensures
        model.requests.contains_key(id) ==> model.resumed(
            session,
            worker,
        ).0.requests[id].session == model.requests[id].session,
{
}

/// While any worker is live, the periodic step releases every request whose program has been
/// deferred for the resume timeout.
pub proof fn lemma_overdue_requests_are_released(
    model: Model,
    id: Seq<char>,
    since: u64,
    capacities: Capacities,
    decays: Map<Seq<char>, usize>,
    now: u64,
)
    requires
        model.sound(),
        model.held_since(id, since),
        now.saturating_sub(since) >= model.config.resume_timeout,
        capacities.has_live_worker(),
    ensures
        model.reconciled(capacities, decays, now).0.wait_status(id) == WaitStatus::Released,
{
    let timed = Model {
        next_reconcile_at: (now + model.config.scheduler_interval) as u128,
        ..model
    };
    lemma_timed_is_sound(model, timed);
    assert(model.holds(timed, id, since));
    let kept = timed.programs_expired(now).0;
    lemma_expired(timed, now);
    lemma_expired_holds(timed, now, id, since);
    let cleared = kept.removed_cleared(capacities).0;
    lemma_removed_cleared(kept, capacities);
    lemma_cleared_holds(kept, capacities, id, since);
    let ids = cleared.candidates();
    let admitted = cleared.all_admitted(ids, capacities, now).0;
    lemma_all_admitted(cleared, ids, capacities, now);
    lemma_all_admitted_holds(cleared, ids, capacities, now, id, since);
    let decayed = admitted.ledger.decayed_usage(
        decays,
        Map::empty(),
        admitted.ledger.order_by(running()),
    );
    let rooms = admitted.ledger.rooms(capacities, capacities.cards.len());
    let order = admitted.ledger.order_by(largest_first(admitted.ledger.resumable(rooms)));
    let packing = admitted.programs_resumed(capacities, decays, decayed);
    lemma_packed(admitted, rooms, decays, decayed, order);
    lemma_packed_holds(admitted, rooms, decays, decayed, order, id, since);
    let keys = timed_out(now, packing.model.config.resume_timeout);
    let late = packing.model.ledger.order_by(keys);
    lemma_order(packing.model.ledger, keys);
    lemma_forced_releases(packing.model, capacities, decays, packing.decayed, late, id, since);
    if packing.model.held_since(id, since) {
        assert(has_key(packing.model.ledger, keys, packing.model.requests[id].session));
    }
    let forced = packing.model.forced(capacities, decays, packing.decayed, late).0;
    assert(forced.wait_status(id) == WaitStatus::Released);
}

} // verus!
