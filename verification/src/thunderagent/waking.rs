//! No waiter is forgotten: whoever stops waiting is told to look again.
use vstd::prelude::*;

use crate::ranking::Rank;
use crate::thunderagent::capacity::Capacities;
use crate::thunderagent::model::{Model, Outcome, WaitStatus};
use crate::thunderagent::placement::{
    best_room, decayed_more, decayed_tokens, forced_target, largest_first, running, timed_out, Room,
};
use crate::thunderagent::program::{Program, ProgramLifecycle};
use crate::worker::WorkerWithDpRank;

verus! {

impl Model {
    /// Whether a waiter was told to look again after the first `count` calls.
    pub open spec fn woke(self, count: nat, id: Seq<char>) -> bool {
        exists|at: int| count <= at < self.wakeups.len() && #[trigger] self.wakeups[at] == id
    }

    /// A later state has all calls of this one, and has called everyone but the given request that
    /// no longer waits.
    pub open spec fn calls_but(self, next: Model, exempt: Option<Seq<char>>) -> bool {
        &&& self.wakeups.len() <= next.wakeups.len()
        &&& forall|at: int|
            0 <= at < self.wakeups.len() ==> #[trigger] next.wakeups[at] == self.wakeups[at]
        &&& forall|id: Seq<char>|
            #![trigger next.is_waiting(id)]
            #![trigger self.is_waiting(id)]
            self.is_waiting(id) && !next.is_waiting(id) && exempt != Some(id) ==> next.woke(
                self.wakeups.len(),
                id,
            )
    }

    /// A later state has called everyone that no longer waits.
    pub open spec fn calls(self, next: Model) -> bool {
        self.calls_but(next, None)
    }
}

proof fn lemma_then(a: Model, b: Model, c: Model, exempt: Option<Seq<char>>)
    requires
        a.calls_but(b, exempt),
        b.calls_but(c, exempt),
    ensures
        a.calls_but(c, exempt),
{
    assert forall|id: Seq<char>|
        #![trigger c.is_waiting(id)]
        #![trigger a.is_waiting(id)]
        a.is_waiting(id) && !c.is_waiting(id) && exempt != Some(id) implies c.woke(
        a.wakeups.len(),
        id,
    ) by {
        if b.is_waiting(id) {
            let at = choose|at: int|
                b.wakeups.len() <= at < c.wakeups.len() && #[trigger] c.wakeups[at] == id;
            assert(c.wakeups[at] == id);
        } else {
            let at = choose|at: int|
                a.wakeups.len() <= at < b.wakeups.len() && #[trigger] b.wakeups[at] == id;
            assert(c.wakeups[at] == id);
        }
    }
    assert forall|at: int| 0 <= at < a.wakeups.len() implies #[trigger] c.wakeups[at]
        == a.wakeups[at] by {
        assert(b.wakeups[at] == a.wakeups[at]);
    }
}

/// Nobody stops waiting where phases and calls stay as they are.
proof fn lemma_quietly(model: Model, next: Model)
    requires
        next.wakeups == model.wakeups,
        forall|id: Seq<char>| #[trigger] model.is_waiting(id) ==> next.is_waiting(id),
    ensures
        model.calls(next),
{
}

/// Whoever is released is called.
pub proof fn lemma_releasing_calls(model: Model, id: Seq<char>, worker: Option<WorkerWithDpRank>)
    ensures
        model.calls(model.released(id, worker).0),
{
    if model.can_release(id) {
        let gone = model.let_go(id, worker);
        let passed = gone.timer_passed(id);
        let next = passed.woken(id);
        assert(next.wakeups[passed.wakeups.len() as int] == id);
        assert forall|other: Seq<char>|
            #![trigger next.is_waiting(other)]
            #![trigger model.is_waiting(other)]
            model.is_waiting(other) && !next.is_waiting(other) implies next.woke(
            model.wakeups.len(),
            other,
        ) by {
            assert(other == id);
        }
    }
}

proof fn lemma_decided(model: Model, id: Seq<char>, capacities: Capacities, now: u64)
    ensures
        model.calls(model.decided(id, capacities, now).0),
{
    let request = model.requests[id];
    let session = request.session;
    let program = model.ledger.programs[session];
    let free = model.with_ledger(
        if program.assigned_worker is Some {
            model.ledger.assigned(session, None)
        } else {
            model.ledger
        },
    );
    let required = request.input_tokens.saturating_add(model.config.buffer_per_program);
    lemma_releasing_calls(model, id, None);
    lemma_releasing_calls(model, id, program.assigned_worker);
    lemma_releasing_calls(free, id, free.ledger.admission_worker(capacities, required));
    lemma_quietly(model, free);
    lemma_then(
        model,
        free,
        free.released(id, free.ledger.admission_worker(capacities, required)).0,
        None,
    );
    lemma_quietly(model, model.deferred(session, now, program.assigned_worker is Some).0);
    lemma_quietly(model, free.deferred(session, now, false).0);
}

proof fn lemma_admitted(model: Model, id: Seq<char>, capacities: Capacities, now: u64)
    ensures
        model.calls(model.admitted(id, capacities, now).0),
{
    if model.is_next(id) && model.can_begin(id) {
        let begun = model.begun(id);
        lemma_quietly(model, begun);
        lemma_decided(begun, id, capacities, now);
        lemma_then(model, begun, begun.decided(id, capacities, now).0, None);
    } else {
        lemma_quietly(model, model);
    }
}

proof fn lemma_all_admitted(model: Model, ids: Seq<Seq<char>>, capacities: Capacities, now: u64)
    ensures
        model.calls(model.all_admitted(ids, capacities, now).0),
    decreases ids.len(),
{
    if ids.len() > 0 {
        let here = model.admitted(ids[0], capacities, now).0;
        lemma_admitted(model, ids[0], capacities, now);
        lemma_all_admitted(here, ids.drop_first(), capacities, now);
        lemma_then(model, here, here.all_admitted(ids.drop_first(), capacities, now).0, None);
    } else {
        lemma_quietly(model, model);
    }
}

proof fn lemma_resumed(model: Model, session: Seq<char>, worker: Option<WorkerWithDpRank>)
    ensures
        model.calls(model.resumed(session, worker).0),
{
    let ran = model.resumed(session, worker);
    if ran.1 {
        let running = model.with_ledger(
            model.ledger.with(
                session,
                Program {
                    lifecycle: ProgramLifecycle::Active,
                    deferred_since: None,
                    assigned_worker: worker,
                    ..model.ledger.programs[session]
                },
            ),
        );
        lemma_quietly(model, running);
        if let Some(id) = model.pending(session) {
            lemma_releasing_calls(running, id, worker);
            lemma_then(model, running, ran.0, None);
        }
    } else {
        lemma_quietly(model, model);
    }
}

proof fn lemma_packed(
    model: Model,
    rooms: Seq<Room>,
    decays: Map<Seq<char>, usize>,
    decayed: Map<WorkerWithDpRank, usize>,
    order: Seq<Rank>,
)
    ensures
        model.calls(model.packed(rooms, decays, decayed, order).model),
    decreases order.len(),
{
    if order.len() > 0 {
        let name = order[0].name;
        let rest = order.drop_first();
        let seat = if model.ledger.programs.contains_key(name) {
            best_room(
                rooms,
                model.ledger.required(name),
                model.ledger.programs[name].assigned_worker,
            )
        } else {
            None
        };
        match seat {
            None => lemma_packed(model, rooms, decays, decayed, rest),
            Some(at) => {
                let room = rooms[at];
                let (after, changed) = model.resumed(name, Some(room.worker));
                lemma_resumed(model, name, Some(room.worker));
                if !changed || !after.ledger.programs.contains_key(name) {
                    lemma_packed(after, rooms, decays, decayed, rest);
                } else {
                    let left = (room.available - model.ledger.required(name)) as usize;
                    let tokens = decayed_tokens(decays, name, after.ledger.programs[name]);
                    lemma_packed(
                        after,
                        rooms.update(at, Room { available: left, ..room }),
                        decays,
                        decayed_more(decayed, room.worker, tokens, model.ledger.buffer),
                        rest,
                    );
                }
                lemma_then(
                    model,
                    after,
                    model.packed(rooms, decays, decayed, order).model,
                    None,
                );
            },
        }
    } else {
        lemma_quietly(model, model);
    }
}

proof fn lemma_forced(
    model: Model,
    capacities: Capacities,
    decays: Map<Seq<char>, usize>,
    decayed: Map<WorkerWithDpRank, usize>,
    order: Seq<Rank>,
)
    ensures
        model.calls(model.forced(capacities, decays, decayed, order).0),
    decreases order.len(),
{
    if order.len() > 0 {
        let name = order[0].name;
        let rest = order.drop_first();
        let known = model.ledger.programs.contains_key(name);
        let target = forced_target(
            capacities,
            decayed,
            model.ledger.programs[name].assigned_worker,
        );
        if !known || (target is None && !capacities.has_live_worker()) {
            lemma_forced(model, capacities, decays, decayed, rest);
        } else {
            let (after, changed) = model.resumed(name, target);
            lemma_resumed(model, name, target);
            lemma_forced(
                after,
                capacities,
                decays,
                match target {
                    Some(worker) if changed && after.ledger.programs.contains_key(name) =>
                        decayed_more(
                        decayed,
                        worker,
                        decayed_tokens(decays, name, after.ledger.programs[name]),
                        model.ledger.buffer,
                    ),
                    _ => decayed,
                },
                rest,
            );
            lemma_then(
                model,
                after,
                model.forced(capacities, decays, decayed, order).0,
                None,
            );
        }
    } else {
        lemma_quietly(model, model);
    }
}

/// Whoever is released by the periodic step is called.
pub proof fn lemma_reconciling_calls(
    model: Model,
    capacities: Capacities,
    decays: Map<Seq<char>, usize>,
    now: u64,
)
    ensures
        model.calls(model.reconciled(capacities, decays, now).0),
{
    let timed = Model {
        next_reconcile_at: (now + model.config.scheduler_interval) as u128,
        ..model
    };
    let kept = timed.programs_expired(now).0;
    let cleared = kept.removed_cleared(capacities).0;
    lemma_quietly(model, cleared);
    let admitted = cleared.all_admitted(cleared.candidates(), capacities, now).0;
    lemma_all_admitted(cleared, cleared.candidates(), capacities, now);
    lemma_then(model, cleared, admitted, None);
    let decayed = admitted.ledger.decayed_usage(
        decays,
        Map::empty(),
        admitted.ledger.order_by(running()),
    );
    let rooms = admitted.ledger.rooms(capacities, capacities.cards.len());
    let chosen = admitted.ledger.resumable(rooms);
    let packing = admitted.programs_resumed(capacities, decays, decayed);
    lemma_packed(
        admitted,
        rooms,
        decays,
        decayed,
        admitted.ledger.order_by(largest_first(chosen)),
    );
    lemma_then(model, admitted, packing.model, None);
    let late = packing.model.ledger.order_by(
        timed_out(now, packing.model.config.resume_timeout),
    );
    let forced = packing.model.forced(capacities, decays, packing.decayed, late).0;
    lemma_forced(packing.model, capacities, decays, packing.decayed, late);
    lemma_then(model, packing.model, forced, None);
    let next = model.reconciled(capacities, decays, now).0;
    lemma_quietly(forced, next);
    lemma_then(model, forced, next, None);
}

/// Whoever is released by an arrival is called.
pub proof fn lemma_registering_calls(
    model: Model,
    id: Seq<char>,
    session: Seq<char>,
    input_tokens: usize,
    session_final: bool,
    capacities: Capacities,
    now: u64,
)
    requires
        !model.requests.contains_key(id),
    ensures
        ({
            let next = model.registered(
                id,
                session,
                input_tokens,
                session_final,
                capacities,
                now,
            );
            &&& model.calls(next)
            &&& next.wait_status(id) == WaitStatus::Released ==> next.woke(
                model.wakeups.len(),
                id,
            )
        }),
{
    let found = model.programs_expired(now).0.room_made(session).removed_cleared(capacities).0;
    let queued = found.enqueued(id, session, input_tokens, session_final);
    lemma_quietly(model, queued);
    let admitted = queued.admitted(id, capacities, now).0;
    lemma_admitted(queued, id, capacities, now);
    lemma_then(model, queued, admitted, None);
    let next = model.registered(id, session, input_tokens, session_final, capacities, now);
    lemma_quietly(admitted, next);
    lemma_then(model, admitted, next, None);
    lemma_then(queued, admitted, next, None);
    assert(queued.is_waiting(id));
    if next.wait_status(id) == WaitStatus::Released {
        assert(!next.is_waiting(id));
    }
}

/// When a request ends, it is called itself, and so is whoever that releases.
pub proof fn lemma_finishing_calls(
    model: Model,
    id: Seq<char>,
    outcome: Outcome,
    capacities: Capacities,
    now: u64,
)
    ensures
        model.calls(model.finished(id, outcome, capacities, now).0),
        model.requests.contains_key(id) ==> model.finished(
            id,
            outcome,
            capacities,
            now,
        ).0.woke(model.wakeups.len(), id),
{
    if model.requests.contains_key(id) {
        let request = model.requests[id];
        let exempt = Some(id);
        let settled = model.dequeued(id).settled(request, outcome, now);
        assert(model.calls_but(settled, exempt));
        let admitted = settled.next_admitted(request.session, capacities, now);
        if let Some(first) = settled.pending(request.session) {
            lemma_admitted(settled, first, capacities, now);
        } else {
            lemma_quietly(settled, admitted);
        }
        lemma_then(model, settled, admitted, exempt);
        let closed = admitted.session_closed(request.session).retention_scheduled(
            request.session,
        ).reconcile_requested(now).arrivals_compacted();
        assert(admitted.calls_but(closed, exempt)) by {
            assert forall|other: Seq<char>| closed.is_waiting(other) == admitted.is_waiting(
                other,
            ) by {}
        }
        lemma_then(model, admitted, closed, exempt);
        let next = closed.woken(id);
        assert(next.wakeups[closed.wakeups.len() as int] == id);
        assert(closed.calls_but(next, exempt));
        lemma_then(model, closed, next, exempt);
        assert(next.woke(model.wakeups.len(), id));
    } else {
        lemma_quietly(model, model);
    }
}

/// Nobody stops waiting when a request is sent.
pub proof fn lemma_sending_calls(model: Model, id: Seq<char>, worker: WorkerWithDpRank, now: u64)
    ensures
        model.calls(model.sent(id, worker, now).0),
{
    let next = model.sent(id, worker, now).0;
    assert forall|other: Seq<char>| next.is_waiting(other) == model.is_waiting(other) by {}
}

} // verus!
