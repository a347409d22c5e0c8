//! The requests of a session are released in order of arrival.
use vstd::prelude::*;

use crate::ranking::Rank;
use crate::thunderagent::capacity::Capacities;
use crate::thunderagent::model::{drop_leading, only, Model, Outcome, RequestPhase};
use crate::thunderagent::placement::{
    best_room, decayed_more, decayed_tokens, forced_target, largest_first, running, timed_out, Room,
};
use crate::thunderagent::program::{Program, ProgramLifecycle};
use crate::worker::WorkerWithDpRank;

verus! {

/// A queue holds a name at a position, and another one not up to there.
pub open spec fn first_until(queue: Seq<Seq<char>>, at: int, a: Seq<char>, b: Seq<char>) -> bool {
    &&& 0 <= at < queue.len()
    &&& queue[at] == a
    &&& forall|k: int| 0 <= k <= at ==> #[trigger] queue[k] != b
}

/// A name comes before another one in a queue.
pub open spec fn comes_first(queue: Seq<Seq<char>>, a: Seq<char>, b: Seq<char>) -> bool {
    exists|at: int| first_until(queue, at, a, b)
}

impl Model {
    /// Two requests of one session wait, the second behind the first.
    pub open spec fn waits_behind(self, a: Seq<char>, b: Seq<char>) -> bool {
        &&& self.is_waiting(a)
        &&& self.is_waiting(b)
        &&& self.requests[a].session == self.requests[b].session
        &&& self.sessions.contains_key(self.requests[a].session)
        &&& comes_first(self.sessions[self.requests[a].session].waiting, a, b)
    }

    /// In a later state, who waits behind a waiting request still does so, unless its request has
    /// ended; so it is not released.
    pub open spec fn keeps_order(self, next: Model) -> bool {
        forall|a: Seq<char>, b: Seq<char>| #[trigger]
            self.waits_behind(a, b) && next.is_waiting(a) && next.requests.contains_key(b)
                ==> next.waits_behind(a, b)
    }

    /// A later state has no queue that is new or holds a name that it did not hold.
    pub open spec fn queues_shrink(self, next: Model) -> bool {
        forall|session: Seq<char>, name: Seq<char>| #[trigger]
            next.queues(session, name) ==> self.queues(session, name)
    }

    /// A session's queue holds a name.
    pub open spec fn queues(self, session: Seq<char>, name: Seq<char>) -> bool {
        self.sessions.contains_key(session) && self.sessions[session].waiting.contains(name)
    }

    /// A later state keeps the order, and has no request that is new or waits again.
    pub open spec fn keeps_turns(self, next: Model) -> bool {
        &&& self.keeps_order(next)
        &&& self.queues_shrink(next)
        &&& forall|id: Seq<char>| #[trigger]
            next.requests.contains_key(id) ==> self.requests.contains_key(id)
                && next.requests[id].session == self.requests[id].session && (
            next.requests[id].phase == RequestPhase::Waiting ==> self.requests[id].phase
                == RequestPhase::Waiting)
    }

    /// A later state has the same queues, and the same requests in the same phases.
    pub open spec fn same_queues(self, next: Model) -> bool {
        &&& next.sessions == self.sessions
        &&& next.requests.dom() == self.requests.dom()
        &&& forall|id: Seq<char>| #[trigger]
            next.requests.contains_key(id) ==> next.requests[id].session == self.requests[id].session
                && next.requests[id].phase == self.requests[id].phase
    }
}

proof fn lemma_then(a: Model, b: Model, c: Model)
    requires
        a.keeps_turns(b),
        b.keeps_turns(c),
    ensures
        a.keeps_turns(c),
{
    assert forall|first: Seq<char>, second: Seq<char>| #[trigger]
        a.waits_behind(first, second) && c.is_waiting(first) && c.requests.contains_key(
            second,
        ) implies c.waits_behind(first, second) by {
        assert(b.requests.contains_key(first));
        assert(b.requests.contains_key(second));
        assert(b.waits_behind(first, second));
    }
}

proof fn lemma_quietly(model: Model, next: Model)
    requires
        model.same_queues(next),
    ensures
        model.keeps_turns(next),
{
    assert forall|id: Seq<char>| #[trigger] next.requests.contains_key(id) implies
        model.requests.contains_key(id) by {
        assert(next.requests.dom().contains(id));
    }
    assert forall|id: Seq<char>| #[trigger] model.requests.contains_key(id) implies
        next.requests.contains_key(id) by {
        assert(model.requests.dom().contains(id));
    }
    assert forall|a: Seq<char>, b: Seq<char>| #[trigger]
        model.waits_behind(a, b) && next.is_waiting(a) && next.requests.contains_key(
            b,
        ) implies next.waits_behind(a, b) by {
        assert(model.requests.contains_key(a));
    }
}

/// A release keeps the order: it takes the next request of its session.
pub proof fn lemma_releasing_keeps_turns(model: Model, id: Seq<char>, worker: Option<WorkerWithDpRank>)
    ensures
        model.keeps_turns(model.released(id, worker).0),
{
    if model.can_release(id) {
        let gone = model.let_go(id, worker);
        let session = model.requests[id].session;
        let queue = model.sessions[session].waiting;
        assert forall|a: Seq<char>, b: Seq<char>| #[trigger]
            model.waits_behind(a, b) && gone.is_waiting(a) && gone.requests.contains_key(
                b,
            ) implies gone.waits_behind(a, b) by {
            if model.requests[a].session == session {
                let at = choose|at: int| first_until(queue, at, a, b);
                assert(queue[0] != b);
                assert(queue[0] == id && a != id);
                let rest = queue.drop_first();
                assert(first_until(rest, at - 1, a, b)) by {
                    assert forall|k: int| 0 <= k <= at - 1 implies #[trigger] rest[k] != b by {
                        assert(rest[k] == queue[k + 1]);
                    }
                }
            }
        }
        assert forall|name: Seq<char>, other: Seq<char>| #[trigger]
            gone.queues(name, other) implies model.queues(name, other) by {
            if name == session {
                let rest = queue.drop_first();
                let at = choose|at: int| 0 <= at < rest.len() && rest[at] == other;
                assert(queue[at + 1] == other);
            }
        }
        assert(model.keeps_turns(gone));
        let next = model.released(id, worker).0;
        lemma_quietly(gone, next);
        lemma_then(model, gone, next);
    } else {
        lemma_quietly(model, model);
    }
}

proof fn lemma_decided(model: Model, id: Seq<char>, capacities: Capacities, now: u64)
    ensures
        model.keeps_turns(model.decided(id, capacities, now).0),
{
    let request = model.requests[id];
    let session = request.session;
    let program = model.ledger.programs[session];
    let free = model.with_ledger(
        if program.assigned_worker is Some {
            model.ledger.assigned(session, None)
        } else {
            model.ledger
        },
    );
    let required = request.input_tokens.saturating_add(model.config.buffer_per_program);
    lemma_releasing_keeps_turns(model, id, None);
    lemma_releasing_keeps_turns(model, id, program.assigned_worker);
    lemma_releasing_keeps_turns(free, id, free.ledger.admission_worker(capacities, required));
    lemma_quietly(model, free);
    lemma_then(
        model,
        free,
        free.released(id, free.ledger.admission_worker(capacities, required)).0,
    );
    lemma_quietly(model, model.deferred(session, now, program.assigned_worker is Some).0);
    lemma_quietly(model, free.deferred(session, now, false).0);
}

proof fn lemma_admitted(model: Model, id: Seq<char>, capacities: Capacities, now: u64)
    ensures
        model.keeps_turns(model.admitted(id, capacities, now).0),
{
    if model.is_next(id) && model.can_begin(id) {
        let begun = model.begun(id);
        assert(begun.requests.dom() =~= model.requests.dom());
        lemma_quietly(model, begun);
        lemma_decided(begun, id, capacities, now);
        lemma_then(model, begun, begun.decided(id, capacities, now).0);
    } else {
        lemma_quietly(model, model);
    }
}

proof fn lemma_all_admitted(model: Model, ids: Seq<Seq<char>>, capacities: Capacities, now: u64)
    ensures
        model.keeps_turns(model.all_admitted(ids, capacities, now).0),
    decreases ids.len(),
{
    if ids.len() > 0 {
        let here = model.admitted(ids[0], capacities, now).0;
        lemma_admitted(model, ids[0], capacities, now);
        lemma_all_admitted(here, ids.drop_first(), capacities, now);
        lemma_then(model, here, here.all_admitted(ids.drop_first(), capacities, now).0);
    } else {
        lemma_quietly(model, model);
    }
}

proof fn lemma_resumed(model: Model, session: Seq<char>, worker: Option<WorkerWithDpRank>)
    ensures
        model.keeps_turns(model.resumed(session, worker).0),
{
    let ran = model.resumed(session, worker);
    if ran.1 {
        let running = model.with_ledger(
            model.ledger.with(
                session,
                Program {
                    lifecycle: ProgramLifecycle::Active,
                    deferred_since: None,
                    assigned_worker: worker,
                    ..model.ledger.programs[session]
                },
            ),
        );
        lemma_quietly(model, running);
        if let Some(id) = model.pending(session) {
            lemma_releasing_keeps_turns(running, id, worker);
            lemma_then(model, running, ran.0);
        }
    } else {
        lemma_quietly(model, model);
    }
}

proof fn lemma_packed(
    model: Model,
    rooms: Seq<Room>,
    decays: Map<Seq<char>, usize>,
    decayed: Map<WorkerWithDpRank, usize>,
    order: Seq<Rank>,
)
    ensures
        model.keeps_turns(model.packed(rooms, decays, decayed, order).model),
    decreases order.len(),
{
    if order.len() > 0 {
        let name = order[0].name;
        let rest = order.drop_first();
        let seat = if model.ledger.programs.contains_key(name) {
            best_room(
                rooms,
                model.ledger.required(name),
                model.ledger.programs[name].assigned_worker,
            )
        } else {
            None
        };
        match seat {
            None => lemma_packed(model, rooms, decays, decayed, rest),
            Some(at) => {
                let room = rooms[at];
                let (after, changed) = model.resumed(name, Some(room.worker));
                lemma_resumed(model, name, Some(room.worker));
                if !changed || !after.ledger.programs.contains_key(name) {
                    lemma_packed(after, rooms, decays, decayed, rest);
                } else {
                    let left = (room.available - model.ledger.required(name)) as usize;
                    let tokens = decayed_tokens(decays, name, after.ledger.programs[name]);
                    lemma_packed(
                        after,
                        rooms.update(at, Room { available: left, ..room }),
                        decays,
                        decayed_more(decayed, room.worker, tokens, model.ledger.buffer),
                        rest,
                    );
                }
                lemma_then(
                    model,
                    after,
                    model.packed(rooms, decays, decayed, order).model,
                );
            },
        }
    } else {
        lemma_quietly(model, model);
    }
}

proof fn lemma_forced(
    model: Model,
    capacities: Capacities,
    decays: Map<Seq<char>, usize>,
    decayed: Map<WorkerWithDpRank, usize>,
    order: Seq<Rank>,
)
    ensures
        model.keeps_turns(model.forced(capacities, decays, decayed, order).0),
    decreases order.len(),
{
    if order.len() > 0 {
        let name = order[0].name;
        let rest = order.drop_first();
        let known = model.ledger.programs.contains_key(name);
        let target = forced_target(
            capacities,
            decayed,
            model.ledger.programs[name].assigned_worker,
        );
        if !known || (target is None && !capacities.has_live_worker()) {
            lemma_forced(model, capacities, decays, decayed, rest);
        } else {
            let (after, changed) = model.resumed(name, target);
            lemma_resumed(model, name, target);
            lemma_forced(
                after,
                capacities,
                decays,
                match target {
                    Some(worker) if changed && after.ledger.programs.contains_key(name) =>
                        decayed_more(
                        decayed,
                        worker,
                        decayed_tokens(decays, name, after.ledger.programs[name]),
                        model.ledger.buffer,
                    ),
                    _ => decayed,
                },
                rest,
            );
            lemma_then(
                model,
                after,
                model.forced(capacities, decays, decayed, order).0,
            );
        }
    } else {
        lemma_quietly(model, model);
    }
}

/// The admissions of the periodic step release the requests of a session in order.
pub proof fn lemma_admitting_keeps_turns(model: Model, capacities: Capacities, now: u64)
    ensures
        model.keeps_turns(model.before_resuming(capacities, now)),
{
    let cleared = model.before_admitting(capacities, now);
    lemma_quietly(model, cleared);
    lemma_all_admitted(cleared, cleared.candidates(), capacities, now);
    lemma_then(model, cleared, model.before_resuming(capacities, now));
}

/// The periodic step releases the requests of a session in order.
pub proof fn lemma_reconciling_keeps_turns(
    model: Model,
    capacities: Capacities,
    decays: Map<Seq<char>, usize>,
    now: u64,
)
    ensures
        model.keeps_turns(model.reconciled(capacities, decays, now).0),
{
    let admitted = model.before_resuming(capacities, now);
    lemma_admitting_keeps_turns(model, capacities, now);
    let decayed = admitted.ledger.decayed_usage(
        decays,
        Map::empty(),
        admitted.ledger.order_by(running()),
    );
    let rooms = admitted.ledger.rooms(capacities, capacities.cards.len());
    let chosen = admitted.ledger.resumable(rooms);
    let packing = admitted.programs_resumed(capacities, decays, decayed);
    lemma_packed(
        admitted,
        rooms,
        decays,
        decayed,
        admitted.ledger.order_by(largest_first(chosen)),
    );
    lemma_then(model, admitted, packing.model);
    let late = packing.model.ledger.order_by(
        timed_out(now, packing.model.config.resume_timeout),
    );
    let forced = packing.model.forced(capacities, decays, packing.decayed, late).0;
    lemma_forced(packing.model, capacities, decays, packing.decayed, late);
    lemma_then(model, packing.model, forced);
    let next = model.reconciled(capacities, decays, now).0;
    lemma_quietly(forced, next);
    lemma_then(model, forced, next);
}

/// Once a request stands in its session's queue, its arrival releases the requests of a session in
/// order.
pub proof fn lemma_registering_keeps_turns(
    model: Model,
    id: Seq<char>,
    session: Seq<char>,
    input_tokens: usize,
    session_final: bool,
    capacities: Capacities,
    now: u64,
)
    ensures
        model.enqueued(id, session, input_tokens, session_final).keeps_turns(
            model.registered(id, session, input_tokens, session_final, capacities, now),
        ),
{
    let found = model.programs_expired(now).0.room_made(session).removed_cleared(capacities).0;
    let queued = found.enqueued(id, session, input_tokens, session_final);
    let admitted = queued.admitted(id, capacities, now).0;
    let next = model.registered(id, session, input_tokens, session_final, capacities, now);
    lemma_admitted(queued, id, capacities, now);
    lemma_quietly(admitted, next);
    lemma_then(queued, admitted, next);
    let early = model.enqueued(id, session, input_tokens, session_final);
    lemma_quietly(early, queued);
    lemma_then(early, queued, next);
}

/// An arrival keeps the order, and waits behind all requests of its session that still wait. Its
/// id may not linger in the queue from a request that has ended.
pub proof fn lemma_arrival_waits_behind(
    model: Model,
    id: Seq<char>,
    session: Seq<char>,
    input_tokens: usize,
    session_final: bool,
    capacities: Capacities,
    now: u64,
)
    requires
        model.sound(),
        !model.requests.contains_key(id),
        model.sessions.contains_key(session) ==> !model.sessions[session].waiting.contains(id),
    ensures
        ({
            let next = model.registered(
                id,
                session,
                input_tokens,
                session_final,
                capacities,
                now,
            );
            &&& model.keeps_order(next)
            &&& forall|other: Seq<char>|
                model.is_waiting(other) && model.requests[other].session == session
                    && #[trigger] next.is_waiting(other) ==> next.waits_behind(other, id)
        }),
{
    let queued = model.enqueued(id, session, input_tokens, session_final);
    let next = model.registered(id, session, input_tokens, session_final, capacities, now);
    lemma_registering_keeps_turns(
        model,
        id,
        session,
        input_tokens,
        session_final,
        capacities,
        now,
    );
    assert forall|a: Seq<char>, b: Seq<char>| #[trigger]
        model.waits_behind(a, b) && next.is_waiting(a) && next.requests.contains_key(
            b,
        ) implies next.waits_behind(a, b) by {
        let before = model.sessions[model.requests[a].session].waiting;
        let after = queued.sessions[model.requests[a].session].waiting;
        let at = choose|at: int| first_until(before, at, a, b);
        assert(first_until(after, at, a, b)) by {
            assert forall|k: int| 0 <= k <= at implies #[trigger] after[k] != b by {
                assert(after[k] == before[k]);
            }
        }
        assert(queued.waits_behind(a, b));
    }
    assert forall|other: Seq<char>|
        model.is_waiting(other) && model.requests[other].session == session
            && #[trigger] next.is_waiting(other) implies next.waits_behind(other, id) by {
        let before = model.sessions[session].waiting;
        let after = queued.sessions[session].waiting;
        assert(before.contains(other));
        let at = choose|at: int| 0 <= at < before.len() && before[at] == other;
        assert(first_until(after, at, other, id)) by {
            assert forall|k: int| 0 <= k <= at implies #[trigger] after[k] != id by {
                assert(after[k] == before[k]);
                assert(before.contains(before[k]));
            }
        }
        assert(queued.waits_behind(other, id));
        lemma_tracked(model, id, session, input_tokens, session_final, capacities, now);
    }
}

/// A request that was taken up is tracked.
proof fn lemma_tracked(
    model: Model,
    id: Seq<char>,
    session: Seq<char>,
    input_tokens: usize,
    session_final: bool,
    capacities: Capacities,
    now: u64,
)
    ensures
        model.registered(
            id,
            session,
            input_tokens,
            session_final,
            capacities,
            now,
        ).requests.contains_key(id),
{
}

proof fn lemma_leading_dropped(
    queue: Seq<Seq<char>>,
    kept: Set<Seq<char>>,
    a: Seq<char>,
    b: Seq<char>,
)
    requires
        comes_first(queue, a, b),
        kept.contains(a),
    ensures
        comes_first(drop_leading(queue, kept), a, b),
    decreases queue.len(),
{
    if queue.len() > 0 && !kept.contains(queue[0]) {
        let rest = queue.drop_first();
        let at = choose|at: int| first_until(queue, at, a, b);
        assert(first_until(rest, at - 1, a, b)) by {
            assert forall|k: int| 0 <= k <= at - 1 implies #[trigger] rest[k] != b by {
                assert(rest[k] == queue[k + 1]);
            }
        }
        lemma_leading_dropped(rest, kept, a, b);
    }
}

proof fn lemma_only_kept(queue: Seq<Seq<char>>, kept: Set<Seq<char>>, a: Seq<char>, b: Seq<char>)
    requires
        comes_first(queue, a, b),
        kept.contains(a),
    ensures
        comes_first(only(queue, kept), a, b),
    decreases queue.len(),
{
    reveal(Seq::filter);
    let pred = |name: Seq<char>| kept.contains(name);
    let at = choose|at: int| first_until(queue, at, a, b);
    let rest = queue.drop_last();
    let left = rest.filter(pred);
    let filtered = queue.filter(pred);
    if at < rest.len() {
        assert(first_until(rest, at, a, b)) by {
            assert forall|k: int| 0 <= k <= at implies #[trigger] rest[k] != b by {
                assert(rest[k] == queue[k]);
            }
        }
        lemma_only_kept(rest, kept, a, b);
        let place = choose|place: int| first_until(left, place, a, b);
        assert(first_until(filtered, place, a, b)) by {
            assert forall|k: int| 0 <= k <= place implies #[trigger] filtered[k] != b by {
                assert(filtered[k] == left[k]);
            }
        }
    } else {
        assert(first_until(filtered, left.len() as int, a, b)) by {
            assert forall|k: int| 0 <= k <= left.len() implies #[trigger] filtered[k] != b by {
                if k < left.len() {
                    assert(left.contains(left[k]));
                    rest.lemma_filter_contains_rev(pred, left[k]);
                    let j = choose|j: int| 0 <= j < rest.len() && rest[j] == left[k];
                    assert(queue[j] != b);
                } else {
                    assert(queue[at] != b);
                }
            }
        }
    }
}

proof fn lemma_leading_dropped_within(queue: Seq<Seq<char>>, kept: Set<Seq<char>>, name: Seq<char>)
    requires
        drop_leading(queue, kept).contains(name),
    ensures
        queue.contains(name),
    decreases queue.len(),
{
    if queue.len() > 0 && !kept.contains(queue[0]) {
        let rest = queue.drop_first();
        lemma_leading_dropped_within(rest, kept, name);
        let at = choose|at: int| 0 <= at < rest.len() && rest[at] == name;
        assert(queue[at + 1] == name);
    }
}

proof fn lemma_dequeued(model: Model, id: Seq<char>)
    requires
        model.requests.contains_key(id),
    ensures
        model.keeps_turns(model.dequeued(id)),
{
    let next = model.dequeued(id);
    let left = Model { requests: model.requests.remove(id), ..model };
    let session = model.requests[id].session;
    assert(next.requests == left.requests);
    assert forall|a: Seq<char>, b: Seq<char>| #[trigger]
        model.waits_behind(a, b) && next.is_waiting(a) && next.requests.contains_key(
            b,
        ) implies next.waits_behind(a, b) by {
        assert(next.is_waiting(b));
        assert(left.is_waiting(a));
        assert(left.waiting().contains(a));
        if model.requests[a].session == session {
            let queue = model.sessions[session].waiting;
            let rest = drop_leading(queue, left.waiting());
            lemma_leading_dropped(queue, left.waiting(), a, b);
            lemma_only_kept(rest, left.waiting(), a, b);
        }
    }
    assert forall|name: Seq<char>, other: Seq<char>| #[trigger]
        next.queues(name, other) implies model.queues(name, other) by {
        if name == session && model.sessions.contains_key(session) {
            let queue = model.sessions[session].waiting;
            let kept = left.waiting();
            let rest = drop_leading(queue, kept);
            if only(rest, kept).contains(other) {
                rest.lemma_filter_contains_rev(|name: Seq<char>| kept.contains(name), other);
            }
            lemma_leading_dropped_within(queue, kept, other);
        }
    }
}

/// The end of a request keeps the order: the next one of its session is released.
pub proof fn lemma_finishing_keeps_turns(
    model: Model,
    id: Seq<char>,
    outcome: Outcome,
    capacities: Capacities,
    now: u64,
)
    ensures
        model.keeps_turns(model.finished(id, outcome, capacities, now).0),
{
    if model.requests.contains_key(id) {
        let request = model.requests[id];
        let shorter = model.dequeued(id);
        lemma_dequeued(model, id);
        let settled = shorter.settled(request, outcome, now);
        lemma_quietly(shorter, settled);
        lemma_then(model, shorter, settled);
        let admitted = settled.next_admitted(request.session, capacities, now);
        if let Some(first) = settled.pending(request.session) {
            lemma_admitted(settled, first, capacities, now);
        } else {
            lemma_quietly(settled, admitted);
        }
        lemma_then(model, settled, admitted);
        let closed = admitted.session_closed(request.session);
        assert(admitted.keeps_turns(closed)) by {
            assert forall|a: Seq<char>, b: Seq<char>| #[trigger]
                admitted.waits_behind(a, b) implies closed.waits_behind(a, b) by {
            }
        }
        lemma_then(model, admitted, closed);
        let next = model.finished(id, outcome, capacities, now).0;
        lemma_quietly(closed, next);
        lemma_then(model, closed, next);
    } else {
        lemma_quietly(model, model);
    }
}

/// Sending a request keeps the order.
pub proof fn lemma_sending_keeps_turns(
    model: Model,
    id: Seq<char>,
    worker: WorkerWithDpRank,
    now: u64,
)
    ensures
        model.keeps_turns(model.sent(id, worker, now).0),
{
    lemma_quietly(model, model.sent(id, worker, now).0);
}

} // verus!
