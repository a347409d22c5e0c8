//! Retention of idle programs: each one leaves the table in time.
use vstd::prelude::*;

use crate::ranking::{lemma_first_exists, lemma_first_rank, lemma_ranks_finite, Rank};
use crate::thunderagent::capacity::{Capacities, CapacityCard};
use crate::thunderagent::config::ThunderAgentConfig;
use crate::thunderagent::ledger::Ledger;
use crate::thunderagent::model::{expired, idle_since, retained, Model, Outcome};
use crate::thunderagent::order::{has_key, lemma_order, rank_by};
use crate::thunderagent::placement::{
    best_room, decayed_more, decayed_tokens, forced_target, largest_first, running, timed_out, Room,
};
use crate::thunderagent::program::{Program, ProgramLifecycle, ProgramStatus};
use crate::thunderagent::relief::{on_removed_worker, on_worker};
use crate::thunderagent::soundness::lemma_timed_is_sound;
use crate::worker::WorkerWithDpRank;

verus! {

/// Whether a program has the same retention as another.
pub open spec fn same_rest(a: Program, b: Program) -> bool {
    a.status == b.status && a.acting_since == b.acting_since
}

impl Model {
    /// Since when a session without requests has been between turns.
    pub open spec fn resting_since(self, name: Seq<char>) -> Option<u64> {
        if !self.ledger.programs.contains_key(name) || self.sessions.contains_key(name)
            || self.ledger.programs[name].status != ProgramStatus::Acting {
            None
        } else {
            self.ledger.programs[name].acting_since
        }
    }

    /// Whether the end of a session's retention is watched for.
    pub open spec fn is_watched(self, name: Seq<char>) -> bool {
        self.resting_since(name) matches Some(since) ==> self.next_retention_expiry matches Some(at)
            && at <= since + self.config.session_retention
    }

    /// Whether the end of every idle program's retention is watched for.
    pub open spec fn watched(self) -> bool {
        forall|name: Seq<char>| #[trigger] self.is_watched(name)
    }
}

/// Programs stay as they are as far as retention goes, or leave.
spec fn rest_kept(ledger: Ledger, next: Ledger) -> bool {
    forall|name: Seq<char>| #[trigger]
        next.programs.contains_key(name) ==> ledger.programs.contains_key(name) && same_rest(
            ledger.programs[name],
            next.programs[name],
        )
}

/// No program comes to rest.
spec fn quiet(model: Model, next: Model) -> bool {
    &&& next.config == model.config
    &&& next.next_retention_expiry == model.next_retention_expiry
    &&& forall|name: Seq<char>| #[trigger]
        next.ledger.programs.contains_key(name) && !next.sessions.contains_key(name)
            ==> !model.sessions.contains_key(name) && model.ledger.programs.contains_key(name)
            && same_rest(model.ledger.programs[name], next.ledger.programs[name])
}

proof fn lemma_quiet(model: Model, next: Model)
    requires
        model.watched(),
        quiet(model, next),
    ensures
        next.watched(),
{
    assert forall|name: Seq<char>| #[trigger] next.is_watched(name) by {
        assert(model.is_watched(name));
    }
}

proof fn lemma_quiet_then(a: Model, b: Model, c: Model)
    requires
        quiet(a, b),
        quiet(b, c),
    ensures
        quiet(a, c),
{
    assert forall|name: Seq<char>| #[trigger]
        c.ledger.programs.contains_key(name) && !c.sessions.contains_key(
            name,
        ) implies !a.sessions.contains_key(name) && a.ledger.programs.contains_key(name)
        && same_rest(a.ledger.programs[name], c.ledger.programs[name]) by {
        assert(b.ledger.programs.contains_key(name));
    }
}

proof fn lemma_rest_then(a: Ledger, b: Ledger, c: Ledger)
    requires
        rest_kept(a, b),
        rest_kept(b, c),
    ensures
        rest_kept(a, c),
{
    assert forall|name: Seq<char>| #[trigger] c.programs.contains_key(name) implies a.programs.contains_key(
        name,
    ) && same_rest(a.programs[name], c.programs[name]) by {
        assert(b.programs.contains_key(name));
    }
}

proof fn lemma_unassigned_rest(ledger: Ledger, order: Seq<Rank>)
    ensures
        rest_kept(ledger, ledger.unassigned(order)),
    decreases order.len(),
{
    if order.len() > 0 {
        let here = ledger.assigned(order[0].name, None);
        lemma_unassigned_rest(here, order.drop_first());
        lemma_rest_then(ledger, here, here.unassigned(order.drop_first()));
    }
}

proof fn lemma_drained_rest(ledger: Ledger, worker: WorkerWithDpRank, goal: usize, order: Seq<Rank>)
    ensures
        rest_kept(ledger, ledger.drained(worker, goal, order).0),
    decreases order.len(),
{
    if order.len() > 0 {
        let here = ledger.with_paused(order[0].name);
        lemma_drained_rest(here, worker, goal, order.drop_first());
        lemma_rest_then(ledger, here, here.drained(worker, goal, order.drop_first()).0);
    }
}

proof fn lemma_marked_rest(ledger: Ledger, order: Seq<Rank>)
    ensures
        rest_kept(ledger, ledger.marked(order).0),
    decreases order.len(),
{
    if order.len() > 0 {
        let here = ledger.with_mark(order[0].name);
        lemma_marked_rest(here, order.drop_first());
        lemma_rest_then(ledger, here, here.marked(order.drop_first()).0);
    }
}

proof fn lemma_relieved_rest(ledger: Ledger, cards: Seq<CapacityCard>)
    ensures
        rest_kept(ledger, ledger.all_relieved(cards).0),
    decreases cards.len(),
{
    if cards.len() > 0 {
        let card = cards[0];
        let acting = ledger.order_by(on_worker(card.worker, ProgramStatus::Acting));
        let reasoning = ledger.order_by(on_worker(card.worker, ProgramStatus::Reasoning));
        let drained = ledger.drained(card.worker, card.pause_goal, acting).0;
        lemma_drained_rest(ledger, card.worker, card.pause_goal, acting);
        lemma_marked_rest(drained, reasoning);
        lemma_rest_then(ledger, drained, drained.marked(reasoning).0);
        let here = ledger.relieved(card).0;
        lemma_relieved_rest(here, cards.drop_first());
        lemma_rest_then(ledger, here, here.all_relieved(cards.drop_first()).0);
    }
}

proof fn lemma_without_all_rest(ledger: Ledger, order: Seq<Rank>)
    ensures
        rest_kept(ledger, ledger.without_all(order)),
        forall|name: Seq<char>|
            ledger.without_all(order).programs.contains_key(name) ==> forall|at: int|
                0 <= at < order.len() ==> (#[trigger] order[at]).name != name,
    decreases order.len(),
{
    if order.len() > 0 {
        let here = ledger.without(order[0].name);
        let rest = order.drop_first();
        lemma_without_all_rest(here, rest);
        lemma_rest_then(ledger, here, here.without_all(rest));
        assert forall|name: Seq<char>|
            ledger.without_all(order).programs.contains_key(name) implies forall|at: int|
            0 <= at < order.len() ==> (#[trigger] order[at]).name != name by {
            assert forall|at: int| 0 <= at < order.len() implies (#[trigger] order[at]).name
                != name by {
                if at > 0 {
                    assert(rest[at - 1].name != name);
                } else {
                    assert(here.programs.contains_key(name));
                }
            }
        }
    }
}

/// An idle program whose retention has ended is gone after the next classification or periodic
/// step.
pub proof fn lemma_expired_programs_are_gone(model: Model, name: Seq<char>, since: u64, now: u64)
    requires
        model.sound(),
        model.watched(),
        model.resting_since(name) == Some(since),
        now >= since + model.config.session_retention,
    ensures
        !model.programs_expired(now).0.ledger.programs.contains_key(name),
{
    assert(model.is_watched(name));
    let keys = expired(model.sessions, now, model.config.session_retention);
    let gone = model.ledger.order_by(keys);
    lemma_order(model.ledger, keys);
    lemma_without_all_rest(model.ledger, gone);
    assert(has_key(model.ledger, keys, name));
    let at = choose|at: int| 0 <= at < gone.len() && (#[trigger] gone[at]).name == name;
    assert(gone[at].name == name);
}

/// A program that is not idle, or whose retention has not ended, stays.
pub proof fn lemma_retained_programs_stay(model: Model, name: Seq<char>, now: u64)
    requires
        model.sound(),
        model.ledger.programs.contains_key(name),
        idle_since(model.sessions, name, model.ledger.programs[name]) matches Some(since) ==> now
            < since + model.config.session_retention,
    ensures
        model.programs_expired(now).0.ledger.programs.contains_key(name),
{
    let keys = expired(model.sessions, now, model.config.session_retention);
    let gone = model.ledger.order_by(keys);
    lemma_order(model.ledger, keys);
    lemma_kept(model.ledger, gone, name);
}

proof fn lemma_kept(ledger: Ledger, order: Seq<Rank>, name: Seq<char>)
    requires
        ledger.programs.contains_key(name),
        forall|at: int| 0 <= at < order.len() ==> (#[trigger] order[at]).name != name,
    ensures
        ledger.without_all(order).programs.contains_key(name),
    decreases order.len(),
{
    if order.len() > 0 {
        let rest = order.drop_first();
        assert(order[0].name != name);
        assert forall|at: int| 0 <= at < rest.len() implies (#[trigger] rest[at]).name != name by {
            assert(rest[at] == order[at + 1]);
        }
        lemma_kept(ledger.without(order[0].name), rest, name);
    }
}

proof fn lemma_expired_watched(model: Model, now: u64)
    requires
        model.sound(),
        model.watched(),
    ensures
        model.programs_expired(now).0.watched(),
{
    let next = model.programs_expired(now).0;
    let retention = model.config.session_retention;
    let due = model.next_retention_expiry matches Some(at) && now >= at;
    if due {
        let gone_keys = expired(model.sessions, now, retention);
        let gone = model.ledger.order_by(gone_keys);
        let keys = retained(model.sessions, now, retention);
        let set = model.ledger.ranks_by(keys);
        lemma_order(model.ledger, gone_keys);
        lemma_without_all_rest(model.ledger, gone);
        lemma_ranks_finite(model.ledger.programs.dom(), rank_by(model.ledger.programs, keys));
        assert forall|name: Seq<char>| #[trigger] next.is_watched(name) by {
            if let Some(since) = next.resting_since(name) {
                assert(next.ledger.programs.contains_key(name));
                assert(model.ledger.programs.contains_key(name));
                if now >= since + retention {
                    assert(has_key(model.ledger, gone_keys, name));
                    let at = choose|at: int|
                        0 <= at < gone.len() && (#[trigger] gone[at]).name == name;
                    assert(gone[at].name == name);
                }
                let rank = Rank { major: since, minor: 0, place: 0, name };
                assert(set.contains(rank));
                assert(set.len() > 0) by {
                    if set.len() == 0 {
                        assert(set =~= Set::empty());
                    }
                }
                let first = lemma_first_exists(set);
                lemma_first_rank(first, set);
                assert(first == rank || first.is_before(rank));
                assert(model.ledger.first_by(keys) == Some(first));
            }
        }
    }
}

proof fn lemma_room_made_quiet(model: Model, session: Seq<char>)
    ensures
        quiet(model, model.room_made(session)),
{
}

proof fn lemma_removed_cleared_quiet(model: Model, capacities: Capacities)
    ensures
        quiet(model, model.removed_cleared(capacities).0),
{
    let gone = model.ledger.order_by(on_removed_worker(capacities));
    lemma_unassigned_rest(model.ledger, gone);
    assert(rest_kept(model.ledger, model.ledger.unassigned(gone)));
}

proof fn lemma_deferred_quiet(model: Model, session: Seq<char>, now: u64, keep: bool)
    ensures
        quiet(model, model.deferred(session, now, keep).0),
{
}

proof fn lemma_released_quiet(model: Model, id: Seq<char>, worker: Option<WorkerWithDpRank>)
    ensures
        quiet(model, model.released(id, worker).0),
{
    if model.can_release(id) {
        let moved = model.let_go(id, worker);
        assert(quiet(model, moved));
        lemma_quiet_then(model, moved, moved.timer_passed(id).woken(id));
    }
}

proof fn lemma_admitted_quiet(model: Model, id: Seq<char>, capacities: Capacities, now: u64)
    ensures
        quiet(model, model.admitted(id, capacities, now).0),
{
    if model.is_next(id) && model.can_begin(id) {
        let begun = model.begun(id);
        let request = begun.requests[id];
        let session = request.session;
        lemma_room_made_quiet(model, session);
        assert(quiet(model, begun));
        if begun.ledger.programs.contains_key(session) {
            let program = begun.ledger.programs[session];
            let stranded = program.assigned_worker is Some;
            let free = begun.with_ledger(
                if stranded {
                    begun.ledger.assigned(session, None)
                } else {
                    begun.ledger
                },
            );
            let required = request.input_tokens.saturating_add(begun.config.buffer_per_program);
            let choice = free.ledger.admission_worker(capacities, required);
            lemma_deferred_quiet(begun, session, now, stranded);
            lemma_released_quiet(begun, id, None);
            lemma_released_quiet(begun, id, program.assigned_worker);
            lemma_deferred_quiet(free, session, now, false);
            lemma_released_quiet(free, id, choice);
            lemma_quiet_then(begun, free, free.deferred(session, now, false).0);
            lemma_quiet_then(begun, free, free.released(id, choice).0);
        }
        lemma_quiet_then(model, begun, begun.decided(id, capacities, now).0);
    }
}

proof fn lemma_all_admitted_quiet(
    model: Model,
    ids: Seq<Seq<char>>,
    capacities: Capacities,
    now: u64,
)
    ensures
        quiet(model, model.all_admitted(ids, capacities, now).0),
    decreases ids.len(),
{
    if ids.len() > 0 {
        let here = model.admitted(ids[0], capacities, now).0;
        lemma_admitted_quiet(model, ids[0], capacities, now);
        lemma_all_admitted_quiet(here, ids.drop_first(), capacities, now);
        lemma_quiet_then(model, here, here.all_admitted(ids.drop_first(), capacities, now).0);
    }
}

proof fn lemma_resumed_quiet(model: Model, session: Seq<char>, worker: Option<WorkerWithDpRank>)
    ensures
        quiet(model, model.resumed(session, worker).0),
{
    if model.ledger.programs.contains_key(session) {
        let program = Program {
            lifecycle: ProgramLifecycle::Active,
            deferred_since: None,
            assigned_worker: worker,
            ..model.ledger.programs[session]
        };
        let running = model.with_ledger(model.ledger.with(session, program));
        assert(quiet(model, running));
        if let Some(id) = model.pending(session) {
            lemma_released_quiet(running, id, worker);
            lemma_quiet_then(model, running, running.released(id, worker).0);
        }
    }
}

proof fn lemma_packed_quiet(
    model: Model,
    rooms: Seq<Room>,
    decays: Map<Seq<char>, usize>,
    decayed: Map<WorkerWithDpRank, usize>,
    order: Seq<Rank>,
)
    ensures
        quiet(model, model.packed(rooms, decays, decayed, order).model),
    decreases order.len(),
{
    if order.len() > 0 {
        let name = order[0].name;
        let rest = order.drop_first();
        let seat = if model.ledger.programs.contains_key(name) {
            best_room(
                rooms,
                model.ledger.required(name),
                model.ledger.programs[name].assigned_worker,
            )
        } else {
            None
        };
        match seat {
            None => lemma_packed_quiet(model, rooms, decays, decayed, rest),
            Some(at) => {
                let room = rooms[at];
                let after = model.resumed(name, Some(room.worker)).0;
                let left = (room.available - model.ledger.required(name)) as usize;
                let smaller = rooms.update(at, Room { available: left, ..room });
                let tokens = decayed_tokens(decays, name, after.ledger.programs[name]);
                let counted = decayed_more(decayed, room.worker, tokens, model.ledger.buffer);
                lemma_resumed_quiet(model, name, Some(room.worker));
                lemma_packed_quiet(after, rooms, decays, decayed, rest);
                lemma_packed_quiet(after, smaller, decays, counted, rest);
                lemma_quiet_then(model, after, after.packed(rooms, decays, decayed, rest).model);
                lemma_quiet_then(model, after, after.packed(smaller, decays, counted, rest).model);
            },
        }
    }
}

proof fn lemma_forced_quiet(
    model: Model,
    capacities: Capacities,
    decays: Map<Seq<char>, usize>,
    decayed: Map<WorkerWithDpRank, usize>,
    order: Seq<Rank>,
)
    ensures
        quiet(model, model.forced(capacities, decays, decayed, order).0),
    decreases order.len(),
{
    if order.len() > 0 {
        let name = order[0].name;
        let rest = order.drop_first();
        let target = forced_target(
            capacities,
            decayed,
            model.ledger.programs[name].assigned_worker,
        );
        let (after, changed) = model.resumed(name, target);
        let counted = match target {
            Some(worker) if changed && after.ledger.programs.contains_key(name) => decayed_more(
                decayed,
                worker,
                decayed_tokens(decays, name, after.ledger.programs[name]),
                model.ledger.buffer,
            ),
            _ => decayed,
        };
        lemma_forced_quiet(model, capacities, decays, decayed, rest);
        lemma_resumed_quiet(model, name, target);
        lemma_forced_quiet(after, capacities, decays, counted, rest);
        lemma_quiet_then(model, after, after.forced(capacities, decays, counted, rest).0);
    }
}

/// A new state watches for every retention's end.
pub proof fn lemma_fresh_is_watched(config: ThunderAgentConfig, now: u64)
    ensures
        Model::fresh(config, now).watched(),
{
}

/// Taking up a request keeps watch.
pub proof fn lemma_registered_is_watched(
    model: Model,
    id: Seq<char>,
    session: Seq<char>,
    input_tokens: usize,
    session_final: bool,
    capacities: Capacities,
    now: u64,
)
    requires
        model.sound(),
        model.watched(),
    ensures
        model.programs_expired(now).0.watched(),
        model.registered(id, session, input_tokens, session_final, capacities, now).watched(),
{
    let kept = model.programs_expired(now).0;
    lemma_expired_watched(model, now);
    let roomy = kept.room_made(session);
    lemma_room_made_quiet(kept, session);
    let cleared = roomy.removed_cleared(capacities).0;
    lemma_removed_cleared_quiet(roomy, capacities);
    let queued = cleared.enqueued(id, session, input_tokens, session_final);
    assert(quiet(cleared, queued));
    let admitted = queued.admitted(id, capacities, now).0;
    lemma_admitted_quiet(queued, id, capacities, now);
    lemma_quiet(kept, roomy);
    lemma_quiet(roomy, cleared);
    lemma_quiet(cleared, queued);
    lemma_quiet(queued, admitted);
    lemma_quiet(admitted, admitted.arrivals_compacted());
}

/// The periodic step keeps watch.
pub proof fn lemma_reconciled_is_watched(
    model: Model,
    capacities: Capacities,
    decays: Map<Seq<char>, usize>,
    now: u64,
)
    requires
        model.sound(),
        model.watched(),
    ensures
        model.reconciled(capacities, decays, now).0.watched(),
{
    let timed = Model {
        next_reconcile_at: (now + model.config.scheduler_interval) as u128,
        ..model
    };
    lemma_quiet(model, timed);
    assert(timed.sound()) by {
        lemma_timed_is_sound(model, timed);
    }
    let kept = timed.programs_expired(now).0;
    lemma_expired_watched(timed, now);
    let cleared = kept.removed_cleared(capacities).0;
    lemma_removed_cleared_quiet(kept, capacities);
    lemma_quiet(kept, cleared);
    let admitted = cleared.all_admitted(cleared.candidates(), capacities, now).0;
    lemma_all_admitted_quiet(cleared, cleared.candidates(), capacities, now);
    lemma_quiet(cleared, admitted);
    let decayed = admitted.ledger.decayed_usage(
        decays,
        Map::empty(),
        admitted.ledger.order_by(running()),
    );
    let rooms = admitted.ledger.rooms(capacities, capacities.cards.len());
    let chosen = admitted.ledger.resumable(rooms);
    let packing = admitted.programs_resumed(capacities, decays, decayed);
    lemma_packed_quiet(
        admitted,
        rooms,
        decays,
        decayed,
        admitted.ledger.order_by(largest_first(chosen)),
    );
    lemma_quiet(admitted, packing.model);
    let late = packing.model.ledger.order_by(
        timed_out(now, packing.model.config.resume_timeout),
    );
    let forced = packing.model.forced(capacities, decays, packing.decayed, late).0;
    lemma_forced_quiet(packing.model, capacities, decays, packing.decayed, late);
    lemma_quiet(packing.model, forced);
    let relieved = forced.with_ledger(forced.ledger.all_relieved(capacities.cards).0);
    lemma_relieved_rest(forced.ledger, capacities.cards);
    assert(quiet(forced, relieved));
    lemma_quiet(forced, relieved);
    lemma_quiet(relieved, relieved.arrivals_compacted());
}

/// The end of a request keeps watch.
pub proof fn lemma_finished_is_watched(
    model: Model,
    id: Seq<char>,
    outcome: Outcome,
    capacities: Capacities,
    now: u64,
)
    requires
        model.sound(),
        model.watched(),
    ensures
        model.finished(id, outcome, capacities, now).0.watched(),
{
    if model.requests.contains_key(id) {
        let request = model.requests[id];
        let session = request.session;
        let shorter = model.dequeued(id);
        assert(model.sessions.contains_key(session));
        assert(quiet(model, shorter));
        let settled = shorter.settled(request, outcome, now);
        assert(quiet(shorter, settled));
        let admitted = settled.next_admitted(session, capacities, now);
        if let Some(next) = settled.pending(session) {
            lemma_admitted_quiet(settled, next, capacities, now);
        }
        lemma_quiet(model, shorter);
        lemma_quiet(shorter, settled);
        lemma_quiet(settled, admitted);
        let closed = admitted.session_closed(session);
        let scheduled = closed.retention_scheduled(session);
        assert forall|name: Seq<char>| #[trigger] scheduled.is_watched(name) by {
            assert(admitted.is_watched(name));
        }
        let asked = scheduled.reconcile_requested(now);
        lemma_quiet(scheduled, asked);
        lemma_quiet(asked, asked.arrivals_compacted().woken(id));
    }
}

/// Waking a waiter keeps watch.
pub proof fn lemma_woken_is_watched(model: Model, next: Model)
    requires
        model.watched(),
        next == (Model { wakeups: next.wakeups, ..model }),
    ensures
        next.watched(),
{
    lemma_quiet(model, next);
}

/// A release keeps watch.
pub proof fn lemma_released_is_watched(
    model: Model,
    id: Seq<char>,
    worker: Option<WorkerWithDpRank>,
)
    requires
        model.watched(),
    ensures
        model.released(id, worker).0.watched(),
{
    lemma_released_quiet(model, id, worker);
    lemma_quiet(model, model.released(id, worker).0);
}

/// Learning where a request was sent keeps watch.
pub proof fn lemma_sent_is_watched(model: Model, id: Seq<char>, worker: WorkerWithDpRank, now: u64)
    requires
        model.watched(),
    ensures
        model.sent(id, worker, now).0.watched(),
{
    assert(quiet(model, model.sent(id, worker, now).0));
    lemma_quiet(model, model.sent(id, worker, now).0);
}

} // verus!
