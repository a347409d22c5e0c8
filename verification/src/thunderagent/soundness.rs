//! What holds of the scheduler's state at all times.
use vstd::prelude::*;

use crate::names::lemma_filter_head;
use crate::ranking::Rank;
use crate::thunderagent::capacity::{Capacities, CapacityCard};
use crate::thunderagent::config::ThunderAgentConfig;
use crate::thunderagent::ledger::Ledger;
use crate::thunderagent::model::{
    drop_leading, evictable, expired, only, Model, Outcome, Request, RequestPhase, Session,
};
use crate::thunderagent::order::{has_key, lemma_first, lemma_order};
use crate::thunderagent::placement::{
    best_room, decayed_more, decayed_tokens, forced_target, largest_first, running, timed_out, Room,
};
use crate::thunderagent::program::{Program, ProgramLifecycle, ProgramStatus};
use crate::thunderagent::relief::{on_removed_worker, on_worker};
use crate::worker::WorkerWithDpRank;

verus! {

impl Model {
    /// Every tracked request is its session's released one, or waits in its session's queue.
    pub open spec fn requests_placed(self) -> bool {
        forall|id: Seq<char>| #[trigger]
            self.requests.contains_key(id) ==> {
                let request = self.requests[id];
                &&& self.sessions.contains_key(request.session)
                &&& if request.phase == RequestPhase::Released {
                    self.sessions[request.session].current == Some(id)
                } else {
                    self.sessions[request.session].waiting.contains(id)
                }
            }
    }

    /// A session's released request is tracked as such.
    pub open spec fn currents_tracked(self) -> bool {
        forall|session: Seq<char>| #[trigger]
            self.sessions.contains_key(session) ==> (
            self.sessions[session].current matches Some(id) ==> self.requests.contains_key(id)
                && self.requests[id].session == session && self.requests[id].phase
                == RequestPhase::Released)
    }

    /// A request whose turn has begun is released or the next one of its session.
    pub open spec fn begun_in_front(self) -> bool {
        forall|id: Seq<char>| #[trigger]
            self.requests.contains_key(id) ==> {
                let request = self.requests[id];
                &&& request.phase == RequestPhase::Released ==> request.began
                &&& request.began && request.phase == RequestPhase::Waiting
                    ==> self.front_and_idle(id, request.session)
            }
    }

    /// A request whose turn has begun has its program in the table, unless it is final and
    /// released.
    pub open spec fn begun_has_program(self) -> bool {
        forall|id: Seq<char>| #[trigger]
            self.requests.contains_key(id) ==> {
                let request = self.requests[id];
                request.began && !Model::took_program(request)
                    ==> self.ledger.programs.contains_key(request.session)
            }
    }

    /// A program that a released request of a final session took along is not in the table.
    pub open spec fn taken_stays_out(self) -> bool {
        forall|id: Seq<char>| #[trigger]
            self.requests.contains_key(id) && Model::took_program(self.requests[id])
                ==> !self.ledger.programs.contains_key(self.requests[id].session)
    }

    /// No more requests and no more programs are tracked than the configured limit.
    pub open spec fn bounded(self) -> bool {
        &&& self.requests.dom().finite()
        &&& self.ledger.programs.dom().finite()
        &&& self.requests.len() <= self.config.max_tracked_requests
        &&& self.ledger.programs.len() <= self.config.max_tracked_requests
    }

    /// Every waiting request is in the arrival order.
    pub open spec fn waiting_arrived(self) -> bool {
        forall|id: Seq<char>| #[trigger] self.is_waiting(id) ==> self.arrivals.contains(id)
    }

    /// A waiting request keeps the timer exactly while some request waits.
    pub open spec fn timer_kept(self) -> bool {
        match self.timer_owner {
            Some(owner) => self.is_waiting(owner),
            None => forall|id: Seq<char>| !#[trigger] self.is_waiting(id),
        }
    }

    /// The state is consistent.
    pub open spec fn sound(self) -> bool {
        &&& self.requests_placed()
        &&& self.currents_tracked()
        &&& self.begun_in_front()
        &&& self.begun_has_program()
        &&& self.taken_stays_out()
        &&& self.bounded()
        &&& self.waiting_arrived()
        &&& self.timer_kept()
    }

    /// Two states agree on requests, sessions and the timer.
    pub open spec fn same_requests(self, other: Model) -> bool {
        &&& self.config == other.config
        &&& self.requests == other.requests
        &&& self.sessions == other.sessions
        &&& self.arrivals == other.arrivals
        &&& self.timer_owner == other.timer_owner
    }
}

/// Only the requests of one session that has begun its turn can have begun.
pub proof fn lemma_one_begun(model: Model, a: Seq<char>, b: Seq<char>)
    requires
        model.sound(),
        model.requests.contains_key(a),
        model.requests.contains_key(b),
        model.requests[a].began,
        model.requests[b].began,
        model.requests[a].session == model.requests[b].session,
    ensures
        a == b,
{
}

/// Requests stay as they are, every program that a begun request needs is still there, and no
/// program is new.
proof fn lemma_other_ledger(model: Model, next: Model)
    requires
        model.sound(),
        next.same_requests(model),
        forall|name: Seq<char>| #[trigger]
            next.ledger.programs.contains_key(name) ==> model.ledger.programs.contains_key(name),
        next.ledger.programs.dom().finite(),
        next.ledger.programs.len() <= model.config.max_tracked_requests,
        forall|name: Seq<char>|
            model.ledger.programs.contains_key(name) && model.sessions.contains_key(name)
                && !model.sessions[name].is_empty() ==> #[trigger] next.ledger.programs.contains_key(
                name,
            ),
    ensures
        next.sound(),
{
    assert forall|id: Seq<char>| #[trigger] next.requests.contains_key(id) implies {
        let request = next.requests[id];
        request.began && !Model::took_program(request) ==> next.ledger.programs.contains_key(
            request.session,
        )
    } by {
        let request = model.requests[id];
        assert(!model.sessions[request.session].is_empty());
    }
    assert forall|id: Seq<char>| #[trigger] next.is_waiting(id) implies next.arrivals.contains(
        id,
    ) by {
        assert(model.is_waiting(id));
    }
    if next.timer_owner is None {
        assert forall|id: Seq<char>| !#[trigger] next.is_waiting(id) by {
            assert(!model.is_waiting(id));
        }
    }
}

/// Setting a program that is in the table keeps the table's size.
proof fn lemma_with(ledger: Ledger, name: Seq<char>, program: Program)
    requires
        ledger.programs.dom().finite(),
    ensures
        ledger.with(name, program).programs.dom() =~= ledger.programs.dom().insert(name),
        ledger.with(name, program).programs.dom().finite(),
        ledger.programs.contains_key(name) ==> ledger.with(name, program).programs.dom()
            == ledger.programs.dom(),
        ledger.with(name, program).programs.len() == ledger.programs.len() + (
        if ledger.programs.contains_key(name) {
            0int
        } else {
            1int
        }),
{
    let next = ledger.with(name, program).programs;
    assert(next.dom() =~= ledger.programs.dom().insert(name));
    if ledger.programs.contains_key(name) {
        assert(next.dom() =~= ledger.programs.dom());
    }
}

proof fn lemma_without(ledger: Ledger, name: Seq<char>)
    requires
        ledger.programs.dom().finite(),
    ensures
        ledger.without(name).programs.dom() =~= ledger.programs.dom().remove(name),
        ledger.without(name).programs.dom().finite(),
        ledger.without(name).programs.len() <= ledger.programs.len(),
        ledger.programs.contains_key(name) ==> ledger.without(name).programs.len() + 1
            == ledger.programs.len(),
{
    let next = ledger.without(name).programs;
    assert(next.dom() =~= ledger.programs.dom().remove(name));
}

proof fn lemma_without_all(ledger: Ledger, order: Seq<Rank>)
    requires
        ledger.programs.dom().finite(),
    ensures
        ledger.without_all(order).programs.dom().finite(),
        ledger.without_all(order).programs.len() <= ledger.programs.len(),
        forall|name: Seq<char>| #[trigger]
            ledger.without_all(order).programs.contains_key(name)
                <==> ledger.programs.contains_key(name) && (forall|at: int|
                0 <= at < order.len() ==> (#[trigger] order[at]).name != name),
    decreases order.len(),
{
    if order.len() > 0 {
        let here = ledger.without(order[0].name);
        let rest = order.drop_first();
        lemma_without(ledger, order[0].name);
        lemma_without_all(here, rest);
        assert forall|name: Seq<char>| #[trigger]
            ledger.without_all(order).programs.contains_key(name)
                <==> ledger.programs.contains_key(name) && (forall|at: int|
                0 <= at < order.len() ==> (#[trigger] order[at]).name != name) by {
            assert(here.without_all(rest).programs.contains_key(name)
                <==> here.programs.contains_key(name) && (forall|at: int|
                0 <= at < rest.len() ==> (#[trigger] rest[at]).name != name));
            if forall|at: int| 0 <= at < order.len() ==> (#[trigger] order[at]).name != name {
                assert forall|at: int| 0 <= at < rest.len() implies (#[trigger] rest[at]).name
                    != name by {
                    assert(rest[at] == order[at + 1]);
                }
                assert(order[0].name != name);
            } else if forall|at: int| 0 <= at < rest.len() ==> (#[trigger] rest[at]).name != name {
                let at = choose|at: int|
                    0 <= at < order.len() && (#[trigger] order[at]).name == name;
                if at > 0 {
                    assert(rest[at - 1].name == name);
                }
            }
        }
    }
}

proof fn lemma_unassigned(ledger: Ledger, order: Seq<Rank>)
    requires
        ledger.programs.dom().finite(),
    ensures
        ledger.unassigned(order).programs.dom() == ledger.programs.dom(),
    decreases order.len(),
{
    if order.len() > 0 {
        let name = order[0].name;
        if ledger.programs.contains_key(name) {
            lemma_with(
                ledger,
                name,
                Program { assigned_worker: None, ..ledger.programs[name] },
            );
        }
        lemma_unassigned(ledger.assigned(name, None), order.drop_first());
    }
}

proof fn lemma_drained(ledger: Ledger, worker: WorkerWithDpRank, goal: usize, order: Seq<Rank>)
    requires
        ledger.programs.dom().finite(),
    ensures
        ledger.drained(worker, goal, order).0.programs.dom() == ledger.programs.dom(),
    decreases order.len(),
{
    reveal_with_fuel(Ledger::drained, 2);
    if order.len() > 0 {
        let name = order[0].name;
        assert(ledger.with_paused(name).programs.dom() =~= ledger.programs.dom());
        lemma_drained(ledger.with_paused(name), worker, goal, order.drop_first());
    }
}

proof fn lemma_marked(ledger: Ledger, order: Seq<Rank>)
    requires
        ledger.programs.dom().finite(),
    ensures
        ledger.marked(order).0.programs.dom() == ledger.programs.dom(),
    decreases order.len(),
{
    if order.len() > 0 {
        let name = order[0].name;
        assert(ledger.with_mark(name).programs.dom() =~= ledger.programs.dom());
        lemma_marked(ledger.with_mark(name), order.drop_first());
    }
}

proof fn lemma_all_relieved(ledger: Ledger, cards: Seq<CapacityCard>)
    requires
        ledger.programs.dom().finite(),
    ensures
        ledger.all_relieved(cards).0.programs.dom() == ledger.programs.dom(),
    decreases cards.len(),
{
    if cards.len() > 0 {
        let card = cards[0];
        let acting = ledger.order_by(
            on_worker(card.worker, ProgramStatus::Acting),
        );
        let reasoning = ledger.order_by(
            on_worker(card.worker, ProgramStatus::Reasoning),
        );
        lemma_drained(ledger, card.worker, card.pause_goal, acting);
        lemma_marked(ledger.drained(card.worker, card.pause_goal, acting).0, reasoning);
        lemma_all_relieved(ledger.relieved(card).0, cards.drop_first());
    }
}

/// The end of retention keeps the state consistent.
pub proof fn lemma_expired(model: Model, now: u64)
    requires
        model.sound(),
    ensures
        model.programs_expired(now).0.sound(),
        model.programs_expired(now).0.same_requests(model),
{
    let next = model.programs_expired(now).0;
    let retention = model.config.session_retention;
    let keys = expired(model.sessions, now, retention);
    let gone = model.ledger.order_by(keys);
    lemma_order(model.ledger, keys);
    lemma_without_all(model.ledger, gone);
    assert forall|name: Seq<char>|
        model.ledger.programs.contains_key(name) && model.sessions.contains_key(name)
            && !model.sessions[name].is_empty() implies #[trigger] model.ledger.without_all(
        gone,
    ).programs.contains_key(name) by {
        assert forall|at: int| 0 <= at < gone.len() implies (#[trigger] gone[at]).name != name by {
            assert(has_key(model.ledger, keys, gone[at].name));
        }
    }
    lemma_other_ledger(model, next);
}

proof fn lemma_room_made(model: Model, session: Seq<char>)
    requires
        model.sound(),
    ensures
        model.room_made(session).sound(),
        model.room_made(session).same_requests(model),
        model.can_have_room(session) ==> model.room_made(session).has_room(session),
{
    let next = model.room_made(session);
    if !model.has_room(session) {
        if let Some(first) = model.evicted() {
            lemma_first(model.ledger, evictable(model.sessions));
            lemma_without(model.ledger, first.name);
        }
    }
    lemma_other_ledger(model, next);
}

/// Leaving workers that are gone keeps the state consistent.
pub proof fn lemma_removed_cleared(model: Model, capacities: Capacities)
    requires
        model.sound(),
    ensures
        model.removed_cleared(capacities).0.sound(),
        model.removed_cleared(capacities).0.same_requests(model),
{
    let gone = model.ledger.order_by(
        on_removed_worker(capacities),
    );
    lemma_unassigned(model.ledger, gone);
    lemma_other_ledger(model, model.removed_cleared(capacities).0);
}

proof fn lemma_deferred(model: Model, session: Seq<char>, now: u64, keep: bool)
    requires
        model.sound(),
    ensures
        model.deferred(session, now, keep).0.sound(),
        model.deferred(session, now, keep).0.same_requests(model),
{
    let next = model.deferred(session, now, keep).0;
    if model.ledger.programs.contains_key(session) {
        lemma_with(model.ledger, session, next.ledger.programs[session]);
        assert(next.ledger.programs.dom() =~= model.ledger.programs.dom());
    }
    lemma_other_ledger(model, next);
}

proof fn lemma_assigned(model: Model, session: Seq<char>, worker: Option<WorkerWithDpRank>)
    requires
        model.sound(),
    ensures
        model.with_ledger(model.ledger.assigned(session, worker)).sound(),
{
    let next = model.with_ledger(model.ledger.assigned(session, worker));
    if model.ledger.programs.contains_key(session) {
        lemma_with(
            model.ledger,
            session,
            Program { assigned_worker: worker, ..model.ledger.programs[session] },
        );
    }
    lemma_other_ledger(model, next);
}

proof fn lemma_begun(model: Model, id: Seq<char>)
    requires
        model.sound(),
        model.is_next(id),
        model.can_begin(id),
    ensures
        model.begun(id).sound(),
        model.begun(id).is_next(id),
        model.begun(id).requests[id].began,
{
    let next = model.begun(id);
    let request = model.requests[id];
    if !request.began {
        let roomy = model.room_made(request.session);
        lemma_room_made(model, request.session);
        lemma_with(
            roomy.ledger,
            request.session,
            next.ledger.programs[request.session],
        );
        assert(next.requests.dom() =~= model.requests.dom());
        assert forall|other: Seq<char>| #[trigger] next.requests.contains_key(other) implies {
            let held = next.requests[other];
            held.began && !Model::took_program(held) ==> next.ledger.programs.contains_key(
                held.session,
            )
        } by {
            if other != id {
                assert(roomy.requests.contains_key(other));
            }
        }
        assert forall|other: Seq<char>| #[trigger] next.requests.contains_key(other) implies {
            let held = next.requests[other];
            &&& held.phase == RequestPhase::Released ==> held.began
            &&& held.began && held.phase == RequestPhase::Waiting ==> next.front_and_idle(
                other,
                held.session,
            )
        } by {
            assert(model.requests.contains_key(other));
        }
        assert forall|other: Seq<char>| #[trigger] next.is_waiting(other) implies next.arrivals.contains(
            other,
        ) by {
            assert(model.is_waiting(other));
        }
        assert forall|other: Seq<char>| next.is_waiting(other) == #[trigger] model.is_waiting(
            other,
        ) by {
        }
        if let Some(owner) = next.timer_owner {
            assert(model.is_waiting(owner));
        } else {
            assert forall|other: Seq<char>| !#[trigger] next.is_waiting(other) by {
                assert(!model.is_waiting(other));
            }
        }
    }
}

proof fn lemma_drop_leading(queue: Seq<Seq<char>>, kept: Set<Seq<char>>)
    ensures
        drop_leading(queue, kept).len() > 0 ==> kept.contains(drop_leading(queue, kept)[0]),
        forall|name: Seq<char>| #[trigger]
            queue.contains(name) && kept.contains(name) ==> drop_leading(queue, kept).contains(
                name,
            ),
        forall|name: Seq<char>| #[trigger]
            drop_leading(queue, kept).contains(name) ==> queue.contains(name),
        drop_leading(queue, kept).len() <= queue.len(),
    decreases queue.len(),
{
    if queue.len() > 0 && !kept.contains(queue[0]) {
        let rest = queue.drop_first();
        lemma_drop_leading(rest, kept);
        assert forall|name: Seq<char>| #[trigger]
            queue.contains(name) && kept.contains(name) implies drop_leading(
            queue,
            kept,
        ).contains(name) by {
            let k = choose|k: int| 0 <= k < queue.len() && queue[k] == name;
            assert(rest[k - 1] == name);
            assert(rest.contains(name));
        }
        assert forall|name: Seq<char>| #[trigger]
            drop_leading(queue, kept).contains(name) implies queue.contains(name) by {
            assert(rest.contains(name));
            let k = choose|k: int| 0 <= k < rest.len() && rest[k] == name;
            assert(queue[k + 1] == name);
        }
    }
}

/// The state is consistent but for the timer, which a request that no longer waits may keep.
spec fn sound_but_timer(model: Model, id: Seq<char>) -> bool {
    &&& model.requests_placed()
    &&& model.currents_tracked()
    &&& model.begun_in_front()
    &&& model.begun_has_program()
    &&& model.taken_stays_out()
    &&& model.bounded()
    &&& model.waiting_arrived()
    &&& model.timer_owner != Some(id) ==> model.timer_kept()
}

proof fn lemma_timer_passed(model: Model, id: Seq<char>)
    requires
        sound_but_timer(model, id),
    ensures
        model.timer_passed(id).sound(),
        model.timer_passed(id).requests == model.requests,
        model.timer_passed(id).sessions == model.sessions,
        model.timer_passed(id).ledger == model.ledger,
        model.timer_passed(id).config == model.config,
{
    let next = model.timer_passed(id);
    let kept = model.waiting();
    lemma_drop_leading(model.arrivals, kept);
    assert forall|other: Seq<char>| next.is_waiting(other) == #[trigger] model.is_waiting(
        other,
    ) by {
    }
    assert forall|other: Seq<char>| #[trigger] next.is_waiting(other) implies next.arrivals.contains(
        other,
    ) by {
        assert(model.is_waiting(other));
        assert(kept.contains(other));
        assert(model.arrivals.contains(other));
    }
    if model.timer_owner == Some(id) {
        if next.arrivals.len() == 0 {
            assert forall|other: Seq<char>| !#[trigger] next.is_waiting(other) by {
                if next.is_waiting(other) {
                    assert(next.arrivals.contains(other));
                }
            }
        } else {
            assert(kept.contains(next.arrivals[0]));
            assert(model.is_waiting(next.arrivals[0]));
        }
    }
}

/// A release keeps the state consistent.
pub proof fn lemma_released_is_sound(model: Model, id: Seq<char>, worker: Option<WorkerWithDpRank>)
    requires
        model.sound(),
    ensures
        model.released(id, worker).0.sound(),
{
    if model.can_release(id) {
        let moved = model.let_go(id, worker);
        let request = model.requests[id];
        let session = model.sessions[request.session];
        if request.session_final {
            lemma_without(model.ledger, request.session);
        } else {
            lemma_with(
                model.ledger,
                request.session,
                moved.ledger.programs[request.session],
            );
        }
        assert(moved.requests.dom() =~= model.requests.dom());
        assert forall|other: Seq<char>| #[trigger] moved.requests.contains_key(other) implies {
            let held = moved.requests[other];
            &&& moved.sessions.contains_key(held.session)
            &&& if held.phase == RequestPhase::Released {
                moved.sessions[held.session].current == Some(other)
            } else {
                moved.sessions[held.session].waiting.contains(other)
            }
        } by {
            if other != id {
                assert(model.requests.contains_key(other));
                if model.requests[other].session == request.session {
                    assert(session.waiting.contains(other));
                    let k = choose|k: int|
                        0 <= k < session.waiting.len() && session.waiting[k] == other;
                    assert(session.waiting.drop_first()[k - 1] == other);
                }
            }
        }
        assert forall|name: Seq<char>| #[trigger] moved.sessions.contains_key(name) implies (
        moved.sessions[name].current matches Some(current) ==> moved.requests.contains_key(current)
            && moved.requests[current].session == name && moved.requests[current].phase
            == RequestPhase::Released) by {
            if name != request.session {
                assert(model.sessions.contains_key(name));
            }
        }
        assert forall|other: Seq<char>| #[trigger] moved.requests.contains_key(other) implies {
            let held = moved.requests[other];
            &&& held.phase == RequestPhase::Released ==> held.began
            &&& held.began && held.phase == RequestPhase::Waiting ==> moved.front_and_idle(
                other,
                held.session,
            )
        } by {
            if other != id {
                assert(model.requests.contains_key(other));
                if model.requests[other].began && model.requests[other].session
                    == request.session {
                    lemma_one_begun(model, id, other);
                }
            }
        }
        assert forall|other: Seq<char>| #[trigger] moved.requests.contains_key(other) implies {
            let held = moved.requests[other];
            held.began && !Model::took_program(held) ==> moved.ledger.programs.contains_key(
                held.session,
            )
        } by {
            if other != id {
                assert(model.requests.contains_key(other));
                if model.requests[other].began && model.requests[other].session
                    == request.session {
                    lemma_one_begun(model, id, other);
                }
            }
        }
        assert forall|other: Seq<char>| #[trigger] moved.is_waiting(other) implies moved.arrivals.contains(
            other,
        ) by {
            assert(model.is_waiting(other));
        }
        if moved.timer_owner != Some(id) {
            if let Some(owner) = moved.timer_owner {
                assert(model.is_waiting(owner));
            } else {
                assert(!model.is_waiting(id));
            }
        }
        lemma_timer_passed(moved, id);
        lemma_woken(moved.timer_passed(id), id);
    }
}

proof fn lemma_woken(model: Model, id: Seq<char>)
    requires
        model.sound(),
    ensures
        model.woken(id).sound(),
{
    lemma_other_ledger(model, model.woken(id));
}

proof fn lemma_decided(model: Model, id: Seq<char>, capacities: Capacities, now: u64)
    requires
        model.sound(),
        model.requests.contains_key(id),
    ensures
        model.decided(id, capacities, now).0.sound(),
{
    let request = model.requests[id];
    let session = request.session;
    if model.ledger.programs.contains_key(session) {
        let program = model.ledger.programs[session];
        lemma_deferred(model, session, now, program.assigned_worker is Some);
        lemma_released_is_sound(model, id, None);
        lemma_released_is_sound(model, id, program.assigned_worker);
        lemma_assigned(model, session, None);
        let stranded = program.assigned_worker is Some;
        let free = model.with_ledger(
            if stranded {
                model.ledger.assigned(session, None)
            } else {
                model.ledger
            },
        );
        let required = request.input_tokens.saturating_add(model.config.buffer_per_program);
        lemma_deferred(free, session, now, false);
        lemma_released_is_sound(free, id, free.ledger.admission_worker(capacities, required));
    }
}

proof fn lemma_admitted(model: Model, id: Seq<char>, capacities: Capacities, now: u64)
    requires
        model.sound(),
    ensures
        model.admitted(id, capacities, now).0.sound(),
{
    if model.is_next(id) && model.can_begin(id) {
        lemma_begun(model, id);
        lemma_decided(model.begun(id), id, capacities, now);
    }
}

/// Admissions keep the state consistent.
pub proof fn lemma_all_admitted(model: Model, ids: Seq<Seq<char>>, capacities: Capacities, now: u64)
    requires
        model.sound(),
    ensures
        model.all_admitted(ids, capacities, now).0.sound(),
    decreases ids.len(),
{
    if ids.len() > 0 {
        lemma_admitted(model, ids[0], capacities, now);
        lemma_all_admitted(
            model.admitted(ids[0], capacities, now).0,
            ids.drop_first(),
            capacities,
            now,
        );
    }
}

proof fn lemma_resumed(model: Model, session: Seq<char>, worker: Option<WorkerWithDpRank>)
    requires
        model.sound(),
    ensures
        model.resumed(session, worker).0.sound(),
{
    if model.ledger.programs.contains_key(session) {
        let program = Program {
            lifecycle: ProgramLifecycle::Active,
            deferred_since: None,
            assigned_worker: worker,
            ..model.ledger.programs[session]
        };
        let running = model.with_ledger(model.ledger.with(session, program));
        lemma_with(model.ledger, session, program);
        lemma_other_ledger(model, running);
        if let Some(id) = model.pending(session) {
            lemma_released_is_sound(running, id, worker);
        }
    }
}

/// Packing keeps the state consistent.
pub proof fn lemma_packed(
    model: Model,
    rooms: Seq<Room>,
    decays: Map<Seq<char>, usize>,
    decayed: Map<WorkerWithDpRank, usize>,
    order: Seq<Rank>,
)
    requires
        model.sound(),
    ensures
        model.packed(rooms, decays, decayed, order).model.sound(),
    decreases order.len(),
{
    if order.len() > 0 {
        let name = order[0].name;
        let rest = order.drop_first();
        let seat = if model.ledger.programs.contains_key(name) {
            best_room(
                rooms,
                model.ledger.required(name),
                model.ledger.programs[name].assigned_worker,
            )
        } else {
            None
        };
        match seat {
            None => lemma_packed(model, rooms, decays, decayed, rest),
            Some(at) => {
                let room = rooms[at];
                let after = model.resumed(name, Some(room.worker)).0;
                lemma_resumed(model, name, Some(room.worker));
                lemma_packed(after, rooms, decays, decayed, rest);
                let left = (room.available - model.ledger.required(name)) as usize;
                let tokens = decayed_tokens(
                    decays,
                    name,
                    after.ledger.programs[name],
                );
                lemma_packed(
                    after,
                    rooms.update(at, Room { available: left, ..room }),
                    decays,
                    decayed_more(
                        decayed,
                        room.worker,
                        tokens,
                        model.ledger.buffer,
                    ),
                    rest,
                );
            },
        }
    }
}

proof fn lemma_forced(
    model: Model,
    capacities: Capacities,
    decays: Map<Seq<char>, usize>,
    decayed: Map<WorkerWithDpRank, usize>,
    order: Seq<Rank>,
)
    requires
        model.sound(),
    ensures
        model.forced(capacities, decays, decayed, order).0.sound(),
    decreases order.len(),
{
    if order.len() > 0 {
        let name = order[0].name;
        let rest = order.drop_first();
        let target = forced_target(
            capacities,
            decayed,
            model.ledger.programs[name].assigned_worker,
        );
        let (after, changed) = model.resumed(name, target);
        lemma_resumed(model, name, target);
        lemma_forced(model, capacities, decays, decayed, rest);
        lemma_forced(after, capacities, decays, decayed, rest);
        if let Some(worker) = target {
            lemma_forced(
                after,
                capacities,
                decays,
                decayed_more(
                    decayed,
                    worker,
                    decayed_tokens(
                        decays,
                        name,
                        after.ledger.programs[name],
                    ),
                    model.ledger.buffer,
                ),
                rest,
            );
        }
    }
}

proof fn lemma_only(queue: Seq<Seq<char>>, kept: Set<Seq<char>>)
    ensures
        forall|name: Seq<char>| #[trigger]
            only(queue, kept).contains(name) <==> queue.contains(name) && kept.contains(name),
{
    let pred = |name: Seq<char>| kept.contains(name);
    assert forall|name: Seq<char>| #[trigger]
        only(queue, kept).contains(name) <==> queue.contains(name) && kept.contains(name) by {
        if only(queue, kept).contains(name) {
            queue.lemma_filter_contains_rev(pred, name);
            let k = choose|k: int|
                0 <= k < only(queue, kept).len() && only(queue, kept)[k] == name;
            queue.lemma_filter_pred(pred, k);
        }
        if queue.contains(name) && kept.contains(name) {
            let k = choose|k: int| 0 <= k < queue.len() && queue[k] == name;
            queue.lemma_filter_contains(pred, k);
        }
    }
}

proof fn lemma_arrivals_compacted(model: Model)
    requires
        model.sound(),
    ensures
        model.arrivals_compacted().sound(),
{
    let next = model.arrivals_compacted();
    lemma_only(model.arrivals, model.waiting());
    assert forall|id: Seq<char>| next.is_waiting(id) == #[trigger] model.is_waiting(id) by {
    }
    assert forall|id: Seq<char>| #[trigger] next.is_waiting(id) implies next.arrivals.contains(
        id,
    ) by {
        assert(model.is_waiting(id));
        assert(model.waiting().contains(id));
    }
    if next.timer_owner is None {
        assert forall|id: Seq<char>| !#[trigger] next.is_waiting(id) by {
            assert(!model.is_waiting(id));
        }
    }
}

proof fn lemma_reconcile_requested(model: Model, now: u64)
    requires
        model.sound(),
    ensures
        model.reconcile_requested(now).sound(),
{
    lemma_other_ledger(model, model.reconcile_requested(now));
}

proof fn lemma_compacted(session: Session, kept: Set<Seq<char>>)
    ensures
        session.compacted(kept).current == session.current,
        forall|id: Seq<char>| #[trigger]
            session.waiting.contains(id) && kept.contains(id) ==> session.compacted(
                kept,
            ).waiting.contains(id),
        session.waiting.len() > 0 && kept.contains(session.waiting[0]) ==> session.compacted(
            kept,
        ).waiting.len() > 0 && session.compacted(kept).waiting[0] == session.waiting[0],
{
    let rest = drop_leading(session.waiting, kept);
    lemma_drop_leading(session.waiting, kept);
    lemma_only(rest, kept);
    assert forall|id: Seq<char>| #[trigger]
        session.waiting.contains(id) && kept.contains(id) implies session.compacted(
        kept,
    ).waiting.contains(id) by {
        assert(rest.contains(id));
        assert(only(rest, kept).contains(id));
    }
    if session.waiting.len() > 0 && kept.contains(session.waiting[0]) {
        lemma_filter_head(rest, |name: Seq<char>| kept.contains(name));
    }
}

proof fn lemma_dequeued(model: Model, id: Seq<char>)
    requires
        model.sound(),
        model.requests.contains_key(id),
    ensures
        model.dequeued(id).sound(),
        model.dequeued(id).ledger == model.ledger,
        model.dequeued(id).requests == model.requests.remove(id),
        model.dequeued(id).config == model.config,
        model.requests[id].began ==> forall|other: Seq<char>| #[trigger]
            model.dequeued(id).requests.contains_key(other)
                && model.dequeued(id).requests[other].session == model.requests[id].session
                ==> !model.dequeued(id).requests[other].began,
{
    let request = model.requests[id];
    let left = Model { requests: model.requests.remove(id), ..model };
    let kept = left.waiting();
    let session = model.sessions[request.session];
    let vacated = if session.current == Some(id) {
        Session { current: None, ..session }
    } else if request.phase == RequestPhase::Waiting {
        Session { stale: session.stale.saturating_add(1), ..session }
    } else {
        session
    };
    lemma_compacted(vacated, kept);
    let shorter = Model {
        sessions: model.sessions.insert(request.session, vacated.compacted(kept)),
        ..left
    };
    assert forall|other: Seq<char>| #[trigger] shorter.is_waiting(other) <==> model.is_waiting(other)
        && other != id by {
    }
    assert forall|other: Seq<char>| #[trigger] shorter.requests.contains_key(other) implies {
        let held = shorter.requests[other];
        &&& shorter.sessions.contains_key(held.session)
        &&& if held.phase == RequestPhase::Released {
            shorter.sessions[held.session].current == Some(other)
        } else {
            shorter.sessions[held.session].waiting.contains(other)
        }
    } by {
        assert(model.requests.contains_key(other));
        if shorter.requests[other].phase == RequestPhase::Waiting {
            assert(left.is_waiting(other));
            assert(kept.contains(other));
            if shorter.requests[other].session == request.session {
                assert(vacated.waiting.contains(other));
            }
        }
    }
    assert forall|name: Seq<char>| #[trigger] shorter.sessions.contains_key(name) implies (
    shorter.sessions[name].current matches Some(current) ==> shorter.requests.contains_key(current)
        && shorter.requests[current].session == name && shorter.requests[current].phase
        == RequestPhase::Released) by {
        assert(model.sessions.contains_key(name));
    }
    assert forall|other: Seq<char>| #[trigger] shorter.requests.contains_key(other) implies {
        let held = shorter.requests[other];
        &&& held.phase == RequestPhase::Released ==> held.began
        &&& held.began && held.phase == RequestPhase::Waiting ==> shorter.front_and_idle(
            other,
            held.session,
        )
    } by {
        assert(model.requests.contains_key(other));
        let held = shorter.requests[other];
        if held.began && held.phase == RequestPhase::Waiting {
            assert(left.is_waiting(other));
            assert(kept.contains(other));
        }
    }
    assert forall|other: Seq<char>| #[trigger] shorter.requests.contains_key(other) implies {
        let held = shorter.requests[other];
        held.began && !Model::took_program(held) ==> shorter.ledger.programs.contains_key(
            held.session,
        )
    } by {
        assert(model.requests.contains_key(other));
    }
    assert forall|other: Seq<char>| #[trigger] shorter.is_waiting(other) implies shorter.arrivals.contains(
        other,
    ) by {
        assert(model.is_waiting(other));
    }
    if shorter.timer_owner != Some(id) {
        if let Some(owner) = shorter.timer_owner {
            assert(model.is_waiting(owner));
        } else {
            assert forall|other: Seq<char>| !#[trigger] shorter.is_waiting(other) by {
                assert(!model.is_waiting(other));
            }
        }
    }
    assert forall|other: Seq<char>| left.is_waiting(other) == #[trigger] shorter.is_waiting(
        other,
    ) by {
    }
    assert(left.waiting() =~= shorter.waiting());
    lemma_timer_passed(shorter, id);
    if request.phase == RequestPhase::Waiting {
        assert(model.dequeued(id) =~= shorter.timer_passed(id));
    } else {
        if let Some(owner) = model.timer_owner {
            assert(model.is_waiting(owner));
        }
        assert(model.dequeued(id) =~= shorter);
    }
    if request.began {
        assert forall|other: Seq<char>| #[trigger]
            model.dequeued(id).requests.contains_key(other)
                && model.dequeued(id).requests[other].session
                == request.session implies !model.dequeued(id).requests[other].began by {
            if model.requests[other].began {
                lemma_one_begun(model, id, other);
            }
        }
    }
}

proof fn lemma_settled(model: Model, request: Request, outcome: Outcome, now: u64)
    requires
        model.sound(),
        request.phase == RequestPhase::Released ==> request.began,
        request.began && !Model::took_program(request) ==> model.ledger.programs.contains_key(
            request.session,
        ),
        request.began ==> forall|other: Seq<char>| #[trigger]
            model.requests.contains_key(other) && model.requests[other].session == request.session
                ==> !model.requests[other].began,
    ensures
        model.settled(request, outcome, now).sound(),
        model.settled(request, outcome, now).same_requests(model),
{
    let next = model.settled(request, outcome, now);
    let session = request.session;
    if request.began {
        match outcome {
            Outcome::Completed { context_tokens, acting_tokens } if request.phase
                == RequestPhase::Released => {
                if !request.session_final {
                    assert(next.ledger.programs.dom() =~= model.ledger.programs.dom());
                }
            },
            _ => {
                if !Model::took_program(request) {
                    if let Some(prior) = request.prior {
                        lemma_with(model.ledger, session, prior);
                    } else {
                        lemma_without(model.ledger, session);
                    }
                }
            },
        }
        assert forall|other: Seq<char>| #[trigger] next.requests.contains_key(other) implies {
            let held = next.requests[other];
            held.began && !Model::took_program(held) ==> next.ledger.programs.contains_key(
                held.session,
            )
        } by {
            assert(model.requests.contains_key(other));
        }
    }
    assert forall|id: Seq<char>| next.is_waiting(id) == #[trigger] model.is_waiting(id) by {
    }
    assert forall|id: Seq<char>| #[trigger] next.is_waiting(id) implies next.arrivals.contains(
        id,
    ) by {
        assert(model.is_waiting(id));
    }
    if next.timer_owner is None {
        assert forall|id: Seq<char>| !#[trigger] next.is_waiting(id) by {
            assert(!model.is_waiting(id));
        }
    }
}

proof fn lemma_session_closed(model: Model, session: Seq<char>)
    requires
        model.sound(),
    ensures
        model.session_closed(session).sound(),
{
    let next = model.session_closed(session);
    assert forall|id: Seq<char>| #[trigger] next.requests.contains_key(id) implies {
        let request = next.requests[id];
        &&& next.sessions.contains_key(request.session)
        &&& if request.phase == RequestPhase::Released {
            next.sessions[request.session].current == Some(id)
        } else {
            next.sessions[request.session].waiting.contains(id)
        }
    } by {
        assert(model.requests.contains_key(id));
    }
    assert forall|id: Seq<char>| next.is_waiting(id) == #[trigger] model.is_waiting(id) by {
    }
    assert forall|id: Seq<char>| #[trigger] next.is_waiting(id) implies next.arrivals.contains(
        id,
    ) by {
        assert(model.is_waiting(id));
    }
    if next.timer_owner is None {
        assert forall|id: Seq<char>| !#[trigger] next.is_waiting(id) by {
            assert(!model.is_waiting(id));
        }
    }
}

proof fn lemma_enqueued(
    model: Model,
    id: Seq<char>,
    session: Seq<char>,
    input_tokens: usize,
    session_final: bool,
)
    requires
        model.sound(),
        !model.requests.contains_key(id),
        model.requests.len() < model.config.max_tracked_requests,
    ensures
        model.enqueued(id, session, input_tokens, session_final).sound(),
{
    let next = model.enqueued(id, session, input_tokens, session_final);
    let held = if model.sessions.contains_key(session) {
        model.sessions[session]
    } else {
        Session::fresh()
    };
    let queue = held.waiting.push(id);
    assert(next.requests.dom() =~= model.requests.dom().insert(id));
    assert(queue[held.waiting.len() as int] == id);
    assert forall|other: Seq<char>| #[trigger] held.waiting.contains(other) implies queue.contains(
        other,
    ) by {
        let k = choose|k: int| 0 <= k < held.waiting.len() && held.waiting[k] == other;
        assert(queue[k] == other);
    }
    assert forall|other: Seq<char>| #[trigger] next.requests.contains_key(other) implies {
        let request = next.requests[other];
        &&& next.sessions.contains_key(request.session)
        &&& if request.phase == RequestPhase::Released {
            next.sessions[request.session].current == Some(other)
        } else {
            next.sessions[request.session].waiting.contains(other)
        }
    } by {
        if other != id {
            assert(model.requests.contains_key(other));
            if model.requests[other].session == session && model.requests[other].phase
                == RequestPhase::Waiting {
                assert(held.waiting.contains(other));
            }
        }
    }
    assert forall|name: Seq<char>| #[trigger] next.sessions.contains_key(name) implies (
    next.sessions[name].current matches Some(current) ==> next.requests.contains_key(current)
        && next.requests[current].session == name && next.requests[current].phase
        == RequestPhase::Released) by {
        if model.sessions.contains_key(name) {
        }
    }
    assert forall|other: Seq<char>| #[trigger] next.requests.contains_key(other) implies {
        let request = next.requests[other];
        &&& request.phase == RequestPhase::Released ==> request.began
        &&& request.began && request.phase == RequestPhase::Waiting ==> next.front_and_idle(
            other,
            request.session,
        )
    } by {
        if other != id {
            assert(model.requests.contains_key(other));
        }
    }
    assert forall|other: Seq<char>| #[trigger] next.requests.contains_key(other) implies {
        let request = next.requests[other];
        request.began && !Model::took_program(request) ==> next.ledger.programs.contains_key(
            request.session,
        )
    } by {
        if other != id {
            assert(model.requests.contains_key(other));
        }
    }
    assert forall|other: Seq<char>| #[trigger] next.is_waiting(other) implies next.arrivals.contains(
        other,
    ) by {
        if other == id {
            assert(next.arrivals[model.arrivals.len() as int] == id);
        } else {
            assert(model.is_waiting(other));
            assert(model.arrivals.contains(other));
            let k = choose|k: int| 0 <= k < model.arrivals.len() && model.arrivals[k] == other;
            assert(next.arrivals[k] == other);
        }
    }
    if let Some(owner) = model.timer_owner {
        assert(model.is_waiting(owner));
        assert(next.is_waiting(owner));
    } else {
        assert(next.is_waiting(id));
    }
}

/// A new state is consistent.
pub proof fn lemma_fresh_is_sound(config: ThunderAgentConfig, now: u64)
    ensures
        Model::fresh(config, now).sound(),
{
}

/// Taking up a request keeps the state consistent.
pub proof fn lemma_registered_is_sound(
    model: Model,
    id: Seq<char>,
    session: Seq<char>,
    input_tokens: usize,
    session_final: bool,
    capacities: Capacities,
    now: u64,
)
    requires
        model.sound(),
    ensures
        model.programs_expired(now).0.sound(),
        model.refusal(id, session, now) is None ==> model.registered(
            id,
            session,
            input_tokens,
            session_final,
            capacities,
            now,
        ).sound(),
{
    lemma_expired(model, now);
    if model.refusal(id, session, now) is None {
        let kept = model.programs_expired(now).0;
        lemma_room_made(kept, session);
        let roomy = kept.room_made(session);
        lemma_removed_cleared(roomy, capacities);
        let cleared = roomy.removed_cleared(capacities).0;
        lemma_enqueued(cleared, id, session, input_tokens, session_final);
        let queued = cleared.enqueued(id, session, input_tokens, session_final);
        lemma_admitted(queued, id, capacities, now);
        lemma_arrivals_compacted(queued.admitted(id, capacities, now).0);
    }
}

/// The periodic step keeps the state consistent.
pub proof fn lemma_reconciled_is_sound(
    model: Model,
    capacities: Capacities,
    decays: Map<Seq<char>, usize>,
    now: u64,
)
    requires
        model.sound(),
    ensures
        model.reconciled(capacities, decays, now).0.sound(),
{
    let timed = Model {
        next_reconcile_at: (now + model.config.scheduler_interval) as u128,
        ..model
    };
    lemma_other_ledger(model, timed);
    lemma_expired(timed, now);
    let kept = timed.programs_expired(now).0;
    lemma_removed_cleared(kept, capacities);
    let cleared = kept.removed_cleared(capacities).0;
    lemma_all_admitted(cleared, cleared.candidates(), capacities, now);
    let admitted = cleared.all_admitted(cleared.candidates(), capacities, now).0;
    let decayed = admitted.ledger.decayed_usage(
        decays,
        Map::empty(),
        admitted.ledger.order_by(running()),
    );
    let rooms = admitted.ledger.rooms(capacities, capacities.cards.len());
    let chosen = admitted.ledger.resumable(rooms);
    lemma_packed(
        admitted,
        rooms,
        decays,
        decayed,
        admitted.ledger.order_by(largest_first(chosen)),
    );
    let packing = admitted.programs_resumed(capacities, decays, decayed);
    let late = packing.model.ledger.order_by(
        timed_out(now, packing.model.config.resume_timeout),
    );
    lemma_forced(packing.model, capacities, decays, packing.decayed, late);
    let forced = packing.model.forced(capacities, decays, packing.decayed, late).0;
    lemma_all_relieved(forced.ledger, capacities.cards);
    let relieved = forced.with_ledger(forced.ledger.all_relieved(capacities.cards).0);
    lemma_other_ledger(forced, relieved);
    lemma_arrivals_compacted(relieved);
}

/// The end of a request keeps the state consistent.
pub proof fn lemma_finished_is_sound(
    model: Model,
    id: Seq<char>,
    outcome: Outcome,
    capacities: Capacities,
    now: u64,
)
    requires
        model.sound(),
    ensures
        model.finished(id, outcome, capacities, now).0.sound(),
{
    if model.requests.contains_key(id) {
        let request = model.requests[id];
        lemma_dequeued(model, id);
        let shorter = model.dequeued(id);
        lemma_settled(shorter, request, outcome, now);
        let settled = shorter.settled(request, outcome, now);
        if let Some(next) = settled.pending(request.session) {
            lemma_admitted(settled, next, capacities, now);
        }
        let admitted = settled.next_admitted(request.session, capacities, now);
        lemma_session_closed(admitted, request.session);
        let closed = admitted.session_closed(request.session);
        let scheduled = closed.retention_scheduled(request.session);
        lemma_other_ledger(closed, scheduled);
        lemma_reconcile_requested(scheduled, now);
        let asked = scheduled.reconcile_requested(now);
        lemma_arrivals_compacted(asked);
        lemma_woken(asked.arrivals_compacted(), id);
    }
}

/// Setting the reconcile time keeps the state consistent.
pub proof fn lemma_timed_is_sound(model: Model, next: Model)
    requires
        model.sound(),
        next == (Model { next_reconcile_at: next.next_reconcile_at, ..model }),
    ensures
        next.sound(),
{
    lemma_other_ledger(model, next);
}

/// Waking a waiter keeps the state consistent.
pub proof fn lemma_woken_is_sound(model: Model, next: Model)
    requires
        model.sound(),
        next == (Model { wakeups: next.wakeups, ..model }),
    ensures
        next.sound(),
{
    lemma_other_ledger(model, next);
}

/// Learning where a request was sent keeps the state consistent.
pub proof fn lemma_sent_is_sound(model: Model, id: Seq<char>, worker: WorkerWithDpRank, now: u64)
    requires
        model.sound(),
    ensures
        model.sent(id, worker, now).0.sound(),
{
    if model.requests.contains_key(id) {
        lemma_assigned(model, model.requests[id].session, Some(worker));
        lemma_reconcile_requested(
            model.with_ledger(model.ledger.assigned(model.requests[id].session, Some(worker))),
            now,
        );
    }
}

} // verus!
