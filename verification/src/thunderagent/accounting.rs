//! The usage of workers is what the program table says, and programs stay within given terms.
use vstd::prelude::*;

use crate::ranking::Rank;
use crate::thunderagent::capacity::{Capacities, CapacityCard};
use crate::thunderagent::config::ThunderAgentConfig;
use crate::thunderagent::ledger::{used_on, Ledger};
use crate::thunderagent::model::{evictable, expired, Model, Outcome, Request, RequestPhase};
use crate::thunderagent::order::lemma_first;
use crate::thunderagent::placement::{
    best_room, decayed_more, decayed_tokens, forced_target, largest_first, running, timed_out, Room,
};
use crate::thunderagent::program::{Program, ProgramLifecycle, ProgramStatus};
use crate::thunderagent::relief::{on_removed_worker, on_worker};
use crate::worker::WorkerWithDpRank;

verus! {

/// The tokens that a session's program holds on a worker: an active program holds the tokens that it
/// is charged, and its headroom, on the worker that it is assigned to.
pub open spec fn held_tokens(ledger: Ledger, name: Seq<char>, worker: WorkerWithDpRank) -> nat {
    let program = ledger.programs[name];
    let tokens = if program.status == ProgramStatus::Acting {
        program.acting_tokens
    } else {
        program.token_total
    };
    if program.lifecycle != ProgramLifecycle::Active || program.assigned_worker != Some(worker) {
        0
    } else if tokens + ledger.buffer <= usize::MAX {
        (tokens + ledger.buffer) as nat
    } else {
        usize::MAX as nat
    }
}

/// The tokens that some sessions' programs hold on a worker together.
pub open spec fn held_by(ledger: Ledger, names: Set<Seq<char>>, worker: WorkerWithDpRank) -> nat
    decreases names.len(),
{
    if names.finite() && names.len() > 0 {
        let name = names.choose();
        proof {
            assert(names.contains(name)) by {
                if names =~= Set::empty() {
                }
            }
        }
        held_tokens(ledger, name, worker) + held_by(ledger, names.remove(name), worker)
    } else {
        0
    }
}

/// The usage of every worker is the sum of what the programs on it hold.
pub open spec fn usage_is_exact(ledger: Ledger) -> bool {
    forall|worker: WorkerWithDpRank| #[trigger]
        used_on(ledger.usage, worker) == held_by(ledger, ledger.programs.dom(), worker)
}

proof fn lemma_held_split(
    ledger: Ledger,
    names: Set<Seq<char>>,
    name: Seq<char>,
    worker: WorkerWithDpRank,
)
    requires
        names.finite(),
        names.contains(name),
    ensures
        held_by(ledger, names, worker) == held_tokens(ledger, name, worker) + held_by(
            ledger,
            names.remove(name),
            worker,
        ),
    decreases names.len(),
{
    let first = names.choose();
    assert(names.len() > 0) by {
        if names.len() == 0 {
            assert(names =~= Set::empty());
        }
    }
    if first != name {
        let rest = names.remove(first);
        lemma_held_split(ledger, rest, name, worker);
        assert(rest.remove(name) =~= names.remove(name).remove(first));
        lemma_held_split(ledger, names.remove(name), first, worker);
    }
}

proof fn lemma_held_same(
    ledger: Ledger,
    other: Ledger,
    names: Set<Seq<char>>,
    worker: WorkerWithDpRank,
)
    requires
        names.finite(),
        forall|name: Seq<char>| #[trigger]
            names.contains(name) ==> held_tokens(ledger, name, worker) == held_tokens(
                other,
                name,
                worker,
            ),
    ensures
        held_by(ledger, names, worker) == held_by(other, names, worker),
    decreases names.len(),
{
    if names.len() > 0 {
        let first = names.choose();
        assert(names.contains(first)) by {
            if names =~= Set::empty() {
            }
        }
        lemma_held_same(ledger, other, names.remove(first), worker);
    }
}

/// Taking a program out keeps usage exact.
pub proof fn lemma_removal_keeps_usage_exact(ledger: Ledger, session: Seq<char>)
    requires
        ledger.programs.dom().finite(),
        usage_is_exact(ledger),
    ensures
        usage_is_exact(ledger.without(session)),
{
    let next = ledger.without(session);
    if ledger.programs.contains_key(session) {
        let rest = ledger.programs.dom().remove(session);
        assert(next.programs.dom() =~= rest);
        assert forall|worker: WorkerWithDpRank| #[trigger]
            used_on(next.usage, worker) == held_by(next, next.programs.dom(), worker) by {
            lemma_held_split(ledger, ledger.programs.dom(), session, worker);
            lemma_held_same(ledger, next, rest, worker);
            assert(used_on(ledger.usage, worker) == held_by(
                ledger,
                ledger.programs.dom(),
                worker,
            ));
        }
    }
}

/// Setting a program keeps usage exact, as long as no worker's sum saturates.
pub proof fn lemma_update_keeps_usage_exact(ledger: Ledger, session: Seq<char>, program: Program)
    requires
        ledger.programs.dom().finite(),
        usage_is_exact(ledger),
        forall|worker: WorkerWithDpRank| #[trigger]
            held_by(
                ledger.with(session, program),
                ledger.with(session, program).programs.dom(),
                worker,
            ) <= usize::MAX,
    ensures
        usage_is_exact(ledger.with(session, program)),
{
    let cleared = ledger.without(session);
    let next = ledger.with(session, program);
    lemma_removal_keeps_usage_exact(ledger, session);
    assert(next.programs.dom() =~= cleared.programs.dom().insert(session));
    assert(cleared.programs.dom().finite());
    assert forall|worker: WorkerWithDpRank| #[trigger]
        used_on(next.usage, worker) == held_by(next, next.programs.dom(), worker) by {
        lemma_held_split(next, next.programs.dom(), session, worker);
        assert(next.programs.dom().remove(session) =~= cleared.programs.dom());
        lemma_held_same(cleared, next, cleared.programs.dom(), worker);
        assert(used_on(cleared.usage, worker) == held_by(
            cleared,
            cleared.programs.dom(),
            worker,
        ));
        assert(held_by(next, next.programs.dom(), worker) <= usize::MAX);
    }
}

/// Two programs of one size, in the same place of a turn.
pub open spec fn same_size(a: Program, b: Program) -> bool {
    a.status == b.status && a.token_total == b.token_total && a.acting_tokens == b.acting_tokens
}

/// What every program has to meet. With a share, no program holds more than it on its worker, and
/// usage is exact.
struct Terms {
    meets: spec_fn(Program) -> bool,
    share: Option<nat>,
    buffer: usize,
    limit: usize,
}

impl Terms {
    /// The terms are about the size of a program alone.
    spec fn on_size(self) -> bool {
        forall|a: Program, b: Program| #[trigger]
            same_size(a, b) && (self.meets)(a) ==> (self.meets)(b)
    }

    /// A turn with the given input can begin.
    spec fn allow_turn(self, input_tokens: usize) -> bool {
        &&& (self.meets)(Program::first_turn(input_tokens))
        &&& forall|program: Program|
            (self.meets)(program) ==> (self.meets)(#[trigger] program.next_turn(input_tokens))
    }

    /// The shares of all programs together do not saturate.
    spec fn leave_room(self) -> bool {
        self.share matches Some(share) ==> {
            &&& share * self.limit <= usize::MAX
            &&& forall|program: Program| #[trigger]
                (self.meets)(program) ==> program.charged_tokens() + self.buffer <= share
        }
    }

    /// The programs of a ledger meet the terms.
    spec fn cover(self, ledger: Ledger) -> bool {
        &&& self.on_size()
        &&& self.leave_room()
        &&& ledger.buffer == self.buffer
        &&& ledger.programs.dom().finite()
        &&& ledger.programs.len() <= self.limit
        &&& forall|name: Seq<char>| #[trigger]
            ledger.programs.contains_key(name) ==> (self.meets)(ledger.programs[name])
        &&& self.share is Some ==> usage_is_exact(ledger)
    }

    /// A request can begin and can be rolled back.
    spec fn cover_request(self, request: Request) -> bool {
        &&& self.allow_turn(request.input_tokens)
        &&& request.prior matches Some(prior) ==> (self.meets)(prior)
    }

    /// The programs of a state meet the terms, now and after its requests' turns.
    spec fn hold(self, model: Model) -> bool {
        &&& model.config.max_tracked_requests == self.limit
        &&& self.cover(model.ledger)
        &&& forall|id: Seq<char>| #[trigger]
            model.requests.contains_key(id) ==> self.cover_request(model.requests[id])
    }
}

/// Programs hold no more together than their shares.
proof fn lemma_held_within(
    ledger: Ledger,
    names: Set<Seq<char>>,
    worker: WorkerWithDpRank,
    share: nat,
)
    requires
        names.finite(),
        forall|name: Seq<char>| #[trigger]
            names.contains(name) ==> held_tokens(ledger, name, worker) <= share,
    ensures
        held_by(ledger, names, worker) <= share * names.len(),
    decreases names.len(),
{
    if names.len() > 0 {
        let first = names.choose();
        assert(names.contains(first)) by {
            if names =~= Set::empty() {
            }
        }
        lemma_held_within(ledger, names.remove(first), worker, share);
        let count = names.len();
        assert(share * (count - 1) + share == share * count) by (nonlinear_arith);
    }
}

proof fn lemma_without(terms: Terms, ledger: Ledger, name: Seq<char>)
    requires
        terms.cover(ledger),
    ensures
        terms.cover(ledger.without(name)),
        ledger.programs.contains_key(name) ==> ledger.without(name).programs.len() < terms.limit,
{
    let next = ledger.without(name);
    assert(next.programs.dom() =~= ledger.programs.dom().remove(name));
    if terms.share is Some {
        lemma_removal_keeps_usage_exact(ledger, name);
    }
}

proof fn lemma_with(terms: Terms, ledger: Ledger, name: Seq<char>, program: Program)
    requires
        terms.cover(ledger),
        (terms.meets)(program),
        ledger.programs.contains_key(name) || ledger.programs.len() < terms.limit,
    ensures
        terms.cover(ledger.with(name, program)),
        ledger.with(name, program).programs.contains_key(name),
        ledger.with(name, program).programs[name] == program,
{
    let next = ledger.with(name, program);
    assert(next.programs.dom() =~= ledger.programs.dom().insert(name));
    if let Some(share) = terms.share {
        assert forall|worker: WorkerWithDpRank| #[trigger]
            held_by(next, next.programs.dom(), worker) <= usize::MAX by {
            assert forall|other: Seq<char>| #[trigger]
                next.programs.dom().contains(other) implies held_tokens(next, other, worker)
                <= share by {
                assert(next.programs.contains_key(other));
                assert((terms.meets)(next.programs[other]));
            }
            lemma_held_within(next, next.programs.dom(), worker, share);
            let count = next.programs.len();
            assert(share * count <= share * terms.limit) by (nonlinear_arith)
                requires
                    count <= terms.limit,
            ;
        }
        lemma_update_keeps_usage_exact(ledger, name, program);
    }
}

/// Changing a program but for its size.
proof fn lemma_resized(terms: Terms, ledger: Ledger, name: Seq<char>, program: Program)
    requires
        terms.cover(ledger),
        ledger.programs.contains_key(name),
        same_size(ledger.programs[name], program),
    ensures
        terms.cover(ledger.with(name, program)),
{
    assert((terms.meets)(ledger.programs[name]));
    lemma_with(terms, ledger, name, program);
}

proof fn lemma_without_all(terms: Terms, ledger: Ledger, order: Seq<Rank>)
    requires
        terms.cover(ledger),
    ensures
        terms.cover(ledger.without_all(order)),
    decreases order.len(),
{
    if order.len() > 0 {
        lemma_without(terms, ledger, order[0].name);
        lemma_without_all(terms, ledger.without(order[0].name), order.drop_first());
    }
}

proof fn lemma_assigned(
    terms: Terms,
    ledger: Ledger,
    name: Seq<char>,
    worker: Option<WorkerWithDpRank>,
)
    requires
        terms.cover(ledger),
    ensures
        terms.cover(ledger.assigned(name, worker)),
{
    if ledger.programs.contains_key(name) {
        let program = Program { assigned_worker: worker, ..ledger.programs[name] };
        lemma_resized(terms, ledger, name, program);
    }
}

proof fn lemma_paused(terms: Terms, ledger: Ledger, name: Seq<char>)
    requires
        terms.cover(ledger),
    ensures
        terms.cover(ledger.with_paused(name)),
{
    if ledger.can_pause(name) {
        let program = Program {
            lifecycle: ProgramLifecycle::Paused,
            assigned_worker: None,
            ..ledger.programs[name]
        };
        lemma_resized(terms, ledger, name, program);
    }
}

proof fn lemma_unassigned(terms: Terms, ledger: Ledger, order: Seq<Rank>)
    requires
        terms.cover(ledger),
    ensures
        terms.cover(ledger.unassigned(order)),
    decreases order.len(),
{
    if order.len() > 0 {
        lemma_assigned(terms, ledger, order[0].name, None);
        lemma_unassigned(terms, ledger.assigned(order[0].name, None), order.drop_first());
    }
}

proof fn lemma_drained(
    terms: Terms,
    ledger: Ledger,
    worker: WorkerWithDpRank,
    goal: usize,
    order: Seq<Rank>,
)
    requires
        terms.cover(ledger),
    ensures
        terms.cover(ledger.drained(worker, goal, order).0),
    decreases order.len(),
{
    if order.len() > 0 {
        let name = order[0].name;
        lemma_paused(terms, ledger, name);
        lemma_drained(
            terms,
            ledger.with_paused(name),
            worker,
            goal,
            order.drop_first(),
        );
    }
}

proof fn lemma_marked(terms: Terms, ledger: Ledger, order: Seq<Rank>)
    requires
        terms.cover(ledger),
    ensures
        terms.cover(ledger.marked(order).0),
    decreases order.len(),
{
    if order.len() > 0 {
        let name = order[0].name;
        if ledger.can_mark(name) {
            let program = Program { marked_for_pause: true, ..ledger.programs[name] };
            lemma_resized(terms, ledger, name, program);
        }
        lemma_marked(terms, ledger.with_mark(name), order.drop_first());
    }
}

proof fn lemma_all_relieved(terms: Terms, ledger: Ledger, cards: Seq<CapacityCard>)
    requires
        terms.cover(ledger),
    ensures
        terms.cover(ledger.all_relieved(cards).0),
    decreases cards.len(),
{
    if cards.len() > 0 {
        let card = cards[0];
        let acting = ledger.order_by(on_worker(card.worker, ProgramStatus::Acting));
        let reasoning = ledger.order_by(on_worker(card.worker, ProgramStatus::Reasoning));
        lemma_drained(terms, ledger, card.worker, card.pause_goal, acting);
        lemma_marked(
            terms,
            ledger.drained(card.worker, card.pause_goal, acting).0,
            reasoning,
        );
        lemma_all_relieved(terms, ledger.relieved(card).0, cards.drop_first());
    }
}

proof fn lemma_expired(terms: Terms, model: Model, now: u64)
    requires
        terms.hold(model),
    ensures
        terms.hold(model.programs_expired(now).0),
{
    let gone = model.ledger.order_by(
        expired(model.sessions, now, model.config.session_retention),
    );
    lemma_without_all(terms, model.ledger, gone);
}

proof fn lemma_room_made(terms: Terms, model: Model, session: Seq<char>)
    requires
        terms.hold(model),
    ensures
        terms.hold(model.room_made(session)),
        model.can_have_room(session) ==> model.room_made(session).has_room(session),
{
    if !model.has_room(session) {
        if let Some(first) = model.evicted() {
            lemma_first(model.ledger, evictable(model.sessions));
            lemma_without(terms, model.ledger, first.name);
        }
    }
}

proof fn lemma_removed_cleared(terms: Terms, model: Model, capacities: Capacities)
    requires
        terms.hold(model),
    ensures
        terms.hold(model.removed_cleared(capacities).0),
{
    let gone = model.ledger.order_by(on_removed_worker(capacities));
    lemma_unassigned(terms, model.ledger, gone);
}

proof fn lemma_deferred(terms: Terms, model: Model, session: Seq<char>, now: u64, keep: bool)
    requires
        terms.hold(model),
    ensures
        terms.hold(model.deferred(session, now, keep).0),
{
    let ledger = model.ledger;
    if ledger.programs.contains_key(session) {
        let program = ledger.programs[session];
        let deferred = Program {
            lifecycle: ProgramLifecycle::Paused,
            deferred_since: match program.deferred_since {
                Some(since) => Some(since),
                None => Some(now),
            },
            assigned_worker: if keep {
                program.assigned_worker
            } else {
                None
            },
            ..program
        };
        lemma_resized(terms, ledger, session, deferred);
    }
}

proof fn lemma_begun(terms: Terms, model: Model, id: Seq<char>)
    requires
        terms.hold(model),
        model.requests.contains_key(id),
        model.can_begin(id),
    ensures
        terms.hold(model.begun(id)),
        model.begun(id).requests.contains_key(id),
{
    let request = model.requests[id];
    if !request.began {
        let roomy = model.room_made(request.session);
        let programs = roomy.ledger.programs;
        lemma_room_made(terms, model, request.session);
        assert(terms.cover_request(request));
        let program = if programs.contains_key(request.session) {
            programs[request.session].next_turn(request.input_tokens)
        } else {
            Program::first_turn(request.input_tokens)
        };
        lemma_with(
            terms,
            roomy.ledger,
            request.session,
            program,
        );
        let next = model.begun(id);
        assert forall|other: Seq<char>| #[trigger]
            next.requests.contains_key(other) implies terms.cover_request(
            next.requests[other],
        ) by {
            if other != id {
                assert(model.requests.contains_key(other));
            }
        }
    }
}

proof fn lemma_released(
    terms: Terms,
    model: Model,
    id: Seq<char>,
    worker: Option<WorkerWithDpRank>,
)
    requires
        terms.hold(model),
    ensures
        terms.hold(model.released(id, worker).0),
{
    if model.can_release(id) {
        let request = model.requests[id];
        let running = Program {
            lifecycle: ProgramLifecycle::Active,
            deferred_since: None,
            ..model.ledger.programs[request.session]
        };
        lemma_without(terms, model.ledger, request.session);
        lemma_resized(terms, model.ledger, request.session, running);
        let next = model.released(id, worker).0;
        assert forall|other: Seq<char>| #[trigger]
            next.requests.contains_key(other) implies terms.cover_request(
            next.requests[other],
        ) by {
            assert(model.requests.contains_key(other));
        }
    }
}

proof fn lemma_decided(terms: Terms, model: Model, id: Seq<char>, capacities: Capacities, now: u64)
    requires
        terms.hold(model),
    ensures
        terms.hold(model.decided(id, capacities, now).0),
{
    let request = model.requests[id];
    let session = request.session;
    if model.ledger.programs.contains_key(session) {
        let program = model.ledger.programs[session];
        lemma_deferred(terms, model, session, now, program.assigned_worker is Some);
        lemma_released(terms, model, id, None);
        lemma_released(terms, model, id, program.assigned_worker);
        lemma_assigned(terms, model.ledger, session, None);
        let free = model.with_ledger(
            if program.assigned_worker is Some {
                model.ledger.assigned(session, None)
            } else {
                model.ledger
            },
        );
        let required = request.input_tokens.saturating_add(model.config.buffer_per_program);
        lemma_deferred(terms, free, session, now, false);
        lemma_released(terms, free, id, free.ledger.admission_worker(capacities, required));
    }
}

proof fn lemma_admitted(
    terms: Terms,
    model: Model,
    id: Seq<char>,
    capacities: Capacities,
    now: u64,
)
    requires
        terms.hold(model),
    ensures
        terms.hold(model.admitted(id, capacities, now).0),
{
    if model.is_next(id) && model.can_begin(id) {
        lemma_begun(terms, model, id);
        lemma_decided(terms, model.begun(id), id, capacities, now);
    }
}

proof fn lemma_all_admitted(
    terms: Terms,
    model: Model,
    ids: Seq<Seq<char>>,
    capacities: Capacities,
    now: u64,
)
    requires
        terms.hold(model),
    ensures
        terms.hold(model.all_admitted(ids, capacities, now).0),
    decreases ids.len(),
{
    if ids.len() > 0 {
        lemma_admitted(terms, model, ids[0], capacities, now);
        lemma_all_admitted(
            terms,
            model.admitted(ids[0], capacities, now).0,
            ids.drop_first(),
            capacities,
            now,
        );
    }
}

proof fn lemma_resumed(
    terms: Terms,
    model: Model,
    session: Seq<char>,
    worker: Option<WorkerWithDpRank>,
)
    requires
        terms.hold(model),
    ensures
        terms.hold(model.resumed(session, worker).0),
{
    if model.ledger.programs.contains_key(session) {
        let program = Program {
            lifecycle: ProgramLifecycle::Active,
            deferred_since: None,
            assigned_worker: worker,
            ..model.ledger.programs[session]
        };
        lemma_resized(terms, model.ledger, session, program);
        if let Some(id) = model.pending(session) {
            lemma_released(
                terms,
                model.with_ledger(model.ledger.with(session, program)),
                id,
                worker,
            );
        }
    }
}

proof fn lemma_packed(
    terms: Terms,
    model: Model,
    rooms: Seq<Room>,
    decays: Map<Seq<char>, usize>,
    decayed: Map<WorkerWithDpRank, usize>,
    order: Seq<Rank>,
)
    requires
        terms.hold(model),
    ensures
        terms.hold(model.packed(rooms, decays, decayed, order).model),
    decreases order.len(),
{
    if order.len() > 0 {
        let name = order[0].name;
        let rest = order.drop_first();
        let seat = if model.ledger.programs.contains_key(name) {
            best_room(
                rooms,
                model.ledger.required(name),
                model.ledger.programs[name].assigned_worker,
            )
        } else {
            None
        };
        match seat {
            None => lemma_packed(terms, model, rooms, decays, decayed, rest),
            Some(at) => {
                let room = rooms[at];
                let (after, changed) = model.resumed(name, Some(room.worker));
                lemma_resumed(terms, model, name, Some(room.worker));
                if !changed || !after.ledger.programs.contains_key(name) {
                    lemma_packed(terms, after, rooms, decays, decayed, rest);
                } else {
                    let left = (room.available - model.ledger.required(name)) as usize;
                    let tokens = decayed_tokens(decays, name, after.ledger.programs[name]);
                    lemma_packed(
                        terms,
                        after,
                        rooms.update(at, Room { available: left, ..room }),
                        decays,
                        decayed_more(decayed, room.worker, tokens, model.ledger.buffer),
                        rest,
                    );
                }
            },
        }
    }
}

proof fn lemma_forced(
    terms: Terms,
    model: Model,
    capacities: Capacities,
    decays: Map<Seq<char>, usize>,
    decayed: Map<WorkerWithDpRank, usize>,
    order: Seq<Rank>,
)
    requires
        terms.hold(model),
    ensures
        terms.hold(model.forced(capacities, decays, decayed, order).0),
    decreases order.len(),
{
    if order.len() > 0 {
        let name = order[0].name;
        let rest = order.drop_first();
        let known = model.ledger.programs.contains_key(name);
        let target = forced_target(
            capacities,
            decayed,
            model.ledger.programs[name].assigned_worker,
        );
        if !known || (target is None && !capacities.has_live_worker()) {
            lemma_forced(terms, model, capacities, decays, decayed, rest);
        } else {
            let (after, changed) = model.resumed(name, target);
            lemma_resumed(terms, model, name, target);
            lemma_forced(
                terms,
                after,
                capacities,
                decays,
                match target {
                    Some(worker) if changed && after.ledger.programs.contains_key(name) =>
                        decayed_more(
                        decayed,
                        worker,
                        decayed_tokens(decays, name, after.ledger.programs[name]),
                        model.ledger.buffer,
                    ),
                    _ => decayed,
                },
                rest,
            );
        }
    }
}

proof fn lemma_before_resuming(terms: Terms, model: Model, capacities: Capacities, now: u64)
    requires
        terms.hold(model),
    ensures
        terms.hold(model.before_resuming(capacities, now)),
{
    let timed = Model {
        next_reconcile_at: (now + model.config.scheduler_interval) as u128,
        ..model
    };
    lemma_expired(terms, timed, now);
    lemma_removed_cleared(terms, timed.programs_expired(now).0, capacities);
    let cleared = model.before_admitting(capacities, now);
    lemma_all_admitted(terms, cleared, cleared.candidates(), capacities, now);
}

proof fn lemma_reconciled(
    terms: Terms,
    model: Model,
    capacities: Capacities,
    decays: Map<Seq<char>, usize>,
    now: u64,
)
    requires
        terms.hold(model),
    ensures
        terms.hold(model.reconciled(capacities, decays, now).0),
{
    let admitted = model.before_resuming(capacities, now);
    lemma_before_resuming(terms, model, capacities, now);
    let decayed = admitted.ledger.decayed_usage(
        decays,
        Map::empty(),
        admitted.ledger.order_by(running()),
    );
    let rooms = admitted.ledger.rooms(capacities, capacities.cards.len());
    let chosen = admitted.ledger.resumable(rooms);
    let packing = admitted.programs_resumed(capacities, decays, decayed);
    lemma_packed(
        terms,
        admitted,
        rooms,
        decays,
        decayed,
        admitted.ledger.order_by(largest_first(chosen)),
    );
    let late = packing.model.ledger.order_by(
        timed_out(now, packing.model.config.resume_timeout),
    );
    let forced = packing.model.forced(capacities, decays, packing.decayed, late).0;
    lemma_forced(terms, packing.model, capacities, decays, packing.decayed, late);
    lemma_all_relieved(
        terms,
        forced.ledger,
        capacities.cards,
    );
}

proof fn lemma_registered(
    terms: Terms,
    model: Model,
    id: Seq<char>,
    session: Seq<char>,
    input_tokens: usize,
    session_final: bool,
    capacities: Capacities,
    now: u64,
)
    requires
        terms.hold(model),
        terms.allow_turn(input_tokens),
    ensures
        terms.hold(
            model.registered(id, session, input_tokens, session_final, capacities, now),
        ),
{
    lemma_expired(terms, model, now);
    let kept = model.programs_expired(now).0;
    lemma_room_made(terms, kept, session);
    let roomy = kept.room_made(session);
    lemma_removed_cleared(terms, roomy, capacities);
    let cleared = roomy.removed_cleared(capacities).0;
    let queued = cleared.enqueued(id, session, input_tokens, session_final);
    assert forall|other: Seq<char>| #[trigger]
        queued.requests.contains_key(other) implies terms.cover_request(queued.requests[other]) by {
        if other != id {
            assert(cleared.requests.contains_key(other));
        }
    }
    lemma_admitted(terms, queued, id, capacities, now);
}

/// The context that a completed request leaves behind.
pub open spec fn final_total(request: Request, context_tokens: Option<usize>) -> usize {
    match context_tokens {
        Some(tokens) => tokens,
        None => request.input_tokens,
    }
}

proof fn lemma_settled(terms: Terms, model: Model, request: Request, outcome: Outcome, now: u64)
    requires
        terms.hold(model),
        terms.cover_request(request),
        request.began && !Model::took_program(request) ==> model.ledger.programs.contains_key(
            request.session,
        ),
        outcome matches Outcome::Completed { context_tokens, acting_tokens } ==> forall|
            program: Program,
        |
            (terms.meets)(program) ==> (terms.meets)(
                #[trigger] program.turn_done(
                    final_total(request, context_tokens),
                    acting_tokens,
                    now,
                ),
            ),
    ensures
        terms.hold(model.settled(request, outcome, now)),
{
    let session = request.session;
    let ledger = model.ledger;
    match outcome {
        Outcome::Completed { context_tokens, acting_tokens } if request.phase
            == RequestPhase::Released => {
            if !request.session_final && ledger.programs.contains_key(session) {
                let done = ledger.programs[session].turn_done(
                    final_total(request, context_tokens),
                    acting_tokens,
                    now,
                );
                lemma_with(terms, ledger, session, done);
                lemma_paused(terms, ledger.with(session, done), session);
            }
        },
        _ => {
            if request.began && !Model::took_program(request) {
                lemma_without(terms, ledger, session);
                if let Some(prior) = request.prior {
                    lemma_with(terms, ledger, session, prior);
                }
            }
        },
    }
}

proof fn lemma_finished(
    terms: Terms,
    model: Model,
    id: Seq<char>,
    outcome: Outcome,
    capacities: Capacities,
    now: u64,
)
    requires
        terms.hold(model),
        model.sound(),
        model.requests.contains_key(id),
        outcome matches Outcome::Completed { context_tokens, acting_tokens } ==> forall|
            program: Program,
        |
            (terms.meets)(program) ==> (terms.meets)(
                #[trigger] program.turn_done(
                    final_total(model.requests[id], context_tokens),
                    acting_tokens,
                    now,
                ),
            ),
    ensures
        terms.hold(model.finished(id, outcome, capacities, now).0),
{
    let request = model.requests[id];
    let shorter = model.dequeued(id);
    assert(shorter.ledger == model.ledger);
    assert forall|other: Seq<char>| #[trigger]
        shorter.requests.contains_key(other) implies terms.cover_request(
        shorter.requests[other],
    ) by {
        assert(model.requests.contains_key(other));
    }
    lemma_settled(terms, shorter, request, outcome, now);
    let settled = shorter.settled(request, outcome, now);
    if let Some(next) = settled.pending(request.session) {
        lemma_admitted(terms, settled, next, capacities, now);
    }
    let admitted = settled.next_admitted(request.session, capacities, now);
    let next = model.finished(id, outcome, capacities, now).0;
    assert(next.ledger == admitted.ledger && next.requests == admitted.requests && next.config
        == admitted.config);
}

proof fn lemma_sent(
    terms: Terms,
    model: Model,
    id: Seq<char>,
    worker: WorkerWithDpRank,
    now: u64,
)
    requires
        terms.hold(model),
    ensures
        terms.hold(model.sent(id, worker, now).0),
{
    lemma_assigned(
        terms,
        model.ledger,
        model.requests[id].session,
        Some(worker),
    );
}

/// No tokens of a program are above a cap.
pub open spec fn is_within(program: Program, cap: usize) -> bool {
    program.token_total <= cap && program.acting_tokens <= cap
}

/// No program is charged more between turns than it holds.
pub open spec fn weighs_no_more(ledger: Ledger) -> bool {
    forall|name: Seq<char>| #[trigger]
        ledger.programs.contains_key(name) ==> ledger.programs[name].charged_tokens()
            <= ledger.programs[name].token_total
}

impl Model {
    /// All programs and requests are within a cap that leaves room for as many programs as may be
    /// tracked, with their headroom, on a single worker.
    pub open spec fn tokens_within(self, cap: usize) -> bool {
        &&& (cap + self.ledger.buffer) * self.config.max_tracked_requests <= usize::MAX
        &&& forall|name: Seq<char>| #[trigger]
            self.ledger.programs.contains_key(name) ==> is_within(self.ledger.programs[name], cap)
        &&& forall|id: Seq<char>| #[trigger]
            self.requests.contains_key(id) ==> self.requests[id].input_tokens <= cap && (
            self.requests[id].prior matches Some(prior) ==> is_within(prior, cap))
    }

    /// No program, nor one that an aborted request brings back, is charged more than it holds.
    pub open spec fn weights_kept(self) -> bool {
        &&& weighs_no_more(self.ledger)
        &&& forall|id: Seq<char>| #[trigger]
            self.requests.contains_key(id) ==> (
            self.requests[id].prior matches Some(prior) ==> prior.charged_tokens()
                <= prior.token_total)
    }
}

spec fn size_terms(model: Model, cap: usize) -> Terms {
    Terms {
        meets: |program: Program| is_within(program, cap),
        share: Some((cap + model.ledger.buffer) as nat),
        buffer: model.ledger.buffer,
        limit: model.config.max_tracked_requests,
    }
}

spec fn weight_terms(model: Model) -> Terms {
    Terms {
        meets: |program: Program| program.charged_tokens() <= program.token_total,
        share: None,
        buffer: model.ledger.buffer,
        limit: model.config.max_tracked_requests,
    }
}

proof fn lemma_size_terms(model: Model, cap: usize)
    requires
        model.sound(),
        model.tokens_within(cap),
        usage_is_exact(model.ledger),
    ensures
        size_terms(model, cap).hold(model),
{
    let terms = size_terms(model, cap);
    assert forall|id: Seq<char>| #[trigger] model.requests.contains_key(id) implies
        terms.cover_request(model.requests[id]) by {
    }
}

/// What a step leaves of the terms is the law again.
proof fn lemma_sizes_kept(model: Model, next: Model, cap: usize)
    requires
        model.tokens_within(cap),
        size_terms(model, cap).hold(next),
    ensures
        next.tokens_within(cap),
        usage_is_exact(next.ledger),
{
    let terms = size_terms(model, cap);
    assert forall|id: Seq<char>| #[trigger] next.requests.contains_key(id) implies
        next.requests[id].input_tokens <= cap && (next.requests[id].prior matches Some(prior)
        ==> is_within(prior, cap)) by {
        assert(terms.cover_request(next.requests[id]));
        assert((terms.meets)(Program::first_turn(next.requests[id].input_tokens)));
    }
    assert forall|name: Seq<char>| #[trigger] next.ledger.programs.contains_key(name) implies
        is_within(next.ledger.programs[name], cap) by {
        assert((terms.meets)(next.ledger.programs[name]));
    }
}

proof fn lemma_weight_terms(model: Model)
    requires
        model.sound(),
        model.weights_kept(),
    ensures
        weight_terms(model).hold(model),
{
    let terms = weight_terms(model);
    assert forall|id: Seq<char>| #[trigger] model.requests.contains_key(id) implies
        terms.cover_request(model.requests[id]) by {
    }
}

proof fn lemma_weights_kept(model: Model, next: Model)
    requires
        weight_terms(model).hold(next),
    ensures
        next.weights_kept(),
{
    let terms = weight_terms(model);
    assert forall|id: Seq<char>| #[trigger] next.requests.contains_key(id) implies (
    next.requests[id].prior matches Some(prior) ==> prior.charged_tokens() <= prior.token_total) by {
        assert(terms.cover_request(next.requests[id]));
    }
    assert forall|name: Seq<char>| #[trigger] next.ledger.programs.contains_key(name) implies
        next.ledger.programs[name].charged_tokens() <= next.ledger.programs[name].token_total by {
        assert((terms.meets)(next.ledger.programs[name]));
    }
}

/// A new state's usage is exact.
pub proof fn lemma_fresh_usage_is_exact(config: ThunderAgentConfig, now: u64, cap: usize)
    ensures
        usage_is_exact(Model::fresh(config, now).ledger),
        (cap + config.buffer_per_program) * config.max_tracked_requests <= usize::MAX
            ==> Model::fresh(config, now).tokens_within(cap),
{
    let ledger = Model::fresh(config, now).ledger;
    assert(ledger.programs.dom() =~= Set::empty());
}

/// The end of retention, all that a refused request brings about, keeps usage exact.
pub proof fn lemma_expiring_keeps_usage_exact(model: Model, now: u64, cap: usize)
    requires
        model.sound(),
        model.tokens_within(cap),
        usage_is_exact(model.ledger),
    ensures
        usage_is_exact(model.programs_expired(now).0.ledger),
        model.programs_expired(now).0.tokens_within(cap),
{
    lemma_size_terms(model, cap);
    lemma_expired(size_terms(model, cap), model, now);
    lemma_sizes_kept(model, model.programs_expired(now).0, cap);
}

/// Taking up a request within the cap keeps usage exact.
pub proof fn lemma_registering_keeps_usage_exact(
    model: Model,
    id: Seq<char>,
    session: Seq<char>,
    input_tokens: usize,
    session_final: bool,
    capacities: Capacities,
    now: u64,
    cap: usize,
)
    requires
        model.sound(),
        model.tokens_within(cap),
        usage_is_exact(model.ledger),
        input_tokens <= cap,
    ensures
        usage_is_exact(model.registered(id, session, input_tokens, session_final, capacities, now).ledger),
        model.registered(id, session, input_tokens, session_final, capacities, now).tokens_within(cap),
{
    let terms = size_terms(model, cap);
    let next = model.registered(id, session, input_tokens, session_final, capacities, now);
    lemma_size_terms(model, cap);
    assert(terms.allow_turn(input_tokens));
    lemma_registered(terms, model, id, session, input_tokens, session_final, capacities, now);
    lemma_sizes_kept(model, next, cap);
}

/// A release keeps usage exact.
pub proof fn lemma_releasing_keeps_usage_exact(
    model: Model,
    id: Seq<char>,
    worker: Option<WorkerWithDpRank>,
    cap: usize,
)
    requires
        model.sound(),
        model.tokens_within(cap),
        usage_is_exact(model.ledger),
    ensures
        usage_is_exact(model.released(id, worker).0.ledger),
        model.released(id, worker).0.tokens_within(cap),
{
    lemma_size_terms(model, cap);
    lemma_released(size_terms(model, cap), model, id, worker);
    lemma_sizes_kept(model, model.released(id, worker).0, cap);
}

/// The periodic step keeps usage exact.
pub proof fn lemma_reconciling_keeps_usage_exact(
    model: Model,
    capacities: Capacities,
    decays: Map<Seq<char>, usize>,
    now: u64,
    cap: usize,
)
    requires
        model.sound(),
        model.tokens_within(cap),
        usage_is_exact(model.ledger),
    ensures
        usage_is_exact(model.reconciled(capacities, decays, now).0.ledger),
        model.reconciled(capacities, decays, now).0.tokens_within(cap),
{
    let terms = size_terms(model, cap);
    let next = model.reconciled(capacities, decays, now).0;
    lemma_size_terms(model, cap);
    lemma_reconciled(terms, model, capacities, decays, now);
    lemma_sizes_kept(model, next, cap);
}

/// The end of a request within the cap keeps usage exact.
pub proof fn lemma_finishing_keeps_usage_exact(
    model: Model,
    id: Seq<char>,
    outcome: Outcome,
    capacities: Capacities,
    now: u64,
    cap: usize,
)
    requires
        model.sound(),
        model.tokens_within(cap),
        usage_is_exact(model.ledger),
        outcome matches Outcome::Completed { context_tokens, acting_tokens } ==> (
        context_tokens matches Some(tokens) ==> tokens <= cap) && acting_tokens <= cap,
    ensures
        usage_is_exact(model.finished(id, outcome, capacities, now).0.ledger),
        model.finished(id, outcome, capacities, now).0.tokens_within(cap),
{
    if model.requests.contains_key(id) {
        let terms = size_terms(model, cap);
        let next = model.finished(id, outcome, capacities, now).0;
        lemma_size_terms(model, cap);
        lemma_finished(terms, model, id, outcome, capacities, now);
        lemma_sizes_kept(model, next, cap);
    }
}

/// Sending a request keeps usage exact.
pub proof fn lemma_sending_keeps_usage_exact(
    model: Model,
    id: Seq<char>,
    worker: WorkerWithDpRank,
    now: u64,
    cap: usize,
)
    requires
        model.sound(),
        model.tokens_within(cap),
        usage_is_exact(model.ledger),
    ensures
        usage_is_exact(model.sent(id, worker, now).0.ledger),
        model.sent(id, worker, now).0.tokens_within(cap),
{
    let terms = size_terms(model, cap);
    let next = model.sent(id, worker, now).0;
    lemma_size_terms(model, cap);
    lemma_sent(terms, model, id, worker, now);
    lemma_sizes_kept(model, next, cap);
}

/// In a new state no program is charged more than it holds.
pub proof fn lemma_fresh_weights(config: ThunderAgentConfig, now: u64)
    ensures
        Model::fresh(config, now).weights_kept(),
{
}

/// The end of retention, all that a refused request brings about, charges no program more than it
/// holds.
pub proof fn lemma_expiring_keeps_weights(model: Model, now: u64)
    requires
        model.sound(),
        model.weights_kept(),
    ensures
        model.programs_expired(now).0.weights_kept(),
{
    lemma_weight_terms(model);
    lemma_expired(weight_terms(model), model, now);
    lemma_weights_kept(model, model.programs_expired(now).0);
}

/// The admissions of the periodic step charge no program more than it holds.
pub proof fn lemma_admitting_keeps_weights(model: Model, capacities: Capacities, now: u64)
    requires
        model.sound(),
        model.weights_kept(),
    ensures
        model.before_resuming(capacities, now).weights_kept(),
{
    lemma_weight_terms(model);
    lemma_before_resuming(weight_terms(model), model, capacities, now);
    lemma_weights_kept(model, model.before_resuming(capacities, now));
}

/// Taking up a request charges no program more than it holds.
pub proof fn lemma_registering_keeps_weights(
    model: Model,
    id: Seq<char>,
    session: Seq<char>,
    input_tokens: usize,
    session_final: bool,
    capacities: Capacities,
    now: u64,
)
    requires
        model.sound(),
        model.weights_kept(),
    ensures
        model.registered(id, session, input_tokens, session_final, capacities, now).weights_kept(),
{
    let next = model.registered(id, session, input_tokens, session_final, capacities, now);
    lemma_weight_terms(model);
    assert(weight_terms(model).allow_turn(input_tokens));
    lemma_registered(weight_terms(model), model, id, session, input_tokens, session_final, capacities, now);
    lemma_weights_kept(model, next);
}

/// A release charges no program more than it holds.
pub proof fn lemma_releasing_keeps_weights(
    model: Model,
    id: Seq<char>,
    worker: Option<WorkerWithDpRank>,
)
    requires
        model.sound(),
        model.weights_kept(),
    ensures
        model.released(id, worker).0.weights_kept(),
{
    lemma_weight_terms(model);
    lemma_released(weight_terms(model), model, id, worker);
    lemma_weights_kept(model, model.released(id, worker).0);
}

/// The periodic step charges no program more than it holds.
pub proof fn lemma_reconciling_keeps_weights(
    model: Model,
    capacities: Capacities,
    decays: Map<Seq<char>, usize>,
    now: u64,
)
    requires
        model.sound(),
        model.weights_kept(),
    ensures
        model.reconciled(capacities, decays, now).0.weights_kept(),
{
    let next = model.reconciled(capacities, decays, now).0;
    lemma_weight_terms(model);
    lemma_reconciled(weight_terms(model), model, capacities, decays, now);
    lemma_weights_kept(model, next);
}

/// The end of a request charges no program more than it holds where the weighted context is at most the whole.
pub proof fn lemma_finishing_keeps_weights(
    model: Model,
    id: Seq<char>,
    outcome: Outcome,
    capacities: Capacities,
    now: u64,
)
    requires
        model.sound(),
        model.weights_kept(),
        model.requests.contains_key(id) ==> (outcome matches Outcome::Completed {
            context_tokens,
            acting_tokens,
        } ==> acting_tokens <= final_total(model.requests[id], context_tokens)),
    ensures
        model.finished(id, outcome, capacities, now).0.weights_kept(),
{
    if model.requests.contains_key(id) {
        let next = model.finished(id, outcome, capacities, now).0;
        lemma_weight_terms(model);
        lemma_finished(weight_terms(model), model, id, outcome, capacities, now);
        lemma_weights_kept(model, next);
    }
}

/// Sending a request charges no program more than it holds.
pub proof fn lemma_sending_keeps_weights(
    model: Model,
    id: Seq<char>,
    worker: WorkerWithDpRank,
    now: u64,
)
    requires
        model.sound(),
        model.weights_kept(),
    ensures
        model.sent(id, worker, now).0.weights_kept(),
{
    let next = model.sent(id, worker, now).0;
    lemma_weight_terms(model);
    lemma_sent(weight_terms(model), model, id, worker, now);
    lemma_weights_kept(model, next);
}

} // verus!
