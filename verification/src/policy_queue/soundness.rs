//! What holds of the policy's state at all times.
use vstd::prelude::*;
use vstd::set_lib::{lemma_int_range, lemma_set_subset_finite, set_int_range};

use crate::choice::pick;
use crate::policy_queue::indexed::{
    has_name, place_of_name, program_of, with_item, with_program, without_item, ProgramEntry,
};
use crate::policy_queue::model::{
    latest_reports, more_spare_worker, open_rooms, outlived, overdue, picked_worker,
    resume_fairness, roomiest, stranded, taking_workers, usage_at, usage_of, usage_without,
    PolicyQueueWorker, QueueModel, QueueRequest, QueueSession,
};
use crate::policy_queue::programs::{
    distinct, entry_names, lemma_entry, lemma_with_program, lemma_without_program, placed_order,
    placed_ranks,
};
use crate::ranking::{lemma_listing_exists, Rank};
use crate::thunderagent::config::ThunderAgentConfig;
use crate::thunderagent::order::Keys;
use crate::thunderagent::placement::Room;
use crate::thunderagent::program::{Program, ProgramLifecycle, ProgramStatus};
use crate::thunderagent::relief::on_worker;
use crate::thunderagent::usage::WorkerUsage;
use crate::worker::WorkerWithDpRank;

verus! {

impl QueueModel {
    /// The worker that a session is assigned to.
    pub open spec fn assignment(self, session: Seq<char>) -> Option<WorkerWithDpRank> {
        if self.assignments.contains_key(session) {
            Some(self.assignments[session])
        } else {
            None
        }
    }

    /// Whether a session's program is paused.
    pub open spec fn is_paused(self, session: Seq<char>) -> bool {
        self.program(session) matches Some(program) && program.lifecycle
            == ProgramLifecycle::Paused
    }

    /// The worker of a session's program.
    pub open spec fn program_worker(self, session: Seq<char>) -> Option<WorkerWithDpRank> {
        match self.program(session) {
            Some(program) => program.assigned_worker,
            None => None,
        }
    }

    /// The paused sessions and the assignments are those of the programs.
    pub open spec fn tables_agree(self) -> bool {
        &&& distinct(self.programs)
        &&& self.paused.no_duplicates()
        &&& forall|session: Seq<char>|
            #![trigger self.paused.contains(session)]
            #![trigger self.is_paused(session)]
            self.paused.contains(session) <==> self.is_paused(session)
        &&& forall|session: Seq<char>| #[trigger]
            self.assignment(session) == self.program_worker(session)
    }

    /// A session's request has its turn and is tracked, and the session has a program.
    pub open spec fn has_turn(self, session: Seq<char>) -> bool {
        &&& self.sessions[session].current is Some
        &&& self.requests.contains_key(self.sessions[session].current->0)
        &&& self.requests[self.sessions[session].current->0].session == session
        &&& self.program(session) is Some
    }

    /// The requests that wait in a session are tracked, each once.
    pub open spec fn queue_is_tracked(self, session: Seq<char>) -> bool {
        &&& self.sessions[session].waiting.no_duplicates()
        &&& forall|id: u64| #[trigger]
            self.sessions[session].waiting.contains(id) ==> self.requests.contains_key(id)
                && self.requests[id].session == session && self.sessions[session].current
                != Some(id)
    }

    /// Every session but one has a request whose turn it is, and all queues are tracked.
    pub open spec fn turns_agree_but(self, exempt: Option<Seq<char>>) -> bool {
        forall|session: Seq<char>| #[trigger]
            self.sessions.contains_key(session) ==> self.queue_is_tracked(session) && (
            exempt == Some(session) || self.has_turn(session))
    }

    /// Tracked requests and request ids belong together.
    pub open spec fn ids_agree(self) -> bool {
        &&& forall|request_id: Seq<char>| #[trigger]
            self.request_ids.contains_key(request_id) ==> self.requests.contains_key(
                self.request_ids[request_id],
            ) && self.requests[self.request_ids[request_id]].request_id == request_id
        &&& forall|id: u64| #[trigger]
            self.requests.contains_key(id) ==> self.request_ids.contains_key(
                self.requests[id].request_id,
            ) && self.request_ids[self.requests[id].request_id] == id
    }

    /// The state is consistent.
    pub open spec fn sound(self) -> bool {
        &&& self.tables_agree()
        &&& self.turns_agree_but(None)
        &&& self.ids_agree()
    }

    /// Two states agree on requests and turns.
    pub open spec fn same_turns(self, other: QueueModel) -> bool {
        &&& self.requests == other.requests
        &&& self.request_ids == other.request_ids
        &&& self.sessions == other.sessions
    }

    /// Another state has the same turns, programs for the same sessions, and tables that agree.
    pub open spec fn keeps(self, next: QueueModel) -> bool {
        &&& next.tables_agree()
        &&& next.same_turns(self)
        &&& forall|session: Seq<char>|
            #![trigger next.program(session)]
            next.program(session) is Some <==> self.program(session) is Some
    }

    /// A session's program is set, with all that goes with it.
    spec fn set(self, session: Seq<char>, program: Program) -> QueueModel {
        QueueModel {
            programs: with_program(self.programs, session, program),
            paused: if program.lifecycle == ProgramLifecycle::Paused {
                with_item(self.paused, session)
            } else {
                without_item(self.paused, session)
            },
            assignments: self.with_assignment(session, program.assigned_worker),
            ..self
        }
    }
}

pub proof fn lemma_with_item(items: Seq<Seq<char>>, item: Seq<char>)
    requires
        items.no_duplicates(),
    ensures
        with_item(items, item).no_duplicates(),
        forall|other: Seq<char>| #[trigger]
            with_item(items, item).contains(other) <==> items.contains(other) || other == item,
{
    let next = with_item(items, item);
    if !items.contains(item) {
        assert forall|other: Seq<char>| #[trigger]
            next.contains(other) <==> items.contains(other) || other == item by {
            if items.contains(other) {
                let k = choose|k: int| 0 <= k < items.len() && items[k] == other;
                assert(next[k] == other);
            }
            assert(next[items.len() as int] == item);
        }
    }
}

proof fn lemma_without_item<T>(items: Seq<T>, item: T)
    requires
        items.no_duplicates(),
    ensures
        without_item(items, item).no_duplicates(),
        forall|other: T| #[trigger]
            without_item(items, item).contains(other) <==> items.contains(other) && other != item,
{
    let next = without_item(items, item);
    if items.contains(item) {
        let at = items.index_of(item);
        assert(items[at] == item);
        assert forall|other: T| #[trigger]
            next.contains(other) <==> items.contains(other) && other != item by {
            if items.contains(other) && other != item {
                let k = choose|k: int| 0 <= k < items.len() && items[k] == other;
                let moved = if k < at {
                    k
                } else {
                    k - 1
                };
                assert(next[moved] == other);
            }
            if next.contains(other) {
                let k = choose|k: int| 0 <= k < next.len() && next[k] == other;
                let from = if k < at {
                    k
                } else {
                    k + 1
                };
                assert(items[from] == other);
                assert(from != at);
            }
        }
    }
}

/// Setting a program keeps the tables in agreement.
proof fn lemma_set(model: QueueModel, session: Seq<char>, program: Program)
    requires
        model.tables_agree(),
    ensures
        model.set(session, program).tables_agree(),
        model.set(session, program).program(session) == Some(program),
        forall|other: Seq<char>|
            other != session ==> #[trigger] model.set(session, program).program(other)
                == model.program(other),
{
    let next = model.set(session, program);
    lemma_with_program(model.programs, session, program);
    lemma_with_item(model.paused, session);
    lemma_without_item(model.paused, session);
    assert forall|other: Seq<char>|
        #![trigger next.paused.contains(other)]
        #![trigger next.is_paused(other)]
        next.paused.contains(other) <==> next.is_paused(other) by {
        assert(model.paused.contains(other) <==> model.is_paused(other));
        if other != session {
            assert(next.program(other) == model.program(other));
        }
    }
    assert forall|other: Seq<char>| #[trigger] next.assignment(other) == next.program_worker(
        other,
    ) by {
        assert(model.assignment(other) == model.program_worker(other));
        if other != session {
            assert(next.program(other) == model.program(other));
        }
    }
}

/// Setting a program twice is setting it once.
proof fn lemma_with_twice(entries: Seq<ProgramEntry>, name: Seq<char>, a: Program, b: Program)
    requires
        distinct(entries),
    ensures
        with_program(with_program(entries, name, a), name, b) == with_program(entries, name, b),
{
    let once = with_program(entries, name, a);
    lemma_with_program(entries, name, a);
    let at = if has_name(entries, name) {
        place_of_name(entries, name)
    } else {
        entries.len() as int
    };
    if has_name(entries, name) {
        lemma_entry(entries, at);
    }
    assert(once[at].0 == name);
    lemma_entry(once, at);
    assert(with_program(once, name, b) =~= with_program(entries, name, b));
}

/// What a session's paused state and assignment are needs no change.
proof fn lemma_settled_tables(model: QueueModel, session: Seq<char>, program: Program)
    requires
        model.tables_agree(),
        model.program(session) == Some(program),
    ensures
        program.lifecycle == ProgramLifecycle::Paused ==> with_item(model.paused, session)
            == model.paused,
        program.lifecycle != ProgramLifecycle::Paused ==> without_item(model.paused, session)
            == model.paused,
        model.with_assignment(session, program.assigned_worker) == model.assignments,
{
    assert(model.paused.contains(session) <==> model.is_paused(session));
    assert(model.assignment(session) == model.program_worker(session));
    assert(model.with_assignment(session, program.assigned_worker) =~= model.assignments);
}

proof fn lemma_assigned(model: QueueModel, session: Seq<char>, worker: Option<WorkerWithDpRank>)
    requires
        model.tables_agree(),
        model.program(session) is Some || worker is None,
    ensures
        model.keeps(model.assigned(session, worker)),
        forall|other: Seq<char>|
            other != session ==> #[trigger] model.assigned(session, worker).program(other) == model.program(
                other,
            ),
        model.program(session) matches Some(program) ==> model.assigned(session, worker)
            == model.set(session, Program { assigned_worker: worker, ..program }),
{
    let next = model.assigned(session, worker);
    if let Some(program) = model.program(session) {
        lemma_settled_tables(model, session, program);
        lemma_set(model, session, Program { assigned_worker: worker, ..program });
        assert(next =~= model.set(session, Program { assigned_worker: worker, ..program }));
    } else {
        assert(model.assignment(session) == model.program_worker(session));
        assert(next.assignments =~= model.assignments);
        assert(next =~= model);
    }
}

proof fn lemma_deferred(model: QueueModel, session: Seq<char>, now: u64, keep: bool)
    requires
        model.tables_agree(),
    ensures
        model.keeps(model.deferred(session, now, keep)),
        forall|other: Seq<char>|
            other != session ==> #[trigger] model.deferred(session, now, keep).program(other) == model.program(
                other,
            ),
{
    if let Some(program) = model.program(session) {
        let held = Program {
            lifecycle: ProgramLifecycle::Paused,
            deferred_since: Some(now),
            ..program
        };
        let last = if keep {
            held
        } else {
            Program { assigned_worker: None, ..held }
        };
        lemma_with_program(model.programs, session, held);
        lemma_with_twice(model.programs, session, held, last);
        lemma_settled_tables(model, session, program);
        lemma_set(model, session, last);
        assert(model.deferred(session, now, keep) =~= model.set(session, last));
    }
}

pub proof fn lemma_acting_paused(model: QueueModel, session: Seq<char>)
    requires
        model.tables_agree(),
    ensures
        model.keeps(model.acting_paused(session)),
        forall|other: Seq<char>|
            other != session ==> #[trigger] model.acting_paused(session).program(other)
                == model.program(other),
{
    if let Some(program) = model.program(session) {
        let held = Program { lifecycle: ProgramLifecycle::Paused, ..program };
        let last = Program { assigned_worker: None, ..held };
        lemma_with_program(model.programs, session, held);
        lemma_with_twice(model.programs, session, held, last);
        lemma_set(model, session, last);
        if program.lifecycle == ProgramLifecycle::Active && program.status
            == ProgramStatus::Acting {
            assert(model.acting_paused(session) =~= model.set(session, last));
        }
    }
}

pub proof fn lemma_resumed(model: QueueModel, session: Seq<char>, worker: Option<WorkerWithDpRank>)
    requires
        model.tables_agree(),
    ensures
        model.keeps(model.resumed(session, worker).0),
{
    if let Some(program) = model.program(session) {
        let held = Program {
            lifecycle: ProgramLifecycle::Active,
            deferred_since: None,
            ..program
        };
        let last = Program { assigned_worker: worker, ..held };
        lemma_with_program(model.programs, session, held);
        lemma_with_twice(model.programs, session, held, last);
        lemma_set(model, session, last);
        if program.lifecycle == ProgramLifecycle::Paused {
            assert(model.resumed(session, worker).0 =~= model.set(session, last));
        }
    }
}

pub proof fn lemma_without(model: QueueModel, session: Seq<char>)
    requires
        model.tables_agree(),
    ensures
        model.without(session).tables_agree(),
        model.without(session).same_turns(model),
        model.without(session).program(session) is None,
        forall|other: Seq<char>|
            other != session ==> #[trigger] model.without(session).program(other)
                == model.program(other),
{
    let next = model.without(session);
    lemma_without_program(model.programs, session);
    lemma_without_item(model.paused, session);
    assert forall|other: Seq<char>|
        #![trigger next.paused.contains(other)]
        #![trigger next.is_paused(other)]
        next.paused.contains(other) <==> next.is_paused(other) by {
        assert(model.paused.contains(other) <==> model.is_paused(other));
        if other != session {
            assert(next.program(other) == model.program(other));
        }
    }
    assert forall|other: Seq<char>| #[trigger] next.assignment(other) == next.program_worker(
        other,
    ) by {
        assert(model.assignment(other) == model.program_worker(other));
        if other != session {
            assert(next.program(other) == model.program(other));
        }
    }
}

/// Turns stay as they are while requests do and no session with requests loses its program.
proof fn lemma_turns_kept(model: QueueModel, next: QueueModel, exempt: Option<Seq<char>>)
    requires
        model.turns_agree_but(exempt),
        model.ids_agree(),
        next.same_turns(model),
        forall|session: Seq<char>|
            exempt != Some(session) && model.sessions.contains_key(session) && model.program(
                session,
            ) is Some ==> #[trigger] next.program(session) is Some,
    ensures
        next.turns_agree_but(exempt),
        next.ids_agree(),
{
    assert forall|session: Seq<char>| #[trigger]
        next.sessions.contains_key(session) implies next.queue_is_tracked(session) && (exempt
        == Some(session) || next.has_turn(session)) by {
        assert(model.sessions.contains_key(session));
        assert(model.queue_is_tracked(session));
        assert(next.queue_is_tracked(session)) by {
            assert forall|id: u64| #[trigger]
                next.sessions[session].waiting.contains(id) implies next.requests.contains_key(id)
                && next.requests[id].session == session && next.sessions[session].current
                != Some(id) by {
                assert(model.sessions[session].waiting.contains(id));
            }
        }
        if exempt != Some(session) {
            assert(model.has_turn(session));
        }
    }
    assert forall|id: u64| #[trigger] next.requests.contains_key(id) implies next.request_ids.contains_key(
        next.requests[id].request_id,
    ) && next.request_ids[next.requests[id].request_id] == id by {
        assert(model.requests.contains_key(id));
    }
    assert forall|request_id: Seq<char>| #[trigger]
        next.request_ids.contains_key(request_id) implies next.requests.contains_key(
        next.request_ids[request_id],
    ) && next.requests[next.request_ids[request_id]].request_id == request_id by {
        assert(model.request_ids.contains_key(request_id));
    }
}

/// Tables that are equal agree alike.
proof fn lemma_same_tables(model: QueueModel, next: QueueModel)
    requires
        model.tables_agree(),
        next.programs == model.programs,
        next.paused == model.paused,
        next.assignments == model.assignments,
    ensures
        next.tables_agree(),
        forall|session: Seq<char>| #[trigger] next.program(session) == model.program(session),
{
    assert forall|other: Seq<char>|
        #![trigger next.paused.contains(other)]
        #![trigger next.is_paused(other)]
        next.paused.contains(other) <==> next.is_paused(other) by {
        assert(model.paused.contains(other) <==> model.is_paused(other));
    }
    assert forall|other: Seq<char>| #[trigger] next.assignment(other) == next.program_worker(
        other,
    ) by {
        assert(model.assignment(other) == model.program_worker(other));
    }
}

proof fn lemma_placed(model: QueueModel, session: Seq<char>, tokens: usize, was_new: bool, now: u64)
    requires
        model.tables_agree(),
        model.program(session) is Some,
    ensures
        model.keeps(model.placed(session, tokens, was_new, now).0),
        forall|other: Seq<char>|
            other != session ==> #[trigger] model.placed(session, tokens, was_new, now).0.program(other) == model.program(
                other,
            ),
{
    let required = tokens.saturating_add(model.config.buffer_per_program);
    lemma_deferred(model, session, now, false);
    lemma_assigned(model, session, model.admission_worker(required));
}

/// A decision changes no turn, and no program but that of its session.
pub proof fn lemma_decided(model: QueueModel, id: u64, now: u64)
    requires
        model.tables_agree(),
    ensures
        model.keeps(model.decided(id, now).0),
        forall|other: Seq<char>|
            other != model.requests[id].session ==> #[trigger] model.decided(id, now).0.program(
                other,
            ) == model.program(other),
{
    let request = model.requests[id];
    let session = request.session;
    let was_new = request.prior is None;
    if let Some(program) = model.program(session) {
        lemma_deferred(model, session, now, false);
        lemma_deferred(model, session, now, true);
        lemma_assigned(model, session, None);
        lemma_placed(model, session, request.context_tokens, was_new, now);
        let moved = model.assigned(session, None);
        assert(moved.program(session) is Some);
        lemma_placed(moved, session, request.context_tokens, was_new, now);
    }
}

/// Beginning the turn of a request that does not wait leaves a consistent state.
pub proof fn lemma_begun(model: QueueModel, id: u64)
    requires
        model.tables_agree(),
        model.ids_agree(),
        model.requests.contains_key(id),
        model.turns_agree_but(Some(model.requests[id].session)),
        model.sessions.contains_key(model.requests[id].session)
            ==> !model.sessions[model.requests[id].session].waiting.contains(id),
    ensures
        model.begun(id).sound(),
        forall|other: Seq<char>|
            other != model.requests[id].session ==> #[trigger] model.begun(id).program(other)
                == model.program(other),
{
    let request = model.requests[id];
    let session = request.session;
    let next = model.begun(id);
    let program = match model.program(session) {
        Some(program) => program.next_turn(request.context_tokens),
        None => Program::first_turn(request.context_tokens),
    };
    lemma_set(model, session, program);
    let set = model.set(session, program);
    assert(model.paused.contains(session) <==> model.is_paused(session));
    assert(model.assignment(session) == model.program_worker(session));
    if let Some(prior) = model.program(session) {
        lemma_settled_tables(model, session, prior);
    }
    assert(set.assignments =~= next.assignments);
    lemma_same_tables(set, next);
    assert forall|other: Seq<char>| #[trigger]
        next.sessions.contains_key(other) implies next.queue_is_tracked(other) && next.has_turn(
        other,
    ) by {
        if other != session {
            assert(model.sessions.contains_key(other));
            assert(model.has_turn(other));
            assert(next.program(other) == set.program(other));
        }
        assert forall|waits: u64| #[trigger]
            next.sessions[other].waiting.contains(waits) implies next.requests.contains_key(waits)
            && next.requests[waits].session == other && next.sessions[other].current != Some(
            waits,
        ) by {
            assert(model.sessions.contains_key(other));
            assert(model.sessions[other].waiting.contains(waits));
        }
    }
    assert forall|some: u64| #[trigger]
        next.requests.contains_key(some) implies next.request_ids.contains_key(
        next.requests[some].request_id,
    ) && next.request_ids[next.requests[some].request_id] == some by {
        assert(model.requests.contains_key(some));
    }
    assert forall|request_id: Seq<char>| #[trigger]
        next.request_ids.contains_key(request_id) implies next.requests.contains_key(
        next.request_ids[request_id],
    ) && next.requests[next.request_ids[request_id]].request_id == request_id by {
        assert(model.request_ids.contains_key(request_id));
    }
}

proof fn lemma_turn_taken(model: QueueModel, id: u64, now: u64)
    requires
        model.tables_agree(),
        model.ids_agree(),
        model.requests.contains_key(id),
        model.turns_agree_but(Some(model.requests[id].session)),
        model.sessions.contains_key(model.requests[id].session)
            ==> !model.sessions[model.requests[id].session].waiting.contains(id),
    ensures
        model.turn_taken(id, now).0.sound(),
{
    lemma_begun(model, id);
    lemma_decided(model.begun(id), id, now);
    lemma_turns_kept(model.begun(id), model.begun(id).decided(id, now).0, None);
}

/// What keeps turns and programs keeps the state consistent.
pub proof fn lemma_kept_is_sound(model: QueueModel, next: QueueModel)
    requires
        model.sound(),
        model.keeps(next),
    ensures
        next.sound(),
{
    lemma_turns_kept(model, next, None);
}

proof fn lemma_unassigned(model: QueueModel, order: Seq<Rank>)
    requires
        model.tables_agree(),
    ensures
        model.keeps(model.unassigned(order)),
    decreases order.len(),
{
    if order.len() > 0 {
        let next = model.assigned(order[0].name, None);
        lemma_assigned(model, order[0].name, None);
        lemma_unassigned(next, order.drop_first());
    }
}

/// Reported workers change no turn.
pub proof fn lemma_workers_updated(model: QueueModel, workers: Seq<PolicyQueueWorker>)
    requires
        model.tables_agree(),
    ensures
        model.keeps(model.workers_updated(workers)),
{
    let seen = QueueModel { workers: latest_reports(workers), ..model };
    lemma_same_tables(model, seen);
    lemma_unassigned(
        seen,
        placed_order(entry_names(seen.programs), seen.programs, stranded(seen.workers)),
    );
}

/// The ranks of placed names are finitely many.
pub proof fn lemma_placed_ranks_finite(names: Seq<Seq<char>>, entries: Seq<ProgramEntry>, keys: Keys)
    ensures
        placed_ranks(names, entries, keys).finite(),
{
    let places = Set::new(|place: int| 0 <= place < names.len());
    lemma_int_range(0, names.len() as int);
    assert(places =~= set_int_range(0, names.len() as int));
    let rank_at = |place: int|
        Rank {
            major: (keys(names[place], program_of(entries, names[place])->0)->0).0,
            minor: (keys(names[place], program_of(entries, names[place])->0)->0).1,
            place: place as u64,
            name: names[place],
        };
    let all = places.map(rank_at);
    places.lemma_map_finite(rank_at);
    assert forall|rank: Rank| placed_ranks(names, entries, keys).contains(
        rank,
    ) implies all.contains(rank) by {
        assert(places.contains(rank.place as int));
        assert(rank_at(rank.place as int) == rank);
    }
    lemma_set_subset_finite(all, placed_ranks(names, entries, keys));
}

/// What is listed has a program with a key.
pub proof fn lemma_listed(names: Seq<Seq<char>>, entries: Seq<ProgramEntry>, keys: Keys, at: int)
    requires
        0 <= at < placed_order(names, entries, keys).len(),
    ensures
        program_of(entries, placed_order(names, entries, keys)[at].name) is Some,
        keys(
            placed_order(names, entries, keys)[at].name,
            program_of(entries, placed_order(names, entries, keys)[at].name)->0,
        ) is Some,
{
    let all = placed_ranks(names, entries, keys);
    let order = placed_order(names, entries, keys);
    lemma_placed_ranks_finite(names, entries, keys);
    lemma_listing_exists(all);
    assert(order.to_set().contains(order[at]));
    assert(all.contains(order[at]));
}

/// Programs of sessions without requests can leave the table.
proof fn lemma_without_all(model: QueueModel, order: Seq<Rank>)
    requires
        model.sound(),
        forall|at: int|
            0 <= at < order.len() ==> !model.sessions.contains_key(
                (#[trigger] order[at]).name,
            ),
    ensures
        model.without_all(order).sound(),
        model.without_all(order).same_turns(model),
    decreases order.len(),
{
    if order.len() > 0 {
        let next = model.without(order[0].name);
        lemma_without(model, order[0].name);
        lemma_turns_kept(model, next, None);
        assert forall|at: int| 0 <= at < order.drop_first().len() implies !next.sessions.contains_key(
            (#[trigger] order.drop_first()[at]).name,
        ) by {
            assert(order.drop_first()[at] == order[at + 1]);
        }
        lemma_without_all(next, order.drop_first());
    }
}

/// Programs without requests can expire.
pub proof fn lemma_programs_expired(model: QueueModel, now: u64)
    requires
        model.sound(),
    ensures
        model.programs_expired(now).sound(),
        model.programs_expired(now).same_turns(model),
{
    let names = entry_names(model.programs);
    let keys = outlived(model.sessions, now, model.config.session_retention);
    let order = placed_order(names, model.programs, keys);
    assert forall|at: int| 0 <= at < order.len() implies !model.sessions.contains_key(
        (#[trigger] order[at]).name,
    ) by {
        lemma_listed(names, model.programs, keys, at);
    }
    lemma_without_all(model, order);
}

/// Packing changes no turn.
pub proof fn lemma_packed(
    model: QueueModel,
    rooms: Seq<Room>,
    decays: Map<Seq<char>, usize>,
    usage: Map<WorkerWithDpRank, WorkerUsage>,
    order: Seq<Rank>,
)
    requires
        model.tables_agree(),
    ensures
        model.keeps(model.packed(rooms, decays, usage, order).model),
    decreases order.len(),
{
    if order.len() > 0 {
        let name = order[0].name;
        let rest = order.drop_first();
        match model.program(name) {
            None => lemma_packed(model, rooms, decays, usage, rest),
            Some(program) => {
                let required = program.token_total.saturating_add(
                    model.config.buffer_per_program,
                );
                match roomiest(rooms, required, program.assigned_worker) {
                    None => lemma_packed(model, rooms, decays, usage, rest),
                    Some(at) => {
                        let room = rooms[at];
                        let after = model.resumed(name, Some(room.worker)).0;
                        let left = (room.available - required) as usize;
                        lemma_resumed(model, name, Some(room.worker));
                        lemma_packed(
                            after,
                            rooms.update(at, Room { available: left, ..room }),
                            decays,
                            after.usage_resumed(usage, room.worker, name, decays),
                            rest,
                        );
                    },
                }
            },
        }
    }
}

/// Forcing changes no turn.
pub proof fn lemma_forced(
    model: QueueModel,
    decays: Map<Seq<char>, usize>,
    usage: Map<WorkerWithDpRank, WorkerUsage>,
    order: Seq<Rank>,
)
    requires
        model.tables_agree(),
    ensures
        model.keeps(model.forced(decays, usage, order).model),
    decreases order.len(),
{
    if order.len() > 0 {
        let name = order[0].name;
        let rest = order.drop_first();
        match model.program(name) {
            None => lemma_forced(model, decays, usage, rest),
            Some(program) => {
                let target = picked_worker(
                    model.workers,
                    pick(
                        model.workers.len() as int,
                        taking_workers(model.workers, program.assigned_worker),
                        more_spare_worker(model.workers, usage),
                    ),
                );
                if target is None && !model.any_available() {
                    lemma_forced(model, decays, usage, rest);
                } else {
                    let after = model.resumed(name, target).0;
                    lemma_resumed(model, name, target);
                    lemma_forced(
                        after,
                        decays,
                        match target {
                            Some(worker) => after.usage_resumed(usage, worker, name, decays),
                            None => usage,
                        },
                        rest,
                    );
                }
            },
        }
    }
}

/// A drain changes no turn.
pub proof fn lemma_drained(
    model: QueueModel,
    worker: WorkerWithDpRank,
    goal: usize,
    decays: Map<Seq<char>, usize>,
    usage: Map<WorkerWithDpRank, WorkerUsage>,
    order: Seq<Rank>,
)
    requires
        model.tables_agree(),
    ensures
        model.keeps(model.drained(worker, goal, decays, usage, order).0),
    decreases order.len(),
{
    if order.len() > 0 && usage_at(usage, worker).used > goal {
        let name = order[0].name;
        let rest = order.drop_first();
        match model.program(name) {
            None => lemma_drained(model, worker, goal, decays, usage, rest),
            Some(program) => {
                lemma_acting_paused(model, name);
                lemma_drained(
                    model.acting_paused(name),
                    worker,
                    goal,
                    decays,
                    usage_without(
                        usage,
                        worker,
                        name,
                        program,
                        decays,
                        model.config.buffer_per_program,
                    ),
                    rest,
                );
            },
        }
    }
}

/// Marking a program changes nothing else.
pub proof fn lemma_marked_once(model: QueueModel, name: Seq<char>, program: Program)
    requires
        model.tables_agree(),
        model.program(name) == Some(program),
    ensures
        model.keeps(
            model.with_programs(
                with_program(
                    model.programs,
                    name,
                    (Program { marked_for_pause: true, ..program }),
                ),
            ),
        ),
{
    let noted = Program { marked_for_pause: true, ..program };
    let here = model.with_programs(with_program(model.programs, name, noted));
    lemma_settled_tables(model, name, program);
    lemma_set(model, name, noted);
    assert(here =~= model.set(name, noted));
}

proof fn lemma_marked(model: QueueModel, order: Seq<Rank>)
    requires
        model.tables_agree(),
    ensures
        model.keeps(model.marked(order)),
    decreases order.len(),
{
    if order.len() > 0 {
        let name = order[0].name;
        match model.program(name) {
            Some(program) => {
                lemma_marked_once(model, name, program);
                lemma_marked(
                    model.with_programs(
                        with_program(
                            model.programs,
                            name,
                            Program { marked_for_pause: true, ..program },
                        ),
                    ),
                    order.drop_first(),
                );
            },
            None => lemma_marked(model, order.drop_first()),
        }
    }
}

proof fn lemma_relieved(
    model: QueueModel,
    worker: PolicyQueueWorker,
    decays: Map<Seq<char>, usize>,
    usage: Map<WorkerWithDpRank, WorkerUsage>,
)
    requires
        model.tables_agree(),
    ensures
        model.keeps(model.relieved(worker, decays, usage).0),
{
    let names = entry_names(model.programs);
    let acting = placed_order(
        names,
        model.programs,
        on_worker(worker.worker, ProgramStatus::Acting),
    );
    let reasoning = placed_order(
        names,
        model.programs,
        on_worker(worker.worker, ProgramStatus::Reasoning),
    );
    let goal = worker.limits->0.pause_goal;
    lemma_drained(model, worker.worker, goal, decays, usage, acting);
    lemma_marked(model.drained(worker.worker, goal, decays, usage, acting).0, reasoning);
}

proof fn lemma_all_relieved(
    model: QueueModel,
    workers: Seq<PolicyQueueWorker>,
    decays: Map<Seq<char>, usize>,
    usage: Map<WorkerWithDpRank, WorkerUsage>,
)
    requires
        model.tables_agree(),
    ensures
        model.keeps(model.all_relieved(workers, decays, usage)),
    decreases workers.len(),
{
    if workers.len() > 0 {
        let (here, left) = model.relieved(workers[0], decays, usage);
        lemma_relieved(model, workers[0], decays, usage);
        lemma_all_relieved(here, workers.drop_first(), decays, left);
    }
}

/// When the next step is due does not matter.
pub proof fn lemma_due(model: QueueModel, next: QueueModel)
    requires
        model.sound(),
        next == (QueueModel { next_tick: next.next_tick, ..model }),
    ensures
        next.sound(),
        next.same_turns(model),
{
    lemma_same_tables(model, next);
    lemma_kept_is_sound(model, next);
}

/// A new state is consistent.
pub proof fn lemma_fresh_is_sound(config: ThunderAgentConfig, now: u64)
    ensures
        QueueModel::fresh(config, now).sound(),
{
    let model = QueueModel::fresh(config, now);
    assert forall|session: Seq<char>| #[trigger] model.assignment(session)
        == model.program_worker(session) by {
        assert(model.program(session) is None);
    }
}

/// The periodic step keeps the state consistent and changes no turn.
pub proof fn lemma_reconciled_is_sound(
    model: QueueModel,
    workers: Seq<PolicyQueueWorker>,
    decays: Map<Seq<char>, usize>,
    now: u64,
)
    requires
        model.sound(),
    ensures
        model.reconciled(workers, decays, now).0.sound(),
        model.reconciled(workers, decays, now).0.same_turns(model),
{
    let seen = model.workers_updated(workers);
    lemma_workers_updated(model, workers);
    lemma_kept_is_sound(model, seen);
    if now >= model.next_tick {
        let due = QueueModel {
            next_tick: (now + model.config.scheduler_interval) as u128,
            ..seen
        };
        lemma_due(seen, due);
        let kept = due.programs_expired(now);
        lemma_programs_expired(due, now);
        let usage = usage_of(kept.programs, decays, kept.config.buffer_per_program);
        let rooms = open_rooms(kept.workers, usage, kept.config.buffer_per_program);
        let order = placed_order(kept.paused, kept.programs, resume_fairness());
        let resumption = kept.programs_resumed(decays, usage);
        lemma_packed(kept, rooms, decays, usage, order);
        let late = placed_order(
            resumption.model.paused,
            resumption.model.programs,
            overdue(now, resumption.model.config.resume_timeout),
        );
        let forced = resumption.model.forced(decays, resumption.usage, late);
        lemma_forced(resumption.model, decays, resumption.usage, late);
        lemma_all_relieved(forced.model, forced.model.workers, decays, forced.usage);
        lemma_kept_is_sound(kept, resumption.model);
        lemma_kept_is_sound(resumption.model, forced.model);
        lemma_kept_is_sound(
            forced.model,
            forced.model.all_relieved(forced.model.workers, decays, forced.usage),
        );
    }
}

/// A dispatch keeps the state consistent.
pub proof fn lemma_dispatched_is_sound(model: QueueModel, id: u64, worker: WorkerWithDpRank)
    requires
        model.sound(),
    ensures
        model.dispatched(id, worker).sound(),
{
    if model.requests.contains_key(id) && model.is_current(id) {
        let session = model.requests[id].session;
        let noted = QueueModel {
            requests: model.requests.insert(
                id,
                QueueRequest { dispatched: true, ..model.requests[id] },
            ),
            ..model
        };
        assert(model.has_turn(session));
        lemma_same_tables(model, noted);
        assert(noted.requests.dom() =~= model.requests.dom());
        lemma_requests_kept(model, noted, None);
        lemma_assigned(noted, session, Some(worker));
        lemma_kept_is_sound(noted, model.dispatched(id, worker));
    }
}

/// Requests may change in what neither turns nor ids depend on.
proof fn lemma_requests_kept(model: QueueModel, next: QueueModel, exempt: Option<Seq<char>>)
    requires
        model.turns_agree_but(exempt),
        model.ids_agree(),
        next.programs == model.programs,
        next.sessions == model.sessions,
        next.request_ids == model.request_ids,
        next.requests.dom() == model.requests.dom(),
        forall|id: u64| #[trigger]
            model.requests.contains_key(id) ==> next.requests[id].session
                == model.requests[id].session && next.requests[id].request_id
                == model.requests[id].request_id,
    ensures
        next.turns_agree_but(exempt),
        next.ids_agree(),
{
    assert forall|session: Seq<char>| #[trigger]
        next.sessions.contains_key(session) implies next.queue_is_tracked(session) && (exempt
        == Some(session) || next.has_turn(session)) by {
        assert(model.sessions.contains_key(session));
        assert forall|id: u64| #[trigger]
            next.sessions[session].waiting.contains(id) implies next.requests.contains_key(id)
            && next.requests[id].session == session && next.sessions[session].current
            != Some(id) by {
            assert(model.sessions[session].waiting.contains(id));
        }
        if exempt != Some(session) {
            assert(model.has_turn(session));
            assert(model.requests.contains_key(model.sessions[session].current->0));
        }
    }
    assert forall|id: u64| #[trigger]
        next.requests.contains_key(id) implies next.request_ids.contains_key(
        next.requests[id].request_id,
    ) && next.request_ids[next.requests[id].request_id] == id by {
        assert(model.requests.contains_key(id));
    }
    assert forall|request_id: Seq<char>| #[trigger]
        next.request_ids.contains_key(request_id) implies next.requests.contains_key(
        next.request_ids[request_id],
    ) && next.requests[next.request_ids[request_id]].request_id == request_id by {
        assert(model.request_ids.contains_key(request_id));
        assert(model.requests.contains_key(model.request_ids[request_id]));
    }
}

/// A request under a new number and a new request id is tracked.
pub proof fn lemma_noted(
    model: QueueModel,
    id: u64,
    request_id: Seq<char>,
    session: Seq<char>,
    context_tokens: usize,
)
    requires
        model.sound(),
        !model.requests.contains_key(id),
        !model.request_ids.contains_key(request_id),
    ensures
        model.noted(id, request_id, session, context_tokens).sound(),
        forall|other: Seq<char>| #[trigger]
            model.noted(id, request_id, session, context_tokens).program(other) == model.program(
                other,
            ),
        forall|other: Seq<char>| #[trigger]
            model.noted(id, request_id, session, context_tokens).sessions.contains_key(other)
                ==> !model.sessions[other].waiting.contains(id) && model.sessions[other].current
                != Some(id),
{
    let next = model.noted(id, request_id, session, context_tokens);
    lemma_same_tables(model, next);
    assert forall|other: Seq<char>| #[trigger]
        next.sessions.contains_key(other) implies next.queue_is_tracked(other) && next.has_turn(
        other,
    ) && !model.sessions[other].waiting.contains(id) && model.sessions[other].current != Some(
        id,
    ) by {
        assert(model.sessions.contains_key(other));
        assert(model.has_turn(other));
        assert forall|waits: u64| #[trigger]
            next.sessions[other].waiting.contains(waits) implies next.requests.contains_key(waits)
            && next.requests[waits].session == other && next.sessions[other].current != Some(
            waits,
        ) by {
            assert(model.sessions[other].waiting.contains(waits));
        }
    }
    assert forall|some: u64| #[trigger]
        next.requests.contains_key(some) implies next.request_ids.contains_key(
        next.requests[some].request_id,
    ) && next.request_ids[next.requests[some].request_id] == some by {
        if some != id {
            assert(model.requests.contains_key(some));
        }
    }
    assert forall|known: Seq<char>| #[trigger]
        next.request_ids.contains_key(known) implies next.requests.contains_key(
        next.request_ids[known],
    ) && next.requests[next.request_ids[known]].request_id == known by {
        if known != request_id {
            assert(model.request_ids.contains_key(known));
        }
    }
}

/// A tracked request that neither waits nor has its turn may wait.
proof fn lemma_queued(model: QueueModel, id: u64)
    requires
        model.sound(),
        model.requests.contains_key(id),
        model.is_busy(model.requests[id].session),
        !model.sessions[model.requests[id].session].waiting.contains(id),
        model.sessions[model.requests[id].session].current != Some(id),
    ensures
        model.queued(id, model.requests[id].session).sound(),
{
    let session = model.requests[id].session;
    let next = model.queued(id, session);
    lemma_same_tables(model, next);
    assert forall|other: Seq<char>| #[trigger]
        next.sessions.contains_key(other) implies next.queue_is_tracked(other) && next.has_turn(
        other,
    ) by {
        assert(model.sessions.contains_key(other));
        assert(model.has_turn(other));
        assert forall|waits: u64| #[trigger]
            next.sessions[other].waiting.contains(waits) implies next.requests.contains_key(waits)
            && next.requests[waits].session == other && next.sessions[other].current != Some(
            waits,
        ) by {
            if waits != id || other != session {
                let k = choose|k: int|
                    0 <= k < next.sessions[other].waiting.len() && next.sessions[other].waiting[k]
                        == waits;
                assert(model.sessions[other].waiting[k] == waits);
                assert(model.sessions[other].waiting.contains(waits));
            }
        }
    }
}

/// An arrival keeps the state consistent. Its number must be new.
pub proof fn lemma_admitted_is_sound(
    model: QueueModel,
    id: u64,
    request_id: Seq<char>,
    session: Option<Seq<char>>,
    context_tokens: usize,
    workers: Seq<PolicyQueueWorker>,
    now: u64,
)
    requires
        model.sound(),
        !model.requests.contains_key(id),
    ensures
        model.admitted(id, request_id, session, context_tokens, workers, now).0.sound(),
{
    if let Some(session) = session {
        if !model.request_ids.contains_key(request_id) {
            let seen = model.workers_updated(workers);
            lemma_workers_updated(model, workers);
            lemma_kept_is_sound(model, seen);
            let noted = seen.noted(id, request_id, session, context_tokens);
            lemma_noted(seen, id, request_id, session, context_tokens);
            if model.is_busy(session) {
                assert(noted.sessions.contains_key(session));
                lemma_queued(noted, id);
            } else {
                if noted.sessions.contains_key(session) {
                    assert(noted.has_turn(session));
                }
                lemma_turn_taken(noted, id, now);
            }
        }
    }
}

/// A request that steps back leaves its turn open.
pub proof fn lemma_left(model: QueueModel, request_id: Seq<char>)
    requires
        model.sound(),
        model.request_ids.contains_key(request_id),
    ensures
        ({
            let id = model.request_ids[request_id];
            let session = model.requests[id].session;
            let left = QueueModel {
                requests: model.requests.remove(id),
                request_ids: model.request_ids.remove(request_id),
                ..model
            };
            &&& model.requests.contains_key(id)
            &&& model.is_current(id) ==> {
                let next = left.vacated(session);
                &&& next.tables_agree()
                &&& next.ids_agree()
                &&& next.turns_agree_but(Some(session))
                &&& next.program(session) is Some
                &&& forall|other: Seq<char>|
                    other != session ==> #[trigger] next.program(other) == model.program(other)
            }
            &&& !model.is_current(id) ==> left.unqueued(id, session).sound()
        }),
{
    let id = model.request_ids[request_id];
    let session = model.requests[id].session;
    let left = QueueModel {
        requests: model.requests.remove(id),
        request_ids: model.request_ids.remove(request_id),
        ..model
    };
    let current = model.is_current(id);
    let next = if current {
        left.vacated(session)
    } else {
        left.unqueued(id, session)
    };
    lemma_same_tables(model, left);
    if current {
        assert(model.has_turn(session));
        let program = model.program(session)->0;
        let eased = Program { deferred_since: None, ..program };
        lemma_settled_tables(left, session, program);
        lemma_set(left, session, eased);
        lemma_same_tables(left.set(session, eased), next);
        assert forall|other: Seq<char>| other != session implies #[trigger] next.program(other)
            == model.program(other) by {
            assert(next.program(other) == left.set(session, eased).program(other));
            assert(left.set(session, eased).program(other) == left.program(other));
        }
        assert(next.program(session) == left.set(session, eased).program(session));
    } else {
        lemma_same_tables(left, next);
    }
    let exempt = if current {
        Some(session)
    } else {
        None
    };
    assert forall|other: Seq<char>| #[trigger]
        next.sessions.contains_key(other) implies next.queue_is_tracked(other) && (exempt == Some(
        other,
    ) || next.has_turn(other)) by {
        assert(model.sessions.contains_key(other));
        assert(model.has_turn(other));
        assert(model.queue_is_tracked(other));
        if other == session {
            lemma_without_item(model.sessions[other].waiting, id);
        }
        assert forall|waits: u64| #[trigger]
            next.sessions[other].waiting.contains(waits) implies next.requests.contains_key(waits)
            && next.requests[waits].session == other && next.sessions[other].current != Some(
            waits,
        ) by {
            assert(model.sessions[other].waiting.contains(waits));
        }
        assert(next.program(other) is Some);
    }
    assert forall|some: u64| #[trigger]
        next.requests.contains_key(some) implies next.request_ids.contains_key(
        next.requests[some].request_id,
    ) && next.request_ids[next.requests[some].request_id] == some by {
        assert(model.requests.contains_key(some));
    }
    assert forall|known: Seq<char>| #[trigger]
        next.request_ids.contains_key(known) implies next.requests.contains_key(
        next.request_ids[known],
    ) && next.requests[next.request_ids[known]].request_id == known by {
        assert(model.request_ids.contains_key(known));
    }
}

/// Settling a turn changes no other session's program.
pub proof fn lemma_settled(
    model: QueueModel,
    request: QueueRequest,
    completed: bool,
    context_tokens: Option<usize>,
    acting_tokens: usize,
    now: u64,
)
    requires
        model.tables_agree(),
    ensures
        ({
            let next = model.settled(request, completed, context_tokens, acting_tokens, now);
            &&& next.tables_agree()
            &&& next.same_turns(model)
            &&& forall|other: Seq<char>|
                other != request.session ==> #[trigger] next.program(other) == model.program(
                    other,
                )
            &&& !request.dispatched || !completed ==> next.program(request.session)
                == request.prior
        }),
{
    let session = request.session;
    if !request.dispatched || !completed {
        match request.prior {
            Some(prior) => lemma_set(model, session, prior),
            None => lemma_without(model, session),
        }
    } else {
        match model.program(session) {
            Some(program) => {
                let total = match context_tokens {
                    Some(tokens) => tokens,
                    None => request.context_tokens,
                };
                let after = program.turn_done(total, acting_tokens, now);
                let done = model.with_programs(with_program(model.programs, session, after));
                lemma_settled_tables(model, session, program);
                lemma_set(model, session, after);
                assert(done =~= model.set(session, after));
                lemma_acting_paused(done, session);
                let last = done.acting_paused(session);
                assert forall|other: Seq<char>| other != session implies #[trigger] last.program(
                    other,
                ) == model.program(other) by {
                    assert(done.program(other) == model.program(other));
                }
            },
            None => {},
        }
    }
}

/// The next request takes an open turn, or the session is forgotten.
pub proof fn lemma_promoted(model: QueueModel, session: Seq<char>, now: u64)
    requires
        model.tables_agree(),
        model.ids_agree(),
        model.turns_agree_but(Some(session)),
        model.sessions.contains_key(session),
    ensures
        model.promoted(session, now).0.sound(),
        ({
            let waiting = model.sessions[session].waiting;
            waiting.len() > 0 ==> (QueueModel {
                sessions: model.sessions.insert(
                    session,
                    QueueSession { waiting: waiting.remove(0), ..model.sessions[session] },
                ),
                ..model
            }).begun(waiting[0]).sound()
        }),
{
    let waiting = model.sessions[session].waiting;
    assert(model.queue_is_tracked(session));
    let next = if waiting.len() > 0 {
        QueueModel {
            sessions: model.sessions.insert(
                session,
                QueueSession { waiting: waiting.remove(0), ..model.sessions[session] },
            ),
            ..model
        }
    } else {
        QueueModel { sessions: model.sessions.remove(session), ..model }
    };
    lemma_same_tables(model, next);
    assert forall|other: Seq<char>| #[trigger]
        next.sessions.contains_key(other) implies next.queue_is_tracked(other) && (other == session
        || next.has_turn(other)) by {
        assert(model.sessions.contains_key(other));
        assert(model.queue_is_tracked(other));
        if other != session {
            assert(model.has_turn(other));
        }
        assert forall|waits: u64| #[trigger]
            next.sessions[other].waiting.contains(waits) implies next.requests.contains_key(waits)
            && next.requests[waits].session == other && next.sessions[other].current != Some(
            waits,
        ) by {
            let k = choose|k: int|
                0 <= k < next.sessions[other].waiting.len() && next.sessions[other].waiting[k]
                    == waits;
            if other == session {
                assert(waiting[k + 1] == waits);
            } else {
                assert(model.sessions[other].waiting[k] == waits);
            }
            assert(model.sessions[other].waiting.contains(waits));
        }
    }
    assert(next.ids_agree()) by {
        assert forall|some: u64| #[trigger]
            next.requests.contains_key(some) implies next.request_ids.contains_key(
            next.requests[some].request_id,
        ) && next.request_ids[next.requests[some].request_id] == some by {
            assert(model.requests.contains_key(some));
        }
        assert forall|known: Seq<char>| #[trigger]
            next.request_ids.contains_key(known) implies next.requests.contains_key(
            next.request_ids[known],
        ) && next.requests[next.request_ids[known]].request_id == known by {
            assert(model.request_ids.contains_key(known));
        }
    }
    if waiting.len() > 0 {
        let id = waiting[0];
        assert(waiting.contains(id));
        assert(!waiting.remove(0).contains(id)) by {
            if waiting.remove(0).contains(id) {
                let k = choose|k: int| 0 <= k < waiting.remove(0).len() && waiting.remove(0)[k] == id;
                assert(waiting[k + 1] == id);
            }
        }
        lemma_begun(next, id);
        lemma_turn_taken(next, id, now);
    }
}

/// Where a request whose turn it was has been settled, only its session's turn is open.
pub proof fn lemma_turn_open(
    model: QueueModel,
    request_id: Seq<char>,
    completed: bool,
    context_tokens: Option<usize>,
    acting_tokens: usize,
    now: u64,
)
    requires
        model.sound(),
        model.request_ids.contains_key(request_id),
        model.is_current(model.request_ids[request_id]),
    ensures
        ({
            let id = model.request_ids[request_id];
            let request = model.requests[id];
            let open = QueueModel {
                requests: model.requests.remove(id),
                request_ids: model.request_ids.remove(request_id),
                ..model
            }.vacated(request.session);
            let settled = open.settled(request, completed, context_tokens, acting_tokens, now);
            &&& settled.tables_agree()
            &&& settled.ids_agree()
            &&& settled.turns_agree_but(Some(request.session))
            &&& settled.same_turns(open)
        }),
{
    let id = model.request_ids[request_id];
    let request = model.requests[id];
    let open = QueueModel {
        requests: model.requests.remove(id),
        request_ids: model.request_ids.remove(request_id),
        ..model
    }.vacated(request.session);
    let settled = open.settled(request, completed, context_tokens, acting_tokens, now);
    lemma_left(model, request_id);
    lemma_settled(open, request, completed, context_tokens, acting_tokens, now);
    lemma_turns_kept(open, settled, Some(request.session));
}

/// The end of a request keeps the state consistent.
pub proof fn lemma_finished_is_sound(
    model: QueueModel,
    request_id: Seq<char>,
    completed: bool,
    context_tokens: Option<usize>,
    acting_tokens: usize,
    now: u64,
)
    requires
        model.sound(),
    ensures
        model.finished(request_id, completed, context_tokens, acting_tokens, now).0.sound(),
{
    if model.request_ids.contains_key(request_id) {
        let id = model.request_ids[request_id];
        let request = model.requests[id];
        lemma_left(model, request_id);
        if model.is_current(id) {
            let open = QueueModel {
                requests: model.requests.remove(id),
                request_ids: model.request_ids.remove(request_id),
                ..model
            }.vacated(request.session);
            let settled = open.settled(request, completed, context_tokens, acting_tokens, now);
            lemma_turn_open(model, request_id, completed, context_tokens, acting_tokens, now);
            lemma_promoted(settled, request.session, now);
        }
    }
}

} // verus!
