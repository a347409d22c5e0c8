//! What each step does to programs, sessions and requests.
use vstd::prelude::*;

use crate::policy_queue::indexed::{with_item, with_program, without_item};
use crate::policy_queue::model::{
    PolicyQueueDecision, PolicyQueueWorker, QueueModel, QueueRequest, QueueSession,
};
use crate::policy_queue::programs::{
    distinct, entry_names, lemma_entry, lemma_with_program, lemma_without_program,
};
use crate::thunderagent::program::{Program, ProgramLifecycle, ProgramStatus};
use crate::worker::WorkerWithDpRank;

verus! {

/// One session's program changes, and no other's; programs keep their places.
pub open spec fn only_program(
    before: QueueModel,
    after: QueueModel,
    session: Seq<char>,
    program: Program,
) -> bool {
    &&& distinct(after.programs)
    &&& after.program(session) == Some(program)
    &&& forall|other: Seq<char>|
        other != session ==> #[trigger] after.program(other) == before.program(other)
    &&& before.program(session) is Some ==> entry_names(after.programs) == entry_names(
        before.programs,
    )
    &&& before.program(session) is None ==> entry_names(after.programs) == entry_names(
        before.programs,
    ).push(session)
}

/// Requests, sessions, workers and timing are the same.
pub open spec fn same_queue(before: QueueModel, after: QueueModel) -> bool {
    &&& after.requests == before.requests
    &&& after.request_ids == before.request_ids
    &&& after.sessions == before.sessions
    &&& after.workers == before.workers
    &&& after.next_tick == before.next_tick
    &&& after.config == before.config
}

/// One session's assignment changes, and no other's.
pub open spec fn only_assignment(
    before: QueueModel,
    after: QueueModel,
    session: Seq<char>,
    worker: Option<WorkerWithDpRank>,
) -> bool {
    match worker {
        Some(worker) => after.assignments == before.assignments.insert(session, worker),
        None => after.assignments == before.assignments.remove(session),
    }
}

proof fn lemma_program_set(model: QueueModel, session: Seq<char>, program: Program, next: QueueModel)
    requires
        distinct(model.programs),
        next.programs == with_program(
            model.programs,
            session,
            program,
        ),
    ensures
        only_program(model, next, session, program),
{
    lemma_with_program(model.programs, session, program);
    let before = entry_names(model.programs);
    let after = entry_names(next.programs);
    if model.program(session) is Some {
        assert(after =~= before);
    } else {
        assert(after =~= before.push(session));
    }
}

/// Of two changes to one session's program the later one counts.
proof fn lemma_changed_again(
    before: QueueModel,
    between: QueueModel,
    last: QueueModel,
    after: QueueModel,
    session: Seq<char>,
    first: Program,
    second: Program,
)
    requires
        only_program(before, between, session, first),
        only_program(between, last, session, second),
        after.programs == last.programs,
    ensures
        only_program(before, after, session, second),
{
    assert forall|other: Seq<char>| other != session implies #[trigger] after.program(other)
        == before.program(other) by {
        assert(last.program(other) == between.program(other));
        assert(between.program(other) == before.program(other));
    }
    assert(after.program(session) == last.program(session));
}

/// An assignment is noted in the table and in the program, and changes nothing else.
pub proof fn lemma_assignment(
    model: QueueModel,
    session: Seq<char>,
    worker: Option<WorkerWithDpRank>,
)
    requires
        distinct(model.programs),
    ensures
        ({
            let next = model.assigned(session, worker);
            &&& same_queue(model, next)
            &&& next.paused == model.paused
            &&& only_assignment(model, next, session, worker)
            &&& model.program(session) is None ==> next.programs == model.programs
            &&& model.program(session) is Some ==> only_program(
                model,
                next,
                session,
                Program { assigned_worker: worker, ..model.program(session)->0 },
            )
        }),
{
    let next = model.assigned(session, worker);
    if let Some(program) = model.program(session) {
        lemma_program_set(
            model,
            session,
            Program { assigned_worker: worker, ..program },
            next,
        );
    }
}

/// A deferred program is paused from now on, and leaves its worker unless it keeps it.
pub proof fn lemma_deferral(model: QueueModel, session: Seq<char>, now: u64, keep_worker: bool)
    requires
        distinct(model.programs),
    ensures
        ({
            let next = model.deferred(session, now, keep_worker);
            let program = model.program(session)->0;
            &&& same_queue(model, next)
            &&& model.program(session) is None ==> next == model
            &&& model.program(session) is Some ==> {
                &&& next.paused == with_item(model.paused, session)
                &&& keep_worker ==> next.assignments == model.assignments
                &&& !keep_worker ==> only_assignment(model, next, session, None)
                &&& only_program(
                    model,
                    next,
                    session,
                    Program {
                        lifecycle: ProgramLifecycle::Paused,
                        deferred_since: Some(now),
                        assigned_worker: if keep_worker {
                            program.assigned_worker
                        } else {
                            None
                        },
                        ..program
                    },
                )
            }
        }),
{
    if let Some(program) = model.program(session) {
        let paused = Program {
            lifecycle: ProgramLifecycle::Paused,
            deferred_since: Some(now),
            ..program
        };
        let held = model.with_programs(
            with_program(model.programs, session, paused),
        );
        lemma_program_set(model, session, paused, held);
        lemma_assignment(held, session, None);
        let next = model.deferred(session, now, keep_worker);
        if keep_worker {
            lemma_program_set(model, session, paused, next);
        } else {
            lemma_changed_again(
                model,
                held,
                held.assigned(session, None),
                next,
                session,
                paused,
                Program { assigned_worker: None, ..paused },
            );
        }
    }
}

/// A program that runs between turns is paused without a worker; any other is left as it is.
pub proof fn lemma_pause(model: QueueModel, session: Seq<char>)
    requires
        distinct(model.programs),
    ensures
        ({
            let next = model.acting_paused(session);
            let program = model.program(session)->0;
            let runs = model.program(session) is Some && program.lifecycle
                == ProgramLifecycle::Active && program.status == ProgramStatus::Acting;
            &&& same_queue(model, next)
            &&& !runs ==> next == model
            &&& runs ==> {
                &&& next.paused == with_item(model.paused, session)
                &&& only_assignment(model, next, session, None)
                &&& only_program(
                    model,
                    next,
                    session,
                    Program {
                        lifecycle: ProgramLifecycle::Paused,
                        assigned_worker: None,
                        ..program
                    },
                )
            }
        }),
{
    if let Some(program) = model.program(session) {
        if program.lifecycle == ProgramLifecycle::Active && program.status
            == ProgramStatus::Acting {
            let paused = Program { lifecycle: ProgramLifecycle::Paused, ..program };
            let held = model.with_programs(
                with_program(model.programs, session, paused),
            );
            lemma_program_set(model, session, paused, held);
            lemma_assignment(held, session, None);
            lemma_changed_again(
                model,
                held,
                held.assigned(session, None),
                model.acting_paused(session),
                session,
                paused,
                Program { assigned_worker: None, ..paused },
            );
        }
    }
}

/// A paused program runs again on the worker that it is given, no longer deferred. The request whose
/// turn it is, is ready if the program was deferred. Any other program is left as it is.
pub proof fn lemma_resumption(
    model: QueueModel,
    session: Seq<char>,
    worker: Option<WorkerWithDpRank>,
)
    requires
        distinct(model.programs),
    ensures
        ({
            let (next, ready) = model.resumed(session, worker);
            let program = model.program(session)->0;
            let rests = model.program(session) is Some && program.lifecycle
                == ProgramLifecycle::Paused;
            let waits = rests && program.deferred_since is Some && model.sessions.contains_key(
                session,
            ) && model.sessions[session].current is Some;
            &&& same_queue(model, next)
            &&& waits ==> ready == seq![model.sessions[session].current->0]
            &&& !waits ==> ready.len() == 0
            &&& !rests ==> next == model
            &&& rests ==> {
                &&& next.paused == without_item(model.paused, session)
                &&& only_assignment(model, next, session, worker)
                &&& only_program(
                    model,
                    next,
                    session,
                    Program {
                        lifecycle: ProgramLifecycle::Active,
                        deferred_since: None,
                        assigned_worker: worker,
                        ..program
                    },
                )
            }
        }),
{
    if let Some(program) = model.program(session) {
        if program.lifecycle == ProgramLifecycle::Paused {
            let running = Program {
                lifecycle: ProgramLifecycle::Active,
                deferred_since: None,
                ..program
            };
            let held = model.with_programs(
                with_program(model.programs, session, running),
            );
            lemma_program_set(model, session, running, held);
            lemma_assignment(held, session, worker);
            lemma_changed_again(
                model,
                held,
                held.assigned(session, worker),
                model.resumed(session, worker).0,
                session,
                running,
                Program { assigned_worker: worker, ..running },
            );
        }
    }
}

/// A removed program takes its pause and its assignment with it, and nothing else.
pub proof fn lemma_removal(model: QueueModel, session: Seq<char>)
    requires
        distinct(model.programs),
    ensures
        ({
            let next = model.without(session);
            &&& same_queue(model, next)
            &&& distinct(next.programs)
            &&& next.program(session) is None
            &&& forall|other: Seq<char>|
                other != session ==> #[trigger] next.program(other) == model.program(other)
            &&& next.paused == without_item(model.paused, session)
            &&& only_assignment(model, next, session, None)
        }),
{
    lemma_without_program(model.programs, session);
}

/// The turn of a request begins: it is its session's current request, nothing behind it moves, and
/// the program before the turn is kept with the request. A session's first program starts with the
/// request's tokens in its first step; a later turn counts one step more and takes the request's
/// tokens for the program's, unless they are not known.
pub proof fn lemma_beginning(model: QueueModel, id: u64)
    requires
        distinct(model.programs),
        model.requests.contains_key(id),
    ensures
        ({
            let next = model.begun(id);
            let request = model.requests[id];
            let session = request.session;
            let prior = model.program(session);
            &&& next.requests == model.requests.insert(id, QueueRequest { prior, ..request })
            &&& next.request_ids == model.request_ids
            &&& next.workers == model.workers
            &&& next.assignments == model.assignments
            &&& next.paused == model.paused
            &&& next.config == model.config
            &&& next.next_tick == model.next_tick
            &&& next.sessions.remove(session) == model.sessions.remove(session)
            &&& next.sessions.contains_key(session)
            &&& next.sessions[session].current == Some(id)
            &&& model.sessions.contains_key(session) ==> next.sessions[session].waiting
                == model.sessions[session].waiting
            &&& !model.sessions.contains_key(session) ==> next.sessions[session].waiting.len() == 0
            &&& only_program(model, next, session, next.program(session)->0)
            &&& prior is None ==> {
                let program = next.program(session)->0;
                &&& program.step_count == 1
                &&& program.token_total == request.context_tokens
                &&& program.status == ProgramStatus::Reasoning
                &&& program.lifecycle == ProgramLifecycle::Active
                &&& program.assigned_worker is None
                &&& !program.marked_for_pause
                &&& program.acting_since is None
                &&& program.deferred_since is None
            }
            &&& prior is Some ==> {
                let program = next.program(session)->0;
                &&& program.step_count == (if prior->0.step_count < usize::MAX {
                    prior->0.step_count + 1
                } else {
                    usize::MAX as int
                })
                &&& program.token_total == (if request.context_tokens > 0 {
                    request.context_tokens
                } else {
                    prior->0.token_total
                })
                &&& program.acting_tokens == prior->0.acting_tokens
                &&& program.marked_for_pause == prior->0.marked_for_pause
                &&& program.deferred_since == prior->0.deferred_since
                &&& program.status == ProgramStatus::Reasoning
                &&& program.lifecycle == prior->0.lifecycle
                &&& program.assigned_worker == prior->0.assigned_worker
                &&& program.acting_since is None
            }
        }),
{
    let next = model.begun(id);
    let request = model.requests[id];
    let session = request.session;
    lemma_program_set(
        model,
        session,
        match model.program(session) {
            Some(program) => program.next_turn(request.context_tokens),
            None => Program::first_turn(request.context_tokens),
        },
        next,
    );
    assert(next.sessions.remove(session) =~= model.sessions.remove(session));
}

/// A tracked request is found by its number and by its request id.
pub proof fn lemma_tracking(
    model: QueueModel,
    id: u64,
    request_id: Seq<char>,
    session: Seq<char>,
    context_tokens: usize,
)
    ensures
        ({
            let next = model.noted(id, request_id, session, context_tokens);
            &&& next.requests.contains_key(id)
            &&& next.requests[id].request_id == request_id
            &&& next.requests[id].session == session
            &&& next.requests[id].context_tokens == context_tokens
            &&& !next.requests[id].dispatched
            &&& next.requests[id].prior is None
            &&& next.requests.remove(id) == model.requests.remove(id)
            &&& next.request_ids == model.request_ids.insert(request_id, id)
            &&& next.programs == model.programs
            &&& next.paused == model.paused
            &&& next.sessions == model.sessions
            &&& next.workers == model.workers
            &&& next.assignments == model.assignments
            &&& next.config == model.config
            &&& next.next_tick == model.next_tick
        }),
{
    let next = model.noted(id, request_id, session, context_tokens);
    assert(next.requests.remove(id) =~= model.requests.remove(id));
}

/// An arrival without a session or under a request id in use changes nothing. Any other is tracked
/// after the workers are brought up to date; while its session has a current request it waits last
/// in it, and otherwise it has its turn.
pub proof fn lemma_arrival(
    model: QueueModel,
    id: u64,
    request_id: Seq<char>,
    session: Seq<char>,
    context_tokens: usize,
    workers: Seq<PolicyQueueWorker>,
    now: u64,
)
    ensures
        model.admitted(id, request_id, None, context_tokens, workers, now) == (
            model,
            PolicyQueueDecision::Bypass,
        ),
        ({
            let (next, decision) = model.admitted(
                id,
                request_id,
                Some(session),
                context_tokens,
                workers,
                now,
            );
            let used = model.request_ids.contains_key(request_id);
            let busy = model.sessions.contains_key(session)
                && model.sessions[session].current is Some;
            let noted = model.workers_updated(workers).noted(
                id,
                request_id,
                session,
                context_tokens,
            );
            let (after, outcome) = noted.begun(id).decided(id, now);
            &&& used ==> next == model && decision == PolicyQueueDecision::Bypass
            &&& !used && busy ==> {
                &&& decision == PolicyQueueDecision::Defer
                &&& next.requests == noted.requests
                &&& next.request_ids == noted.request_ids
                &&& next.programs == noted.programs
                &&& next.paused == noted.paused
                &&& next.assignments == noted.assignments
                &&& next.sessions == noted.sessions.insert(
                    session,
                    QueueSession {
                        current: noted.sessions[session].current,
                        waiting: with_item(noted.sessions[session].waiting, id),
                    },
                )
            }
            &&& !used && !busy ==> next == after && decision == outcome
        }),
{
}

/// Dispatch: the request whose turn it is becomes dispatched, and the worker becomes its session's.
/// Any other request changes nothing.
pub proof fn lemma_dispatch(model: QueueModel, id: u64, worker: WorkerWithDpRank)
    requires
        distinct(model.programs),
    ensures
        ({
            let next = model.dispatched(id, worker);
            let request = model.requests[id];
            let session = request.session;
            let turn = model.requests.contains_key(id) && model.sessions.contains_key(session)
                && model.sessions[session].current == Some(id);
            &&& !turn ==> next == model
            &&& turn ==> {
                &&& next.requests == model.requests.insert(
                    id,
                    QueueRequest { dispatched: true, ..request },
                )
                &&& next.request_ids == model.request_ids
                &&& next.sessions == model.sessions
                &&& next.workers == model.workers
                &&& next.paused == model.paused
                &&& next.next_tick == model.next_tick
                &&& only_assignment(model, next, session, Some(worker))
                &&& model.program(session) is Some ==> only_program(
                    model,
                    next,
                    session,
                    Program { assigned_worker: Some(worker), ..model.program(session)->0 },
                )
                &&& model.program(session) is None ==> next.programs == model.programs
            }
        }),
{
    let request = model.requests[id];
    let sent = QueueModel {
        requests: model.requests.insert(id, QueueRequest { dispatched: true, ..request }),
        ..model
    };
    lemma_assignment(sent, request.session, Some(worker));
    assert(sent.program(request.session) == model.program(request.session));
    assert forall|other: Seq<char>| #[trigger] sent.program(other) == model.program(other) by {}
}

/// The end of a turn. Unless a dispatched request completed, the program is as it was before the
/// turn, with its worker and its pause, or gone where there was none. After a dispatched request
/// completed, the program is between turns since now with the reported tokens, or else the request's,
/// and is paused if it was marked for it.
pub proof fn lemma_settlement(
    model: QueueModel,
    request: QueueRequest,
    completed: bool,
    context_tokens: Option<usize>,
    acting_tokens: usize,
    now: u64,
)
    requires
        distinct(model.programs),
    ensures
        ({
            let next = model.settled(request, completed, context_tokens, acting_tokens, now);
            let session = request.session;
            let program = model.program(session)->0;
            let back = !request.dispatched || !completed;
            let prior = request.prior->0;
            let total = if context_tokens is Some {
                context_tokens->0
            } else {
                request.context_tokens
            };
            let done = Program {
                status: ProgramStatus::Acting,
                acting_since: Some(now),
                token_total: total,
                acting_tokens,
                marked_for_pause: false,
                deferred_since: None,
                ..program
            };
            &&& same_queue(model, next)
            &&& back && request.prior is Some ==> {
                &&& only_program(model, next, session, prior)
                &&& only_assignment(model, next, session, prior.assigned_worker)
                &&& prior.lifecycle == ProgramLifecycle::Paused ==> next.paused == with_item(
                    model.paused,
                    session,
                )
                &&& prior.lifecycle == ProgramLifecycle::Active ==> next.paused == without_item(
                    model.paused,
                    session,
                )
            }
            &&& back && request.prior is None ==> {
                &&& next.program(session) is None
                &&& forall|other: Seq<char>|
                    other != session ==> #[trigger] next.program(other) == model.program(other)
                &&& next.paused == without_item(model.paused, session)
                &&& only_assignment(model, next, session, None)
            }
            &&& !back && model.program(session) is None ==> next == model
            &&& !back && model.program(session) is Some && !program.marked_for_pause ==> {
                &&& only_program(model, next, session, done)
                &&& next.paused == model.paused
                &&& next.assignments == model.assignments
            }
            &&& !back && model.program(session) is Some && program.marked_for_pause
                && program.lifecycle == ProgramLifecycle::Active ==> {
                &&& only_program(
                    model,
                    next,
                    session,
                    Program {
                        lifecycle: ProgramLifecycle::Paused,
                        assigned_worker: None,
                        ..done
                    },
                )
                &&& next.paused == with_item(model.paused, session)
                &&& only_assignment(model, next, session, None)
            }
        }),
{
    let next = model.settled(request, completed, context_tokens, acting_tokens, now);
    let session = request.session;
    if !request.dispatched || !completed {
        match request.prior {
            Some(prior) => {
                lemma_program_set(model, session, prior, next);
            },
            None => {
                lemma_removal(model, session);
            },
        }
    } else if let Some(program) = model.program(session) {
        let total = match context_tokens {
            Some(tokens) => tokens,
            None => request.context_tokens,
        };
        let done = program.turn_done(total, acting_tokens, now);
        let held = model.with_programs(
            with_program(model.programs, session, done),
        );
        lemma_program_set(model, session, done, held);
        lemma_pause(held, session);
        if program.marked_for_pause && program.lifecycle == ProgramLifecycle::Active {
            lemma_changed_again(
                model,
                held,
                next,
                next,
                session,
                done,
                Program {
                    lifecycle: ProgramLifecycle::Paused,
                    assigned_worker: None,
                    ..done
                },
            );
        }
    }
}

/// A session whose queue is empty is forgotten. Otherwise the first of the queue leaves it and has its
/// turn, and is ready if that says so.
pub proof fn lemma_promotion(model: QueueModel, session: Seq<char>, now: u64)
    ensures
        ({
            let (next, ready) = model.promoted(session, now);
            let line = model.sessions[session].waiting;
            let first = line[0];
            let shorter = QueueModel {
                sessions: model.sessions.insert(
                    session,
                    QueueSession {
                        current: model.sessions[session].current,
                        waiting: line.drop_first(),
                    },
                ),
                ..model
            };
            let (after, decision) = shorter.begun(first).decided(first, now);
            let waits = model.sessions.contains_key(session) && line.len() > 0;
            &&& !waits ==> next == (QueueModel {
                sessions: model.sessions.remove(session),
                ..model
            }) && ready.len() == 0
            &&& waits && model.requests.contains_key(first) ==> {
                &&& next == after
                &&& decision == PolicyQueueDecision::Ready ==> ready == seq![first]
                &&& decision != PolicyQueueDecision::Ready ==> ready.len() == 0
            }
        }),
{
    if model.sessions.contains_key(session) && model.sessions[session].waiting.len() > 0 {
        assert(model.sessions[session].waiting.remove(0)
            =~= model.sessions[session].waiting.drop_first());
    }
}

/// The end of a request. An unknown one changes nothing. A waiting one leaves its queue. One whose
/// turn it is stops being its session's current request and its program's deferral is over; then its
/// turn is settled and the next of its session has its turn.
pub proof fn lemma_finish(
    model: QueueModel,
    request_id: Seq<char>,
    completed: bool,
    context_tokens: Option<usize>,
    acting_tokens: usize,
    now: u64,
    left: QueueModel,
    vacated: QueueModel,
)
    requires
        distinct(model.programs),
        ({
            let id = model.request_ids[request_id];
            let session = model.requests[id].session;
            &&& left == (QueueModel {
                request_ids: model.request_ids.remove(request_id),
                requests: model.requests.remove(id),
                ..model
            })
            &&& vacated == (QueueModel {
                sessions: model.sessions.insert(
                    session,
                    QueueSession { current: None, waiting: model.sessions[session].waiting },
                ),
                programs: vacated.programs,
                ..left
            })
            &&& model.program(session) is Some ==> only_program(
                model,
                vacated,
                session,
                Program { deferred_since: None, ..model.program(session)->0 },
            )
            &&& model.program(session) is None ==> vacated.programs == model.programs
        }),
    ensures
        ({
            let (next, ready) = model.finished(
                request_id,
                completed,
                context_tokens,
                acting_tokens,
                now,
            );
            let id = model.request_ids[request_id];
            let request = model.requests[id];
            let session = request.session;
            let known = model.request_ids.contains_key(request_id);
            let listed = known && model.requests.contains_key(id);
            let has_session = model.sessions.contains_key(session);
            let turn = has_session && model.sessions[session].current == Some(id);
            &&& !known ==> next == model && ready.len() == 0
            &&& listed && !turn ==> {
                &&& ready.len() == 0
                &&& next.requests == model.requests.remove(id)
                &&& next.request_ids == model.request_ids.remove(request_id)
                &&& next.programs == model.programs
                &&& next.paused == model.paused
                &&& next.assignments == model.assignments
                &&& has_session ==> next.sessions == model.sessions.insert(
                    session,
                    QueueSession {
                        current: model.sessions[session].current,
                        waiting: without_item(model.sessions[session].waiting, id),
                    },
                )
                &&& !has_session ==> next.sessions == model.sessions
            }
            &&& listed && turn ==> {
                let (after, now_ready) = vacated.settled(
                    request,
                    completed,
                    context_tokens,
                    acting_tokens,
                    now,
                ).promoted(session, now);
                &&& next == after
                &&& ready == now_ready
            }
        }),
{
    let id = model.request_ids[request_id];
    let request = model.requests[id];
    let session = request.session;
    let open = left.vacated(session);
    if let Some(program) = model.program(session) {
        let eased = Program { deferred_since: None, ..program };
        assert(left.program(session) == model.program(session));
        lemma_program_set(left, session, eased, open);
        lemma_same_entries(model, vacated, open, session);
    }
    assert(open.programs =~= vacated.programs);
    assert(open == vacated);
}

/// Two tables with the same names in the same places and the same programs are equal.
proof fn lemma_same_entries(
    before: QueueModel,
    a: QueueModel,
    b: QueueModel,
    session: Seq<char>,
)
    requires
        before.program(session) is Some,
        distinct(a.programs),
        distinct(b.programs),
        entry_names(a.programs) == entry_names(b.programs),
        forall|other: Seq<char>| #[trigger] a.program(other) == b.program(other),
    ensures
        a.programs == b.programs,
{
    let names = entry_names(a.programs);
    assert(names.len() == a.programs.len() && entry_names(b.programs).len() == b.programs.len());
    assert forall|at: int| 0 <= at < a.programs.len() implies a.programs[at] == b.programs[at] by {
        assert(names[at] == a.programs[at].0);
        assert(entry_names(b.programs)[at] == b.programs[at].0);
        lemma_entry(a.programs, at);
        lemma_entry(b.programs, at);
        assert(a.program(names[at]) == b.program(names[at]));
    }
    assert(a.programs =~= b.programs);
}

} // verus!
