//! What each step changes, in terms of the tables themselves.
use vstd::prelude::*;

use crate::ranking::Rank;
use crate::thunderagent::capacity::{one_card_each, Capacities};
use crate::thunderagent::choices::{
    held_on, lemma_liveness, lemma_new_program_goes_to_the_least_used, live,
};
use crate::thunderagent::error::Refusal;
use crate::thunderagent::ledger::{usage_less, Ledger};
use crate::thunderagent::model::{
    drop_leading, evictable, expired, Model, Outcome, Request, RequestPhase,
};
use crate::thunderagent::order::lemma_first;
use crate::thunderagent::placement::running;
use crate::thunderagent::precedence::{
    is_taken, lemma_rested_programs_expire, lemma_stranded_are_taken, rests_since,
};
use crate::thunderagent::program::{Program, ProgramLifecycle, ProgramStatus};
use crate::thunderagent::relief::on_removed_worker;
use crate::worker::WorkerWithDpRank;

verus! {

/// A program in its turns. It begins its first turn active, without a worker, with the request's
/// tokens. Its next turn takes over the request's tokens, or keeps its own where the request has
/// none. A turn that is done leaves it between turns with its whole context and the host's weight of
/// it.
pub proof fn lemma_turns_of_a_program(
    program: Program,
    input_tokens: usize,
    total: usize,
    weighted: usize,
    now: u64,
)
    ensures
        ({
            let first = Program::first_turn(input_tokens);
            &&& first.status == ProgramStatus::Reasoning
            &&& first.lifecycle == ProgramLifecycle::Active
            &&& first.assigned_worker is None
            &&& first.token_total == input_tokens
            &&& first.step_count == 1
            &&& !first.marked_for_pause
            &&& first.acting_since is None
            &&& first.deferred_since is None
        }),
        ({
            let next = program.next_turn(input_tokens);
            &&& next.status == ProgramStatus::Reasoning
            &&& next.acting_since is None
            &&& input_tokens > 0 ==> next.token_total == input_tokens
            &&& input_tokens == 0 ==> next.token_total == program.token_total
            &&& program.step_count < usize::MAX ==> next.step_count == program.step_count + 1
            &&& program.step_count == usize::MAX ==> next.step_count == usize::MAX
            &&& next.lifecycle == program.lifecycle
            &&& next.assigned_worker == program.assigned_worker
            &&& next.acting_tokens == program.acting_tokens
            &&& next.marked_for_pause == program.marked_for_pause
            &&& next.deferred_since == program.deferred_since
        }),
        ({
            let done = program.turn_done(total, weighted, now);
            &&& done.status == ProgramStatus::Acting
            &&& done.token_total == total
            &&& done.acting_tokens == weighted
            &&& done.acting_since == Some(now)
            &&& done.deferred_since is None
            &&& !done.marked_for_pause
            &&& done.lifecycle == program.lifecycle
            &&& done.assigned_worker == program.assigned_worker
            &&& done.step_count == program.step_count
        }),
        program.charged_tokens() == (match program.status {
            ProgramStatus::Reasoning => program.token_total,
            ProgramStatus::Acting => program.acting_tokens,
        }),
{
}

/// An active program with a worker is charged its tokens and the headroom there; a paused program
/// and one without a worker are charged nothing.
pub proof fn lemma_charge(ledger: Ledger, program: Program)
    ensures
        program.lifecycle == ProgramLifecycle::Paused ==> ledger.charge(program) is None,
        program.assigned_worker is None ==> ledger.charge(program) is None,
        program.lifecycle == ProgramLifecycle::Active ==> (
        program.assigned_worker matches Some(worker) ==> (ledger.charge(program) matches Some(
            charge,
        ) && {
            let tokens = if program.status == ProgramStatus::Acting {
                program.acting_tokens
            } else {
                program.token_total
            };
            &&& charge.0 == worker
            &&& tokens + ledger.buffer <= usize::MAX ==> charge.1 == tokens + ledger.buffer
            &&& tokens + ledger.buffer > usize::MAX ==> charge.1 == usize::MAX
        })),
{
}

/// Setting and taking out a program touches no other program.
pub proof fn lemma_one_program_at_a_time(ledger: Ledger, session: Seq<char>, program: Program)
    ensures
        ledger.with(session, program).programs == ledger.programs.insert(session, program),
        ledger.without(session).programs == ledger.programs.remove(session),
        ledger.with(session, program).buffer == ledger.buffer,
        ledger.without(session).buffer == ledger.buffer,
{
    assert(ledger.with(session, program).programs =~= ledger.programs.insert(session, program));
    assert(ledger.without(session).programs =~= ledger.programs.remove(session));
}

/// A deferred program is paused. The time of its deferral is the first one, and it keeps its worker
/// only where it should.
pub proof fn lemma_deferral(model: Model, session: Seq<char>, now: u64, keep_worker: bool)
    ensures
        ({
            let (next, changed) = model.deferred(session, now, keep_worker);
            let program = model.ledger.programs[session];
            let paused = Program {
                lifecycle: ProgramLifecycle::Paused,
                deferred_since: if program.deferred_since is Some {
                    program.deferred_since
                } else {
                    Some(now)
                },
                assigned_worker: if keep_worker {
                    program.assigned_worker
                } else {
                    None
                },
                ..program
            };
            &&& !model.ledger.programs.contains_key(session) ==> next == model && !changed
            &&& model.ledger.programs.contains_key(session) ==> {
                &&& next.ledger.programs == model.ledger.programs.insert(session, paused)
                &&& next == (Model { ledger: next.ledger, ..model })
                &&& changed <==> paused != program
            }
        }),
{
    let next = model.deferred(session, now, keep_worker).0;
    if model.ledger.programs.contains_key(session) {
        assert(next.ledger.programs =~= model.ledger.programs.insert(
            session,
            next.ledger.programs[session],
        ));
    }
}

/// A request is released exactly where it waits at the front of a session without a released
/// request, its turn has begun and the session has a program. It becomes the session's current
/// request with the given worker, or else the program's, as its target. Its program runs, on the
/// worker that it had, or leaves the table where the request is final. Nothing else changes in the
/// tables.
pub proof fn lemma_release(model: Model, id: Seq<char>, worker: Option<WorkerWithDpRank>)
    ensures
        ({
            let (next, released) = model.released(id, worker);
            let request = model.requests[id];
            let session = request.session;
            let program = model.ledger.programs[session];
            &&& released <==> {
                &&& model.requests.contains_key(id)
                &&& request.phase == RequestPhase::Waiting
                &&& request.began
                &&& model.sessions.contains_key(session)
                &&& model.sessions[session].current is None
                &&& model.sessions[session].waiting.len() > 0
                &&& model.sessions[session].waiting[0] == id
                &&& model.ledger.programs.contains_key(session)
            }
            &&& !released ==> next == model
            &&& released ==> {
                &&& next.requests == model.requests.insert(
                    id,
                    Request {
                        phase: RequestPhase::Released,
                        target: if worker is Some {
                            worker
                        } else {
                            program.assigned_worker
                        },
                        ..request
                    },
                )
                &&& next.sessions[session].current == Some(id)
                &&& next.sessions[session].waiting == model.sessions[session].waiting.drop_first()
                &&& next.sessions.remove(session) == model.sessions.remove(session)
                &&& request.session_final ==> next.ledger.programs
                    == model.ledger.programs.remove(session)
                &&& !request.session_final ==> next.ledger.programs
                    == model.ledger.programs.insert(
                    session,
                    Program {
                        lifecycle: ProgramLifecycle::Active,
                        deferred_since: None,
                        ..program
                    },
                )
                &&& next.config == model.config
            }
        }),
{
    let (next, released) = model.released(id, worker);
    if released {
        let session = model.requests[id].session;
        assert(next.sessions.remove(session) =~= model.sessions.remove(session));
        if model.requests[id].session_final {
            assert(next.ledger.programs =~= model.ledger.programs.remove(session));
        } else {
            assert(next.ledger.programs =~= model.ledger.programs.insert(
                session,
                next.ledger.programs[session],
            ));
        }
    }
}

/// Room is made only for a program that is not in the table while the table is full, and takes at
/// most one program out.
pub proof fn lemma_making_room(model: Model, session: Seq<char>)
    ensures
        ({
            let next = model.room_made(session);
            let full = !model.ledger.programs.contains_key(session) && model.ledger.programs.len()
                >= model.config.max_tracked_requests;
            &&& !full || model.evicted() is None ==> next == model
            &&& full ==> (model.evicted() matches Some(first) ==> {
                &&& next.ledger.programs == model.ledger.programs.remove(first.name)
                &&& next == (Model { ledger: next.ledger, ..model })
            })
            &&& model.can_have_room(session) <==> !full || model.evicted() is Some
        }),
{
    if let Some(first) = model.evicted() {
        lemma_first(model.ledger, evictable(model.sessions));
        assert(model.ledger.without(first.name).programs =~= model.ledger.programs.remove(
            first.name,
        ));
    }
}

/// A turn begins once: the request remembers the program of before, and the program begins its first
/// or next turn with the request's tokens.
pub proof fn lemma_beginning(model: Model, id: Seq<char>)
    requires
        model.requests.contains_key(id),
    ensures
        ({
            let next = model.begun(id);
            let request = model.requests[id];
            let session = request.session;
            let programs = model.room_made(session).ledger.programs;
            &&& request.began ==> next == model
            &&& !request.began ==> {
                &&& next.requests == model.requests.insert(
                    id,
                    Request {
                        began: true,
                        prior: if programs.contains_key(session) {
                            Some(programs[session])
                        } else {
                            None
                        },
                        ..request
                    },
                )
                &&& programs.contains_key(session) ==> next.ledger.programs == programs.insert(
                    session,
                    programs[session].next_turn(request.input_tokens),
                )
                &&& !programs.contains_key(session) ==> next.ledger.programs == programs.insert(
                    session,
                    Program::first_turn(request.input_tokens),
                )
                &&& next.sessions == model.sessions
                &&& next.arrivals == model.arrivals
                &&& next.timer_owner == model.timer_owner
                &&& next.wakeups == model.wakeups
                &&& next.config == model.config
            }
            &&& model.can_begin(id) <==> request.began || model.can_have_room(session)
        }),
{
    let request = model.requests[id];
    if !request.began {
        let next = model.begun(id);
        let programs = model.room_made(request.session).ledger.programs;
        assert(next.ledger.programs =~= programs.insert(
            request.session,
            next.ledger.programs[request.session],
        ));
    }
}

/// The decision on a request whose turn has begun and come.
///
/// A paused program stays paused, from the time of its first deferral. While no live worker's
/// capacity is known, or while its own worker is live, the request is released for that worker. Else
/// a program that is new waits behind paused ones; any other is released for a live worker on which
/// it fits and which holds the least, of equals the lowest; where there is none it is deferred
/// without a worker.
pub proof fn lemma_decision(model: Model, id: Seq<char>, capacities: Capacities, now: u64)
    requires
        one_card_each(capacities.cards),
        model.requests.contains_key(id),
        model.requests[id].phase == RequestPhase::Waiting,
        model.requests[id].began,
        model.sessions.contains_key(model.requests[id].session),
        model.sessions[model.requests[id].session].current is None,
        model.sessions[model.requests[id].session].waiting.len() > 0,
        model.sessions[model.requests[id].session].waiting[0] == id,
        model.ledger.programs.contains_key(model.requests[id].session),
    ensures
        ({
            let next = model.decided(id, capacities, now).0;
            let request = model.requests[id];
            let program = model.ledger.programs[request.session];
            let known = exists|at: int|
                0 <= at < capacities.cards.len() && live(
                    capacities,
                    (#[trigger] capacities.cards[at]).worker,
                );
            let own = program.assigned_worker matches Some(worker) && live(capacities, worker);
            let blocked = request.prior is None && exists|name: Seq<char>| #[trigger]
                model.ledger.programs.contains_key(name) && model.ledger.programs[name].lifecycle
                    == ProgramLifecycle::Paused;
            let whole = request.input_tokens + model.config.buffer_per_program;
            let required = if whole <= usize::MAX {
                whole
            } else {
                usize::MAX as int
            };
            let running = program.lifecycle == ProgramLifecycle::Active;
            let fits = exists|at: int|
                0 <= at < capacities.cards.len() && live(
                    capacities,
                    (#[trigger] capacities.cards[at]).worker,
                ) && held_on(model.ledger.usage, capacities.cards[at].worker) + required
                    <= capacities.cards[at].capacity;
            let held = Program {
                lifecycle: ProgramLifecycle::Paused,
                deferred_since: if program.deferred_since is Some {
                    program.deferred_since
                } else {
                    Some(now)
                },
                ..program
            };
            &&& !running ==> {
                &&& next.requests == model.requests
                &&& next.ledger.programs == model.ledger.programs.insert(request.session, held)
            }
            &&& running && (!known || own) ==> {
                &&& next.requests[id].phase == RequestPhase::Released
                &&& next.requests[id].target == program.assigned_worker
            }
            &&& running && known && !own && (blocked || !fits) ==> {
                &&& next.requests == model.requests
                &&& next.ledger.programs == model.ledger.programs.insert(
                    request.session,
                    Program { assigned_worker: None, ..held },
                )
            }
            &&& running && known && !own && !blocked && fits ==> {
                &&& next.requests[id].phase == RequestPhase::Released
                &&& next.requests[id].target matches Some(worker) && {
                    &&& live(capacities, worker)
                    &&& exists|at: int|
                        0 <= at < capacities.cards.len() && (#[trigger] capacities.cards[at]).worker
                            == worker && held_on(model.ledger.usage, worker) + required
                            <= capacities.cards[at].capacity
                    &&& forall|at: int|
                        0 <= at < capacities.cards.len() && live(
                            capacities,
                            (#[trigger] capacities.cards[at]).worker,
                        ) && held_on(model.ledger.usage, capacities.cards[at].worker) + required
                            <= capacities.cards[at].capacity ==> held_on(model.ledger.usage, worker)
                            <= held_on(model.ledger.usage, capacities.cards[at].worker) && (held_on(
                            model.ledger.usage,
                            worker,
                        ) == held_on(model.ledger.usage, capacities.cards[at].worker)
                            ==> !capacities.cards[at].worker.is_before(worker))
                }
            }
        }),
{
    let request = model.requests[id];
    let session = request.session;
    let program = model.ledger.programs[session];
    let next = model.decided(id, capacities, now).0;
    lemma_deferral(model, session, now, program.assigned_worker is Some);
    lemma_release(model, id, None);
    lemma_release(model, id, program.assigned_worker);
    if let Some(worker) = program.assigned_worker {
        lemma_liveness(capacities, worker);
    } else {
        lemma_liveness(capacities, WorkerWithDpRank { worker_id: 0, dp_rank: 0 });
    }
    if program.lifecycle == ProgramLifecycle::Active {
        let own = program.assigned_worker matches Some(worker) && live(capacities, worker);
        if capacities.has_usable_capacity() && !own {
            let stranded = program.assigned_worker is Some;
            let free = model.with_ledger(
                if stranded {
                    model.ledger.assigned(session, None)
                } else {
                    model.ledger
                },
            );
            let required = request.input_tokens.saturating_add(model.config.buffer_per_program);
            let choice = free.ledger.admission_worker(capacities, required);
            lemma_one_program_at_a_time(
                model.ledger,
                session,
                Program { assigned_worker: None, ..program },
            );
            assert(free.ledger.programs =~= model.ledger.programs.insert(
                session,
                Program { assigned_worker: None, ..program },
            ));
            assert forall|worker: WorkerWithDpRank| live(capacities, worker) implies held_on(
                free.ledger.usage,
                worker,
            ) == #[trigger] held_on(model.ledger.usage, worker) by {
            }
            lemma_new_program_goes_to_the_least_used(free.ledger, capacities, required);
            lemma_deferral(free, session, now, false);
            lemma_release(free, id, choice);
            assert(free.ledger.paused().is_empty() <==> !(exists|name: Seq<char>| #[trigger]
                model.ledger.programs.contains_key(name) && model.ledger.programs[name].lifecycle
                    == ProgramLifecycle::Paused)) by {
                if exists|name: Seq<char>| #[trigger]
                    model.ledger.programs.contains_key(name) && model.ledger.programs[name].lifecycle
                        == ProgramLifecycle::Paused {
                    let name = choose|name: Seq<char>| #[trigger]
                        model.ledger.programs.contains_key(name)
                            && model.ledger.programs[name].lifecycle == ProgramLifecycle::Paused;
                    assert(free.ledger.paused().contains(name));
                } else {
                    assert(free.ledger.paused() =~= Set::empty());
                }
            }
            let held = Program {
                lifecycle: ProgramLifecycle::Paused,
                deferred_since: if program.deferred_since is Some {
                    program.deferred_since
                } else {
                    Some(now)
                },
                assigned_worker: None,
                ..program
            };
            assert(free.ledger.programs.insert(session, held) =~= model.ledger.programs.insert(
                session,
                held,
            ));
            if let Some(worker) = choice {
                let at = choose|at: int|
                    0 <= at < capacities.cards.len() && (#[trigger] capacities.cards[at]).worker
                        == worker && held_on(free.ledger.usage, worker) + required
                        <= capacities.cards[at].capacity;
                assert(held_on(model.ledger.usage, worker) == held_on(free.ledger.usage, worker));
                assert(capacities.cards[at].worker == worker && held_on(
                    model.ledger.usage,
                    worker,
                ) + required <= capacities.cards[at].capacity);
            }
        }
    }
}

/// A request is decided on once it waits with nothing of its session ahead of it, and its turn has
/// begun or can begin.
pub proof fn lemma_admission(model: Model, id: Seq<char>, capacities: Capacities, now: u64)
    ensures
        ({
            let session = model.requests[id].session;
            let turn = model.requests.contains_key(id) && model.requests[id].phase
                == RequestPhase::Waiting && model.sessions.contains_key(session)
                && model.sessions[session].current is None && model.sessions[session].waiting.len()
                > 0 && model.sessions[session].waiting[0] == id;
            &&& !turn || !model.can_begin(id) ==> model.admitted(id, capacities, now) == (
                model,
                false,
            )
            &&& turn && model.can_begin(id) ==> model.admitted(id, capacities, now) == model.begun(
                id,
            ).decided(id, capacities, now)
        }),
{
}

/// A paused program that resumes runs on the given worker, and the request at the front of its
/// session is released for that worker. Any other program is left alone.
pub proof fn lemma_resumption(
    model: Model,
    session: Seq<char>,
    worker: Option<WorkerWithDpRank>,
)
    ensures
        ({
            let (next, changed) = model.resumed(session, worker);
            let program = model.ledger.programs[session];
            let paused = model.ledger.programs.contains_key(session) && program.lifecycle
                == ProgramLifecycle::Paused;
            let running = model.with_ledger(
                model.ledger.with(
                    session,
                    Program {
                        lifecycle: ProgramLifecycle::Active,
                        deferred_since: None,
                        assigned_worker: worker,
                        ..program
                    },
                ),
            );
            let idle = !model.sessions.contains_key(session)
                || model.sessions[session].current is Some || model.sessions[session].waiting.len()
                == 0;
            &&& changed <==> paused
            &&& !paused ==> next == model
            &&& paused && idle ==> next == running
            &&& paused && !idle ==> next == running.released(
                model.sessions[session].waiting[0],
                worker,
            ).0
        }),
{
}

/// The end of a turn. A completed turn of a released request leaves the program between turns, with
/// the reported context or else the request's tokens; a program that was marked is paused and loses
/// its worker. Any other turn that had begun is rolled back: the program of before is back, and a
/// program that was new is gone. What a released final request took out stays out.
pub proof fn lemma_settlement(model: Model, request: Request, outcome: Outcome, now: u64)
    ensures
        ({
            let next = model.settled(request, outcome, now);
            let session = request.session;
            let program = model.ledger.programs[session];
            let known = model.ledger.programs.contains_key(session);
            let released = request.phase == RequestPhase::Released;
            &&& next == (Model { ledger: next.ledger, ..model })
            &&& request.session_final && released ==> next == model
            &&& outcome matches Outcome::Completed { context_tokens, acting_tokens } ==> (released
                && !request.session_final ==> {
                let total = if context_tokens is Some {
                    context_tokens->0
                } else {
                    request.input_tokens
                };
                let done = program.turn_done(total, acting_tokens, now);
                &&& !known ==> next == model
                &&& known && !program.marked_for_pause ==> next.ledger.programs
                    == model.ledger.programs.insert(session, done)
                &&& known && program.marked_for_pause && program.lifecycle
                    == ProgramLifecycle::Active ==> next.ledger.programs
                    == model.ledger.programs.insert(
                    session,
                    Program {
                        lifecycle: ProgramLifecycle::Paused,
                        assigned_worker: None,
                        ..done
                    },
                )
            })
            &&& (outcome is Aborted || !released) && !(request.session_final && released) ==> {
                &&& !request.began ==> next == model
                &&& request.began ==> (request.prior matches Some(prior) ==> next.ledger.programs
                    == model.ledger.programs.insert(session, prior))
                &&& request.began && request.prior is None ==> next.ledger.programs
                    == model.ledger.programs.remove(session)
            }
        }),
{
    let next = model.settled(request, outcome, now);
    let session = request.session;
    assert(next.ledger.programs =~= model.ledger.programs.insert(
        session,
        next.ledger.programs[session],
    ) || next.ledger.programs =~= model.ledger.programs.remove(session) || next == model);
}

/// A new request is tracked as waiting, at the end of its session's queue and of the arrivals; it
/// keeps the timer where nobody did.
pub proof fn lemma_queueing(
    model: Model,
    id: Seq<char>,
    session: Seq<char>,
    input_tokens: usize,
    session_final: bool,
)
    ensures
        ({
            let next = model.enqueued(id, session, input_tokens, session_final);
            let before = if model.sessions.contains_key(session) {
                model.sessions[session].waiting
            } else {
                Seq::empty()
            };
            &&& next.requests == model.requests.insert(
                id,
                Request {
                    session,
                    input_tokens,
                    session_final,
                    phase: RequestPhase::Waiting,
                    prior: None,
                    began: false,
                    target: None,
                },
            )
            &&& next.sessions.remove(session) == model.sessions.remove(session)
            &&& next.sessions.contains_key(session)
            &&& next.sessions[session].waiting == before.push(id)
            &&& model.sessions.contains_key(session) ==> next.sessions[session].current
                == model.sessions[session].current
            &&& !model.sessions.contains_key(session) ==> next.sessions[session].current is None
            &&& next.arrivals == model.arrivals.push(id)
            &&& next.timer_owner == (if model.timer_owner is Some {
                model.timer_owner
            } else {
                Some(id)
            })
            &&& next.ledger == model.ledger
            &&& next.config == model.config
            &&& next.wakeups == model.wakeups
        }),
{
    let next = model.enqueued(id, session, input_tokens, session_final);
    assert(next.sessions.remove(session) =~= model.sessions.remove(session));
}

/// A request is refused where its id is in use, where as many requests as allowed are tracked, or
/// where the table has no room for its program and nobody can make room, in this order.
pub proof fn lemma_refusals(model: Model, id: Seq<char>, session: Seq<char>, now: u64)
    ensures
        ({
            let limit = model.config.max_tracked_requests;
            let kept = model.programs_expired(now).0;
            let full = !kept.ledger.programs.contains_key(session) && kept.ledger.programs.len()
                >= kept.config.max_tracked_requests && kept.evicted() is None;
            &&& model.requests.contains_key(id) ==> model.refusal(id, session, now) == Some(
                Refusal::DuplicateRequestId(id),
            )
            &&& !model.requests.contains_key(id) && model.requests.len() >= limit
                ==> model.refusal(id, session, now) == Some(
                Refusal::RequestLimitExceeded { limit },
            )
            &&& !model.requests.contains_key(id) && model.requests.len() < limit && full
                ==> model.refusal(id, session, now) == Some(
                Refusal::ProgramLimitExceeded { limit },
            )
            &&& !model.requests.contains_key(id) && model.requests.len() < limit && !full
                ==> model.refusal(id, session, now) is None
        }),
{
}

/// A released request that is sent gives its program the worker that it was sent to, and someone who
/// waits is made to look again at once. Any other request changes nothing.
pub proof fn lemma_sending(model: Model, id: Seq<char>, worker: WorkerWithDpRank, now: u64)
    ensures
        ({
            let (next, known) = model.sent(id, worker, now);
            let session = model.requests[id].session;
            &&& known <==> model.requests.contains_key(id) && model.requests[id].phase
                == RequestPhase::Released
            &&& !known ==> next == model
            &&& known && model.ledger.programs.contains_key(session) ==> next.ledger.programs
                == model.ledger.programs.insert(
                session,
                Program {
                    assigned_worker: Some(worker),
                    ..model.ledger.programs[session]
                },
            )
            &&& known && !model.ledger.programs.contains_key(session) ==> next.ledger
                == model.ledger
            &&& next.requests == model.requests
            &&& next.sessions == model.sessions
            &&& next.arrivals == model.arrivals
            &&& next.timer_owner == model.timer_owner
            &&& known && model.timer_owner is Some ==> next.next_reconcile_at == now
            &&& model.timer_owner is None ==> next.next_reconcile_at == model.next_reconcile_at
        }),
{
    let (next, known) = model.sent(id, worker, now);
    let session = model.requests[id].session;
    if known && model.ledger.programs.contains_key(session) {
        assert(next.ledger.programs =~= model.ledger.programs.insert(
            session,
            Program { assigned_worker: Some(worker), ..model.ledger.programs[session] },
        ));
    }
}

/// The timer stays with its keeper until that one stops waiting; then it goes to the first arrival
/// that still waits, whose waiter is called.
pub proof fn lemma_timer_goes_on(model: Model, id: Seq<char>)
    ensures
        ({
            let next = model.timer_passed(id);
            &&& model.timer_owner != Some(id) ==> next == model
            &&& model.timer_owner == Some(id) ==> {
                &&& forall|at: int|
                    #![trigger model.arrivals[at]]
                    0 <= at < model.arrivals.len() && model.is_waiting(model.arrivals[at]) && (
                    forall|k: int|
                        0 <= k < at ==> !#[trigger] model.is_waiting(model.arrivals[k]))
                        ==> next.timer_owner == Some(model.arrivals[at])
                &&& (forall|k: int|
                    0 <= k < model.arrivals.len() ==> !#[trigger] model.is_waiting(
                        model.arrivals[k],
                    )) ==> next.timer_owner is None
                &&& next.timer_owner matches Some(owner) ==> next.wakeups == model.wakeups.push(
                    owner,
                )
            }
            &&& next.requests == model.requests
            &&& next.sessions == model.sessions
            &&& next.ledger == model.ledger
        }),
{
    if model.timer_owner == Some(id) {
        lemma_first_waiting(model.arrivals, model);
    }
}

proof fn lemma_first_waiting(queue: Seq<Seq<char>>, model: Model)
    ensures
        ({
            let rest = drop_leading(queue, model.waiting());
            &&& forall|at: int|
                #![trigger queue[at]]
                0 <= at < queue.len() && model.is_waiting(queue[at]) && (forall|k: int|
                    0 <= k < at ==> !#[trigger] model.is_waiting(queue[k])) ==> rest.len() > 0
                    && rest[0] == queue[at]
            &&& (forall|k: int| 0 <= k < queue.len() ==> !#[trigger] model.is_waiting(queue[k]))
                ==> rest.len() == 0
        }),
    decreases queue.len(),
{
    if queue.len() > 0 {
        let tail = queue.drop_first();
        lemma_first_waiting(tail, model);
        if model.waiting().contains(queue[0]) {
            assert(model.is_waiting(queue[0]));
        } else {
            assert(!model.is_waiting(queue[0]));
            assert forall|at: int|
                #![trigger queue[at]]
                0 <= at < queue.len() && model.is_waiting(queue[at]) && (forall|k: int|
                    0 <= k < at ==> !#[trigger] model.is_waiting(queue[k])) implies drop_leading(
                queue,
                model.waiting(),
            ).len() > 0 && drop_leading(queue, model.waiting())[0] == queue[at] by {
                assert(at > 0);
                assert(tail[at - 1] == queue[at]);
                assert forall|k: int| 0 <= k < at - 1 implies !#[trigger] model.is_waiting(
                    tail[k],
                ) by {
                    assert(tail[k] == queue[k + 1]);
                }
            }
            if forall|k: int| 0 <= k < queue.len() ==> !#[trigger] model.is_waiting(queue[k]) {
                assert forall|k: int| 0 <= k < tail.len() implies !#[trigger] model.is_waiting(
                    tail[k],
                ) by {
                    assert(tail[k] == queue[k + 1]);
                }
            }
        }
    }
}

/// Once the retention of some program can have ended, exactly the idle programs go that have rested
/// for the whole time, and the next such moment is noted; before, nothing changes.
pub proof fn lemma_expiry(model: Model, now: u64, name: Seq<char>)
    requires
        model.ledger.programs.dom().finite(),
    ensures
        ({
            let next = model.programs_expired(now).0;
            let retention = model.config.session_retention;
            let due = model.next_retention_expiry matches Some(at) && at <= now;
            let rested = exists|since: u64| #[trigger]
                rests_since(model.sessions, name, model.ledger.programs[name], since) && since
                    + retention <= now;
            &&& !due ==> next == model
            &&& due && rested ==> !next.ledger.programs.contains_key(name)
            &&& !rested ==> next.ledger.programs.contains_key(name)
                == model.ledger.programs.contains_key(name)
            &&& !rested && model.ledger.programs.contains_key(name) ==> next.ledger.programs[name]
                == model.ledger.programs[name]
            &&& next.requests == model.requests
            &&& next.sessions == model.sessions
            &&& next.arrivals == model.arrivals
            &&& next.timer_owner == model.timer_owner
            &&& next.config == model.config
        }),
{
    let keys = expired(
        model.sessions,
        now,
        model.config.session_retention,
    );
    let gone = model.ledger.order_by(keys);
    lemma_rested_programs_expire(
        model.ledger,
        model.sessions,
        now,
        model.config.session_retention,
        name,
    );
    lemma_taken_out(model.ledger, gone, name);
}

proof fn lemma_taken_out(ledger: Ledger, order: Seq<Rank>, name: Seq<char>)
    ensures
        is_taken(order, name) ==> !ledger.without_all(order).programs.contains_key(name),
        !is_taken(order, name) ==> ledger.without_all(order).programs.contains_key(name)
            == ledger.programs.contains_key(name),
        !is_taken(order, name) && ledger.programs.contains_key(name) ==> ledger.without_all(
            order,
        ).programs[name] == ledger.programs[name],
        !ledger.programs.contains_key(name) ==> !ledger.without_all(order).programs.contains_key(
            name,
        ),
    decreases order.len(),
{
    if order.len() > 0 {
        let rest = order.drop_first();
        lemma_taken_out(ledger.without(order[0].name), rest, name);
        if is_taken(order, name) {
            let at = choose|at: int| 0 <= at < order.len() && (#[trigger] order[at]).name == name;
            if at > 0 {
                assert(rest[at - 1].name == name);
            }
        } else {
            assert(order[0].name != name);
            assert forall|at: int| 0 <= at < rest.len() implies (#[trigger] rest[at]).name
                != name by {
                assert(order[at + 1].name != name);
            }
        }
    }
}

/// The noted end of retention is never later than that of a session that has just become idle.
pub proof fn lemma_retention_is_noted(model: Model, session: Seq<char>)
    ensures
        ({
            let next = model.retention_scheduled(session);
            let program = model.ledger.programs[session];
            let idle = !model.sessions.contains_key(session) && model.ledger.programs.contains_key(
                session,
            ) && program.status == ProgramStatus::Acting && program.acting_since is Some;
            &&& !idle ==> next == model
            &&& idle ==> {
                let deadline = program.acting_since->0 + model.config.session_retention;
                &&& next == (Model {
                    next_retention_expiry: next.next_retention_expiry,
                    ..model
                })
                &&& next.next_retention_expiry matches Some(at) && at <= deadline && (at == deadline
                    || model.next_retention_expiry == Some(at))
                &&& model.next_retention_expiry matches Some(before)
                    ==> next.next_retention_expiry->0 <= before
            }
        }),
{
}

/// With a new snapshot that reports anything, programs lose workers that are not live, and nothing
/// else changes in the tables; a snapshot that was seen changes nothing.
pub proof fn lemma_leaving_workers(model: Model, capacities: Capacities, name: Seq<char>)
    requires
        model.ledger.programs.dom().finite(),
    ensures
        ({
            let next = model.removed_cleared(capacities).0;
            let program = model.ledger.programs[name];
            let silent = capacities.cards.len() == 0 && capacities.live is None;
            let gone = program.assigned_worker matches Some(worker) && !live(capacities, worker);
            let seen = model.snapshot_id == Some(capacities.id);
            &&& seen ==> next == model
            &&& next.snapshot_id == Some(capacities.id)
            &&& next.ledger.programs.contains_key(name) == model.ledger.programs.contains_key(name)
            &&& model.ledger.programs.contains_key(name) && (seen || silent || !gone)
                ==> next.ledger.programs[name] == program
            &&& model.ledger.programs.contains_key(name) && !seen && !silent && gone
                ==> next.ledger.programs[name] == (Program { assigned_worker: None, ..program })
            &&& next.requests == model.requests
            &&& next.sessions == model.sessions
            &&& next.arrivals == model.arrivals
            &&& next.timer_owner == model.timer_owner
            &&& next.config == model.config
        }),
{
    let gone = model.ledger.order_by(on_removed_worker(capacities));
    lemma_stranded_are_taken(model.ledger, capacities, name);
    if let Some(worker) = model.ledger.programs[name].assigned_worker {
        lemma_liveness(capacities, worker);
    }
    lemma_taken_off(model.ledger, gone, name);
}

proof fn lemma_taken_off(ledger: Ledger, order: Seq<Rank>, name: Seq<char>)
    ensures
        ({
            let after = ledger.unassigned(order);
            &&& after.programs.contains_key(name) == ledger.programs.contains_key(name)
            &&& ledger.programs.contains_key(name) && is_taken(order, name) ==> after.programs[name]
                == (Program { assigned_worker: None, ..ledger.programs[name] })
            &&& ledger.programs.contains_key(name) && !is_taken(order, name)
                ==> after.programs[name] == ledger.programs[name]
        }),
    decreases order.len(),
{
    if order.len() > 0 {
        let rest = order.drop_first();
        lemma_taken_off(ledger.assigned(order[0].name, None), rest, name);
        if is_taken(order, name) {
            let at = choose|at: int| 0 <= at < order.len() && (#[trigger] order[at]).name == name;
            if at > 0 {
                assert(rest[at - 1].name == name);
            }
        } else {
            assert(order[0].name != name);
            assert forall|at: int| 0 <= at < rest.len() implies (#[trigger] rest[at]).name
                != name by {
                assert(order[at + 1].name != name);
            }
        }
    }
}

/// A program between turns that runs can be paused, and loses its worker; any other stays as it is.
pub proof fn lemma_pausing(ledger: Ledger, session: Seq<char>)
    ensures
        ({
            let next = ledger.with_paused(session);
            let program = ledger.programs[session];
            let runs = ledger.programs.contains_key(session) && program.lifecycle
                == ProgramLifecycle::Active && program.status == ProgramStatus::Acting;
            &&& ledger.can_pause(session) <==> runs
            &&& !runs ==> next == ledger
            &&& runs ==> next.programs == ledger.programs.insert(
                session,
                Program {
                    lifecycle: ProgramLifecycle::Paused,
                    assigned_worker: None,
                    ..program
                },
            )
        }),
{
    let next = ledger.with_paused(session);
    if ledger.can_pause(session) {
        let paused = Program {
            lifecycle: ProgramLifecycle::Paused,
            assigned_worker: None,
            ..ledger.programs[session]
        };
        assert(next.programs =~= ledger.programs.insert(session, paused));
    }
}

/// A session is assigned to its program's worker, and to none without a program or a worker; it is
/// paused where its program is.
pub proof fn lemma_tables_follow_programs(ledger: Ledger, session: Seq<char>)
    ensures
        ledger.assignments().contains_key(session) <==> ledger.programs.contains_key(session)
            && ledger.programs[session].assigned_worker is Some,
        ledger.assignments().contains_key(session) ==> ledger.programs[session].assigned_worker
            == Some(ledger.assignments()[session]),
        ledger.paused().contains(session) <==> ledger.programs.contains_key(session)
            && ledger.programs[session].lifecycle == ProgramLifecycle::Paused,
{
}

/// A worker on which nothing is left has no entry.
pub proof fn lemma_empty_workers_leave(
    usage: Map<WorkerWithDpRank, usize>,
    worker: WorkerWithDpRank,
    tokens: usize,
)
    ensures
        ({
            let next = usage_less(usage, Some((worker, tokens)));
            &&& next.contains_key(worker) ==> next[worker] > 0 && next[worker] == usage[worker]
                - tokens
            &&& usage.contains_key(worker) && usage[worker] > tokens ==> next.contains_key(worker)
            &&& next.remove(worker) == usage.remove(worker)
            &&& usage_less(usage, None) == usage
        }),
{
    let next = usage_less(usage, Some((worker, tokens)));
    assert(next.remove(worker) =~= usage.remove(worker));
}

} // verus!
