//! How the steps are made up of smaller ones, and what the larger stages come to.
use vstd::prelude::*;

use crate::choice::pick;
use crate::policy_queue::choices::{
    decayed_at, forced_worker, is_last_report, lemma_forced_program_goes_to_the_most_spare,
    lemma_last_report_counts, lemma_reported_is_known, used_at,
};
use crate::policy_queue::effects::{lemma_assignment, lemma_pause, lemma_removal, same_queue};
use crate::policy_queue::indexed::with_program;
use crate::policy_queue::model::{
    is_known, known_once, latest_reports, more_spare_worker, open_rooms, outlived, overdue,
    picked_worker, resume_fairness, roomiest, stranded, taking_workers, usage_of, usage_without,
    PolicyQueueWorker, QueueModel,
};
use crate::policy_queue::policy::PolicyQueueEvent;
use crate::policy_queue::precedence::{
    lemma_outlived_are_taken, lemma_smaller_is_relieved_first, lemma_stranded_are_taken, takes,
};
use crate::policy_queue::programs::{
    distinct, entry_names, lemma_entry, lemma_with_program, placed_order,
};
use crate::ranking::Rank;
use crate::thunderagent::config::ThunderAgentConfig;
use crate::thunderagent::placement::Room;
use crate::thunderagent::precedence::{is_taken, precedes, taken_once};
use crate::thunderagent::program::{Program, ProgramLifecycle, ProgramStatus};
use crate::thunderagent::relief::on_worker;
use crate::thunderagent::usage::WorkerUsage;
use crate::worker::WorkerWithDpRank;

verus! {

/// A new policy knows nothing, and its first periodic step is due after the interval.
pub proof fn lemma_fresh(config: ThunderAgentConfig, now: u64, name: Seq<char>, id: u64)
    ensures
        ({
            let model = QueueModel::fresh(config, now);
            &&& model.config == config
            &&& model.program(name) is None
            &&& model.paused.len() == 0
            &&& model.workers.len() == 0
            &&& !model.requests.contains_key(id)
            &&& !model.request_ids.contains_key(name)
            &&& !model.sessions.contains_key(name)
            &&& !model.assignments.contains_key(name)
            &&& model.next_tick == now + config.scheduler_interval
        }),
{
}

/// The rest of an order whose names are all different.
proof fn lemma_rest(order: Seq<Rank>, name: Seq<char>)
    requires
        order.len() > 0,
        taken_once(order),
    ensures
        taken_once(order.drop_first()),
        !is_taken(order.drop_first(), order[0].name),
        name != order[0].name ==> (is_taken(order, name) <==> is_taken(order.drop_first(), name)),
        is_taken(order, order[0].name),
{
    let rest = order.drop_first();
    assert forall|i: int, j: int| 0 <= i < j < rest.len() implies (#[trigger] rest[i]).name != (
    #[trigger] rest[j]).name by {
        assert(order[i + 1].name != order[j + 1].name);
    }
    assert forall|at: int| 0 <= at < rest.len() implies (#[trigger] rest[at]).name
        != order[0].name by {
        assert(order[0].name != order[at + 1].name);
    }
    if name != order[0].name {
        if is_taken(order, name) {
            let at = choose|at: int| 0 <= at < order.len() && (#[trigger] order[at]).name == name;
            assert(rest[at - 1].name == name);
        }
        if is_taken(rest, name) {
            let at = choose|at: int| 0 <= at < rest.len() && (#[trigger] rest[at]).name == name;
            assert(order[at + 1].name == name);
        }
    }
}

proof fn lemma_unassigning(model: QueueModel, order: Seq<Rank>, name: Seq<char>)
    requires
        distinct(model.programs),
        taken_once(order),
    ensures
        ({
            let next = model.unassigned(order);
            &&& same_queue(model, next)
            &&& next.paused == model.paused
            &&& distinct(next.programs)
            &&& !is_taken(order, name) ==> next.program(name) == model.program(name)
            &&& is_taken(order, name) && model.program(name) is Some ==> next.program(name) == Some(
                Program { assigned_worker: None, ..model.program(name)->0 },
            )
            &&& !is_taken(order, name) ==> next.assignments.contains_key(name)
                == model.assignments.contains_key(name) && next.assignments[name]
                == model.assignments[name]
            &&& is_taken(order, name) ==> !next.assignments.contains_key(name)
        }),
    decreases order.len(),
{
    if order.len() > 0 {
        let first = order[0].name;
        let rest = order.drop_first();
        let here = model.assigned(first, None);
        lemma_assignment(model, first, None);
        lemma_rest(order, name);
        lemma_unassigning(here, rest, name);
        if name != first {
            assert(here.program(name) == model.program(name));
        }
    }
}

/// The workers are known as they were last reported. A program whose worker was not reported leaves
/// it; no other program changes.
pub proof fn lemma_workers_change(
    model: QueueModel,
    workers: Seq<PolicyQueueWorker>,
    name: Seq<char>,
)
    requires
        distinct(model.programs),
        model.programs.len() <= u64::MAX,
    ensures
        ({
            let next = model.workers_updated(workers);
            let program = model.program(name)->0;
            let gone = model.program(name) is Some && program.assigned_worker is Some && forall|
                at: int,
            |
                0 <= at < workers.len() ==> (#[trigger] workers[at]).worker
                    != program.assigned_worker->0;
            &&& next.workers == latest_reports(workers)
            &&& next.requests == model.requests
            &&& next.request_ids == model.request_ids
            &&& next.sessions == model.sessions
            &&& next.paused == model.paused
            &&& next.next_tick == model.next_tick
            &&& next.config == model.config
            &&& distinct(next.programs)
            &&& !gone ==> next.program(name) == model.program(name)
            &&& gone ==> next.program(name) == Some(Program { assigned_worker: None, ..program })
            &&& gone ==> !next.assignments.contains_key(name)
            &&& !gone ==> next.assignments.contains_key(name) == model.assignments.contains_key(
                name,
            ) && next.assignments[name] == model.assignments[name]
        }),
{
    let seen = QueueModel { workers: latest_reports(workers), ..model };
    let order = placed_order(entry_names(seen.programs), seen.programs, stranded(seen.workers));
    lemma_stranded_are_taken(seen, seen.workers, name);
    lemma_unassigning(seen, order, name);
    assert(seen.program(name) == model.program(name));
    if model.program(name) is Some && model.program(name)->0.assigned_worker is Some {
        let worker = model.program(name)->0.assigned_worker->0;
        if exists|at: int| 0 <= at < workers.len() && (#[trigger] workers[at]).worker == worker {
            let at = choose|at: int|
                0 <= at < workers.len() && (#[trigger] workers[at]).worker == worker;
            lemma_reported_is_known(workers, at);
        }
        if is_known(seen.workers, worker) {
            lemma_last_report_counts(workers);
            let k = choose|k: int|
                0 <= k < seen.workers.len() && (#[trigger] seen.workers[k]).worker == worker;
            assert(seen.workers.contains(seen.workers[k]));
            let at = choose|at: int| #[trigger]
                is_last_report(workers, at) && workers[at]
                    == seen.workers[k];
            assert(workers[at].worker == worker);
        }
    }
}

proof fn lemma_leaving(model: QueueModel, order: Seq<Rank>, name: Seq<char>)
    requires
        distinct(model.programs),
        taken_once(order),
    ensures
        ({
            let next = model.without_all(order);
            &&& same_queue(model, next)
            &&& distinct(next.programs)
            &&& !is_taken(order, name) ==> next.program(name) == model.program(name)
            &&& is_taken(order, name) ==> next.program(name) is None
        }),
    decreases order.len(),
{
    if order.len() > 0 {
        let first = order[0].name;
        let here = model.without(first);
        lemma_removal(model, first);
        lemma_rest(order, name);
        lemma_leaving(here, order.drop_first(), name);
        if name != first {
            assert(here.program(name) == model.program(name));
        }
    }
}

/// A program leaves the table exactly when its session has no request and it has been between turns
/// for no less than the retention time.
pub proof fn lemma_retention(model: QueueModel, now: u64, name: Seq<char>)
    requires
        distinct(model.programs),
        model.programs.len() <= u64::MAX,
    ensures
        ({
            let next = model.programs_expired(now);
            let program = model.program(name)->0;
            let retention = model.config.session_retention;
            let over = {
                &&& model.program(name) is Some
                &&& program.status == ProgramStatus::Acting
                &&& !model.sessions.contains_key(name)
                &&& program.acting_since is Some
                &&& program.acting_since->0 + retention <= now || (retention == 0
                    && program.acting_since->0 > now)
            };
            &&& same_queue(model, next)
            &&& distinct(next.programs)
            &&& over ==> next.program(name) is None
            &&& !over ==> next.program(name) == model.program(name)
        }),
{
    let order = placed_order(
        entry_names(model.programs),
        model.programs,
        outlived(model.sessions, now, model.config.session_retention),
    );
    lemma_outlived_are_taken(
        model,
        model.sessions,
        now,
        model.config.session_retention,
        name,
    );
    lemma_leaving(model, order, name);
}

/// Offering room to one more program: where no room takes it nothing happens. Otherwise it resumes in
/// the room that takes it, and the room is smaller by its tokens and the headroom.
pub proof fn lemma_packing_step(
    model: QueueModel,
    rooms: Seq<Room>,
    decays: Map<Seq<char>, usize>,
    usage: Map<WorkerWithDpRank, WorkerUsage>,
    order: Seq<Rank>,
)
    ensures
        order.len() == 0 ==> ({
            let all = model.packed(rooms, decays, usage, order);
            all.model == model && all.ready.len() == 0 && all.usage == usage
        }),
        order.len() > 0 ==> {
            let name = order[0].name;
            let rest = order.drop_first();
            let whole = takes(model, name);
            let seat = roomiest(rooms, whole as usize, model.program(name)->0.assigned_worker);
            let room = rooms[seat->0];
            let (after, ready) = model.resumed(name, Some(room.worker));
            let all = model.packed(rooms, decays, usage, order);
            let skipped = model.program(name) is None || seat is None;
            &&& skipped ==> all == model.packed(rooms, decays, usage, rest)
            &&& !skipped ==> {
                let later = after.packed(
                    rooms.update(
                        seat->0,
                        Room { available: (room.available - whole) as usize, ..room },
                    ),
                    decays,
                    after.usage_resumed(usage, room.worker, name, decays),
                    rest,
                );
                &&& all.model == later.model
                &&& all.usage == later.usage
                &&& all.ready == ready + later.ready
            }
        },
{
}

/// A resumed program is counted on its worker with what it holds there and the headroom, as far as
/// that can be counted; no other worker's usage changes.
pub proof fn lemma_resumed_usage(
    model: QueueModel,
    usage: Map<WorkerWithDpRank, WorkerUsage>,
    worker: WorkerWithDpRank,
    name: Seq<char>,
    decays: Map<Seq<char>, usize>,
)
    requires
        model.program(name) is Some,
    ensures
        ({
            let next = model.usage_resumed(usage, worker, name, decays);
            let program = model.program(name)->0;
            let buffer = model.config.buffer_per_program;
            let acting = program.status == ProgramStatus::Acting;
            let tokens = if acting {
                program.acting_tokens
            } else {
                program.token_total
            };
            let left = if acting && decays.contains_key(name) {
                decays[name]
            } else {
                program.token_total
            };
            let used = used_at(usage, worker) + tokens + buffer;
            let decayed = decayed_at(usage, worker) + left + buffer;
            &&& next.remove(worker) == usage.remove(worker)
            &&& next.contains_key(worker)
            &&& used <= usize::MAX ==> next[worker].used == used
            &&& used > usize::MAX ==> next[worker].used == usize::MAX
            &&& decayed <= usize::MAX ==> next[worker].decayed == decayed
            &&& decayed > usize::MAX ==> next[worker].decayed == usize::MAX
        }),
{
    let next = model.usage_resumed(usage, worker, name, decays);
    assert(next.remove(worker) =~= usage.remove(worker));
}

/// Forcing one more program: it resumes on the available worker that has the most over, or without a
/// worker where none takes it but some worker is available; while none is available it stays as it
/// is.
pub proof fn lemma_forcing_step(
    model: QueueModel,
    decays: Map<Seq<char>, usize>,
    usage: Map<WorkerWithDpRank, WorkerUsage>,
    order: Seq<Rank>,
) -> (target: Option<WorkerWithDpRank>)
    requires
        known_once(model.workers),
    ensures
        order.len() == 0 ==> ({
            let all = model.forced(decays, usage, order);
            all.model == model && all.ready.len() == 0
        }),
        order.len() > 0 ==> {
            let name = order[0].name;
            let rest = order.drop_first();
            let (after, ready) = model.resumed(name, target);
            let all = model.forced(decays, usage, order);
            let nowhere = target is None && forall|at: int|
                0 <= at < model.workers.len() ==> !(#[trigger] model.workers[at]).available;
            let skipped = model.program(name) is None || nowhere;
            let more = match target {
                Some(worker) => after.usage_resumed(usage, worker, name, decays),
                None => usage,
            };
            &&& forced_worker(
                model.workers,
                usage,
                model.program(name)->0.assigned_worker,
                target,
            )
            &&& skipped ==> all == model.forced(decays, usage, rest)
            &&& !skipped ==> {
                let later = after.forced(decays, more, rest);
                &&& all.model == later.model
                &&& all.ready == ready + later.ready
            }
        },
{
    let assigned = model.program(order[0].name)->0.assigned_worker;
    let target = picked_worker(
        model.workers,
        pick(
            model.workers.len() as int,
            taking_workers(model.workers, assigned),
            more_spare_worker(model.workers, usage),
        ),
    );
    lemma_forced_program_goes_to_the_most_spare(model.workers, usage, assigned);
    target
}

/// The tokens that a program between turns holds on its worker, with the headroom.
pub open spec fn acting_charge(model: QueueModel, name: Seq<char>) -> int {
    model.program(name)->0.acting_tokens + model.config.buffer_per_program
}

/// Draining a worker pauses the first programs of an order, each of which loses its worker, and
/// touches no other program. It goes on until no more than the goal is used on the worker or the
/// order ends, and it does not pause a program once the goal is reached.
pub proof fn lemma_draining(
    model: QueueModel,
    worker: WorkerWithDpRank,
    goal: usize,
    decays: Map<Seq<char>, usize>,
    usage: Map<WorkerWithDpRank, WorkerUsage>,
    order: Seq<Rank>,
) -> (count: int)
    requires
        distinct(model.programs),
        taken_once(order),
        forall|at: int|
            0 <= at < order.len() ==> {
                let program = model.program((#[trigger] order[at]).name);
                &&& program is Some
                &&& program->0.lifecycle == ProgramLifecycle::Active
                &&& program->0.status == ProgramStatus::Acting
            },
    ensures
        ({
            let (after, left) = model.drained(worker, goal, decays, usage, order);
            &&& 0 <= count <= order.len()
            &&& same_queue(model, after)
            &&& distinct(after.programs)
            &&& entry_names(after.programs) == entry_names(model.programs)
            &&& forall|at: int|
                0 <= at < count ==> {
                    let name = (#[trigger] order[at]).name;
                    after.program(name) == Some(
                        Program {
                            lifecycle: ProgramLifecycle::Paused,
                            assigned_worker: None,
                            ..model.program(name)->0
                        },
                    )
                }
            &&& forall|name: Seq<char>|
                #![trigger after.program(name)]
                (forall|at: int| 0 <= at < count ==> (#[trigger] order[at]).name != name)
                    ==> after.program(name) == model.program(name)
            &&& used_at(left, worker) <= goal || count == order.len()
            &&& count > 0 ==> used_at(left, worker) + acting_charge(model, order[count - 1].name)
                > goal
            &&& used_at(usage, worker) <= goal ==> count == 0
            &&& count == 0 ==> after == model && left == usage
        }),
    decreases order.len(),
{
    if order.len() == 0 || used_at(usage, worker) <= goal {
        0
    } else {
        let name = order[0].name;
        let rest = order.drop_first();
        let program = model.program(name)->0;
        let here = model.acting_paused(name);
        let less = usage_without(
            usage,
            worker,
            name,
            program,
            decays,
            model.config.buffer_per_program,
        );
        lemma_pause(model, name);
        lemma_rest(order, name);
        assert forall|at: int| 0 <= at < rest.len() implies {
            let other = (#[trigger] rest[at]).name;
            let program = here.program(other);
            &&& other != name
            &&& program == model.program(other)
            &&& program is Some
            &&& program->0.lifecycle == ProgramLifecycle::Active
            &&& program->0.status == ProgramStatus::Acting
        } by {
            assert(rest[at] == order[at + 1]);
            assert(order[0].name != order[at + 1].name);
            assert(here.program(order[at + 1].name) == model.program(order[at + 1].name));
        }
        let more = lemma_draining(here, worker, goal, decays, less, rest);
        let count = more + 1;
        let (after, left) = model.drained(worker, goal, decays, usage, order);
        assert((after, left) == here.drained(worker, goal, decays, less, rest));
        assert(used_at(less, worker) + acting_charge(model, name) >= used_at(usage, worker));
        assert forall|at: int| 0 <= at < count implies {
            let other = (#[trigger] order[at]).name;
            after.program(other) == Some(
                Program {
                    lifecycle: ProgramLifecycle::Paused,
                    assigned_worker: None,
                    ..model.program(other)->0
                },
            )
        } by {
            if at == 0 {
                assert forall|k: int| 0 <= k < more implies (#[trigger] rest[k]).name != name by {
                    assert(rest[k] == order[k + 1]);
                    assert(order[0].name != order[k + 1].name);
                }
                assert(after.program(name) == here.program(name));
            } else {
                assert(rest[at - 1] == order[at]);
            }
        }
        assert forall|other: Seq<char>|
            #![trigger after.program(other)]
            (forall|at: int| 0 <= at < count ==> (#[trigger] order[at]).name != other) implies
            after.program(other) == model.program(other) by {
            assert(order[0].name != other);
            assert forall|at: int| 0 <= at < more implies (#[trigger] rest[at]).name != other by {
                assert(order[at + 1].name != other);
            }
            assert(here.program(other) == model.program(other));
        }
        if more > 0 {
            assert(rest[more - 1] == order[count - 1]);
        }
        count
    }
}

/// Marking touches only the programs that it is given, and only their marks.
pub proof fn lemma_marking(model: QueueModel, order: Seq<Rank>, name: Seq<char>)
    requires
        distinct(model.programs),
        taken_once(order),
    ensures
        ({
            let after = model.marked(order);
            &&& same_queue(model, after)
            &&& after.paused == model.paused
            &&& after.assignments == model.assignments
            &&& distinct(after.programs)
            &&& !is_taken(order, name) ==> after.program(name) == model.program(name)
            &&& is_taken(order, name) && model.program(name) is Some ==> after.program(name) == Some(
                Program { marked_for_pause: true, ..model.program(name)->0 },
            )
        }),
    decreases order.len(),
{
    if order.len() > 0 {
        let first = order[0].name;
        let here = match model.program(first) {
            Some(program) => model.with_programs(
                with_program(
                    model.programs,
                    first,
                    Program { marked_for_pause: true, ..program },
                ),
            ),
            None => model,
        };
        if let Some(program) = model.program(first) {
            lemma_with_program(
                model.programs,
                first,
                Program { marked_for_pause: true, ..program },
            );
        }
        lemma_rest(order, name);
        lemma_marking(here, order.drop_first(), name);
        if name != first {
            assert(here.program(name) == model.program(name));
        }
    }
}

/// The relief of one worker. While it is not available, its limits are not known or no more than its
/// pause limit is used on it, nothing happens. Otherwise programs on it between turns are paused, the
/// smaller first and of equals the one that came earlier, until no more than its goal is used on it;
/// where they are not enough, those in a turn on it are marked to pause after it, and only then. No
/// other program is touched.
pub proof fn lemma_relief(
    model: QueueModel,
    worker: PolicyQueueWorker,
    decays: Map<Seq<char>, usize>,
    usage: Map<WorkerWithDpRank, WorkerUsage>,
    i: int,
    j: int,
)
    requires
        distinct(model.programs),
        model.programs.len() <= u64::MAX,
        0 <= i < model.programs.len(),
        0 <= j < model.programs.len(),
    ensures
        ({
            let (after, left) = model.relieved(worker, decays, usage);
            let (a, program) = model.programs[i];
            let (b, other) = model.programs[j];
            let limits = worker.limits->0;
            let rests = !worker.available || worker.limits is None || used_at(
                usage,
                worker.worker,
            ) <= limits.pause_limit;
            let here = program.lifecycle == ProgramLifecycle::Active && program.assigned_worker
                == Some(worker.worker) && !program.marked_for_pause;
            let there = other.lifecycle == ProgramLifecycle::Active && other.assigned_worker
                == Some(worker.worker) && !other.marked_for_pause;
            let acting = here && program.status == ProgramStatus::Acting;
            let reasoning = here && program.status == ProgramStatus::Reasoning;
            let paused = Program {
                lifecycle: ProgramLifecycle::Paused,
                assigned_worker: None,
                ..program
            };
            &&& same_queue(model, after)
            &&& rests ==> after == model && left == usage
            &&& !rests ==> {
                &&& !acting && !reasoning ==> after.program(a) == Some(program)
                &&& acting ==> after.program(a) == Some(program) || after.program(a) == Some(paused)
                &&& acting && used_at(left, worker.worker) > limits.pause_goal ==> after.program(a)
                    == Some(paused)
                &&& acting && there && other.status == ProgramStatus::Acting && (
                program.token_total < other.token_total || (program.token_total
                    == other.token_total && i < j)) && after.program(b)->0.lifecycle
                    == ProgramLifecycle::Paused ==> after.program(a) == Some(paused)
                &&& reasoning && used_at(left, worker.worker) <= limits.pause_goal
                    ==> after.program(a) == Some(program)
                &&& reasoning && used_at(left, worker.worker) > limits.pause_goal ==> after.program(
                    a,
                ) == Some(Program { marked_for_pause: true, ..program })
            }
        }),
{
    let limits = worker.limits->0;
    let at = worker.worker;
    let (a, program) = model.programs[i];
    let (b, other) = model.programs[j];
    lemma_entry(model.programs, i);
    lemma_entry(model.programs, j);
    if worker.available && worker.limits is Some && used_at(usage, at) > limits.pause_limit {
        let names = entry_names(model.programs);
        let acting = placed_order(names, model.programs, on_worker(at, ProgramStatus::Acting));
        let reasoning = placed_order(
            names,
            model.programs,
            on_worker(at, ProgramStatus::Reasoning),
        );
        lemma_smaller_is_relieved_first(model, at, ProgramStatus::Acting, i, j);
        lemma_smaller_is_relieved_first(model, at, ProgramStatus::Reasoning, i, j);
        assert forall|k: int| 0 <= k < acting.len() implies {
            let found = model.program((#[trigger] acting[k]).name);
            &&& found is Some
            &&& found->0.lifecycle == ProgramLifecycle::Active
            &&& found->0.status == ProgramStatus::Acting
        } by {
            assert(is_taken(acting, acting[k].name));
        }
        let count = lemma_draining(model, at, limits.pause_goal, decays, usage, acting);
        let (drained, left) = model.drained(at, limits.pause_goal, decays, usage, acting);
        lemma_marking(drained, reasoning, a);
        lemma_marking(drained, reasoning, b);
        assert(is_taken(acting, a) ==> !is_taken(reasoning, a));
        assert(is_taken(acting, b) ==> !is_taken(reasoning, b));
        if is_taken(acting, a) {
            let k = choose|k: int| 0 <= k < acting.len() && (#[trigger] acting[k]).name == a;
            if k < count {
                assert(drained.program(acting[k].name)->0.lifecycle == ProgramLifecycle::Paused);
            } else {
                assert forall|l: int| 0 <= l < count implies (#[trigger] acting[l]).name != a by {
                    assert(acting[l].name != acting[k].name);
                }
                assert(drained.program(a) == model.program(a));
            }
            if precedes(acting, a, b) {
                let (x, y) = choose|x: int, y: int|
                    0 <= x < y < acting.len() && (#[trigger] acting[x]).name == a && (
                    #[trigger] acting[y]).name == b;
                if y < count {
                    assert(drained.program(acting[x].name)->0.lifecycle
                        == ProgramLifecycle::Paused);
                } else {
                    assert forall|l: int| 0 <= l < count implies (#[trigger] acting[l]).name
                        != b by {
                        assert(acting[l].name != acting[y].name);
                    }
                    assert(drained.program(b) == model.program(b));
                }
            }
        } else {
            assert forall|l: int| 0 <= l < count implies (#[trigger] acting[l]).name != a by {
                assert(is_taken(acting, acting[l].name));
            }
            assert(drained.program(a) == model.program(a));
        }
    }
}

/// Workers are relieved one after the other, each with what the ones before it left.
pub proof fn lemma_reliefs_follow_each_other(
    model: QueueModel,
    worker: PolicyQueueWorker,
    workers: Seq<PolicyQueueWorker>,
    decays: Map<Seq<char>, usize>,
    usage: Map<WorkerWithDpRank, WorkerUsage>,
)
    ensures
        model.all_relieved(Seq::empty(), decays, usage) == model,
        ({
            let (after, left) = model.relieved(worker, decays, usage);
            model.all_relieved(seq![worker] + workers, decays, usage) == after.all_relieved(
                workers,
                decays,
                left,
            )
        }),
{
    assert((seq![worker] + workers).drop_first() =~= workers);
    assert((seq![worker] + workers)[0] == worker);
}

/// Before it is due the periodic step only brings the workers up to date. When it is due it ends
/// retention, offers room to paused programs, forces the overdue ones and relieves the workers, and is
/// due again after the interval. The requests of resumed programs come before those of forced ones.
pub proof fn lemma_reconcile_stages(
    model: QueueModel,
    workers: Seq<PolicyQueueWorker>,
    decays: Map<Seq<char>, usize>,
    now: u64,
)
    ensures
        ({
            let (next, ready) = model.reconciled(workers, decays, now);
            let seen = model.workers_updated(workers);
            let timed = QueueModel {
                next_tick: (now + model.config.scheduler_interval) as u128,
                ..seen
            };
            let kept = timed.programs_expired(now);
            let usage = usage_of(kept.programs, decays, kept.config.buffer_per_program);
            let resumed = kept.packed(
                open_rooms(kept.workers, usage, kept.config.buffer_per_program),
                decays,
                usage,
                placed_order(kept.paused, kept.programs, resume_fairness()),
            );
            let late = placed_order(
                resumed.model.paused,
                resumed.model.programs,
                overdue(now, resumed.model.config.resume_timeout),
            );
            let forced = resumed.model.forced(decays, resumed.usage, late);
            &&& now < model.next_tick ==> next == seen && ready.len() == 0
            &&& now >= model.next_tick ==> {
                &&& next == forced.model.all_relieved(forced.model.workers, decays, forced.usage)
                &&& ready == resumed.ready + forced.ready
                &&& kept.programs_resumed(decays, usage) == resumed
            }
        }),
{
}

/// Events: a dispatched request is dispatched, a completed or aborted one ends so, the periodic step
/// is taken, and others change nothing.
pub proof fn lemma_events(
    model: QueueModel,
    id: u64,
    worker: WorkerWithDpRank,
    request_id: String,
    context_tokens: Option<usize>,
    acting_tokens: usize,
    workers: Vec<PolicyQueueWorker>,
    decays: Map<Seq<char>, usize>,
    now: u64,
)
    ensures
        model.after_event(PolicyQueueEvent::Dispatched { id, worker }, decays, now) == (
            model.dispatched(id, worker),
            Seq::<u64>::empty(),
        ),
        model.after_event(
            PolicyQueueEvent::Completed { request_id, context_tokens, acting_tokens },
            decays,
            now,
        ) == model.finished(request_id@, true, context_tokens, acting_tokens, now),
        model.after_event(PolicyQueueEvent::Aborted { request_id }, decays, now)
            == model.finished(request_id@, false, None, 0, now),
        model.after_event(PolicyQueueEvent::Reconcile { workers }, decays, now)
            == model.reconciled(workers@, decays, now),
        model.after_event(PolicyQueueEvent::Other, decays, now) == (model, Seq::<u64>::empty()),
{
}

} // verus!
