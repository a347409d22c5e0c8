//! Which worker a program goes to.
use vstd::prelude::*;

use crate::choice::{lemma_pick, pick};
use crate::policy_queue::effects::{
    lemma_assignment, lemma_deferral, only_assignment, only_program, same_queue,
};
use crate::policy_queue::indexed::{with_item, ProgramEntry};
use crate::policy_queue::model::{
    admitting_workers, is_known, is_open, known_once, latest_reports, less_used_worker,
    more_spare_worker, open_rooms, picked_worker, roomier, roomiest, taking_workers, usage_at,
    usage_of, worker_at, PolicyQueueDecision, PolicyQueueWorker, QueueModel,
};
use crate::policy_queue::programs::distinct;
use crate::thunderagent::placement::{fitting_rooms, Room};
use crate::thunderagent::program::{Program, ProgramLifecycle, ProgramStatus};
use crate::thunderagent::usage::WorkerUsage;
use crate::worker::WorkerWithDpRank;

verus! {

/// A program resumes in a room that holds it, on its own worker where it has one. No such room is
/// larger, and of equals it is that on the lowest worker. It finds none exactly where there is no
/// such room.
pub proof fn lemma_largest_room(
    rooms: Seq<Room>,
    required: usize,
    assigned: Option<WorkerWithDpRank>,
)
    requires
        forall|i: int, j: int|
            0 <= i < j < rooms.len() ==> (#[trigger] rooms[i]).worker != (
            #[trigger] rooms[j]).worker,
    ensures
        match roomiest(rooms, required, assigned) {
            Some(found) => {
                &&& 0 <= found < rooms.len()
                &&& required <= rooms[found].available
                &&& assigned is None || assigned == Some(rooms[found].worker)
                &&& forall|at: int|
                    0 <= at < rooms.len() && required <= (#[trigger] rooms[at]).available && (
                    assigned is None || assigned == Some(rooms[at].worker))
                        ==> rooms[found].available >= rooms[at].available && (
                    rooms[found].available == rooms[at].available
                        ==> !rooms[at].worker.is_before(rooms[found].worker))
            },
            None => forall|at: int|
                0 <= at < rooms.len() && (assigned is None || assigned == Some(
                    (#[trigger] rooms[at]).worker,
                )) ==> required > rooms[at].available,
        },
{
    let count = rooms.len() as int;
    let fits = fitting_rooms(rooms, required, assigned);
    let better = roomier(rooms);
    lemma_pick(count, fits, better);
    match roomiest(rooms, required, assigned) {
        Some(found) => {
            assert(fits(found));
            assert forall|at: int|
                0 <= at < rooms.len() && required <= (#[trigger] rooms[at]).available && (
                assigned is None || assigned == Some(rooms[at].worker)) implies
                rooms[found].available >= rooms[at].available && (rooms[found].available
                == rooms[at].available ==> !rooms[at].worker.is_before(rooms[found].worker)) by {
                assert(fits(at));
                if at != found {
                    assert(better(found, at));
                }
            }
        },
        None => {
            assert forall|at: int|
                0 <= at < rooms.len() && (assigned is None || assigned == Some(
                    (#[trigger] rooms[at]).worker,
                )) implies required > rooms[at].available by {
                assert(!fits(at));
            }
        },
    }
}

/// A program runs on a worker.
pub open spec fn runs_on(program: Program, worker: WorkerWithDpRank) -> bool {
    program.lifecycle == ProgramLifecycle::Active && program.assigned_worker == Some(worker)
}

/// What the first programs of a table hold on a worker: in a turn their tokens, between turns their
/// weighted tokens, and the headroom for each.
pub open spec fn held_by_first(
    entries: Seq<ProgramEntry>,
    worker: WorkerWithDpRank,
    buffer: usize,
    count: int,
) -> int
    decreases count,
{
    if count <= 0 {
        0
    } else {
        let program = entries[count - 1].1;
        held_by_first(entries, worker, buffer, count - 1) + (if !runs_on(program, worker) {
            0
        } else if program.status == ProgramStatus::Acting {
            program.acting_tokens + buffer
        } else {
            program.token_total + buffer
        })
    }
}

/// The same with the tokens of programs between turns replaced by what is left of them, where that
/// is given.
pub open spec fn decayed_by_first(
    entries: Seq<ProgramEntry>,
    decays: Map<Seq<char>, usize>,
    worker: WorkerWithDpRank,
    buffer: usize,
    count: int,
) -> int
    decreases count,
{
    if count <= 0 {
        0
    } else {
        let (name, program) = entries[count - 1];
        decayed_by_first(entries, decays, worker, buffer, count - 1) + (if !runs_on(
            program,
            worker,
        ) {
            0
        } else if program.status == ProgramStatus::Acting && decays.contains_key(name) {
            decays[name] + buffer
        } else {
            program.token_total + buffer
        })
    }
}

/// A sum as far as it can be counted.
pub open spec fn counted(sum: int) -> int {
    if sum <= usize::MAX {
        sum
    } else {
        usize::MAX as int
    }
}

/// What is used on a worker; a worker without an entry is not used.
pub open spec fn used_at(
    usage: Map<WorkerWithDpRank, WorkerUsage>,
    worker: WorkerWithDpRank,
) -> int {
    if usage.contains_key(worker) {
        usage[worker].used as int
    } else {
        0
    }
}

/// What is used on a worker after decay.
pub open spec fn decayed_at(
    usage: Map<WorkerWithDpRank, WorkerUsage>,
    worker: WorkerWithDpRank,
) -> int {
    if usage.contains_key(worker) {
        usage[worker].decayed as int
    } else {
        0
    }
}

proof fn lemma_sums_of_fewer(
    entries: Seq<ProgramEntry>,
    decays: Map<Seq<char>, usize>,
    worker: WorkerWithDpRank,
    buffer: usize,
    count: int,
)
    requires
        0 <= count < entries.len(),
    ensures
        held_by_first(entries.drop_last(), worker, buffer, count) == held_by_first(
            entries,
            worker,
            buffer,
            count,
        ),
        decayed_by_first(entries.drop_last(), decays, worker, buffer, count) == decayed_by_first(
            entries,
            decays,
            worker,
            buffer,
            count,
        ),
        held_by_first(entries, worker, buffer, count) >= 0,
        decayed_by_first(entries, decays, worker, buffer, count) >= 0,
    decreases count,
{
    if count > 0 {
        lemma_sums_of_fewer(entries, decays, worker, buffer, count - 1);
        assert(entries.drop_last()[count - 1] == entries[count - 1]);
    }
}

/// The usage of a worker is the sum of what the running programs on it hold, and decayed usage the
/// same with decayed tokens.
pub proof fn lemma_usage(
    entries: Seq<ProgramEntry>,
    decays: Map<Seq<char>, usize>,
    buffer: usize,
    worker: WorkerWithDpRank,
)
    ensures
        ({
            let usage = usage_of(entries, decays, buffer);
            let count = entries.len() as int;
            &&& used_at(usage, worker) == counted(held_by_first(entries, worker, buffer, count))
            &&& decayed_at(usage, worker) == counted(
                decayed_by_first(entries, decays, worker, buffer, count),
            )
        }),
    decreases entries.len(),
{
    if entries.len() > 0 {
        let fewer = entries.drop_last();
        lemma_usage(fewer, decays, buffer, worker);
        lemma_sums_of_fewer(entries, decays, worker, buffer, entries.len() - 1);
    }
}

/// A worker is available, its limits are known, and a new program fits beside what is held there.
pub open spec fn takes_new(model: QueueModel, worker: PolicyQueueWorker, required: usize) -> bool {
    &&& worker.available
    &&& worker.limits is Some
    &&& held_in(model, worker.worker) + required <= worker.limits->0.capacity
}

/// What the programs of a state hold on a worker.
pub open spec fn held_in(model: QueueModel, worker: WorkerWithDpRank) -> int {
    counted(
        held_by_first(
            model.programs,
            worker,
            model.config.buffer_per_program,
            model.programs.len() as int,
        ),
    )
}

/// A new program goes to an available worker with known limits on which it fits beside what is held
/// there, and no such worker holds less; of equals it is the lowest. It goes nowhere exactly where it
/// fits on no such worker.
pub proof fn lemma_new_program_goes_to_the_least_used(model: QueueModel, required: usize)
    requires
        known_once(model.workers),
    ensures
        match model.admission_worker(required) {
            Some(worker) => {
                &&& exists|at: int|
                    0 <= at < model.workers.len() && (#[trigger] model.workers[at]).worker == worker
                        && takes_new(model, model.workers[at], required)
                &&& forall|at: int|
                    0 <= at < model.workers.len() && takes_new(
                        model,
                        #[trigger] model.workers[at],
                        required,
                    ) ==> held_in(model, worker) <= held_in(model, model.workers[at].worker) && (
                    held_in(model, worker) == held_in(model, model.workers[at].worker)
                        ==> !model.workers[at].worker.is_before(worker))
            },
            None => forall|at: int|
                0 <= at < model.workers.len() ==> !takes_new(
                    model,
                    #[trigger] model.workers[at],
                    required,
                ),
        },
{
    let usage = usage_of(model.programs, Map::empty(), model.config.buffer_per_program);
    assert forall|worker: WorkerWithDpRank| #[trigger] usage_at(usage, worker).used == held_in(
        model,
        worker,
    ) by {
        lemma_usage(model.programs, Map::empty(), model.config.buffer_per_program, worker);
    }
    let count = model.workers.len() as int;
    let may = admitting_workers(model.workers, usage, required);
    let better = less_used_worker(model.workers, usage);
    lemma_pick(count, may, better);
    match pick(count, may, better) {
        Some(found) => {
            let worker = model.workers[found].worker;
            assert(may(found));
            assert(takes_new(model, model.workers[found], required));
            assert forall|at: int|
                0 <= at < model.workers.len() && takes_new(
                    model,
                    #[trigger] model.workers[at],
                    required,
                ) implies held_in(model, worker) <= held_in(model, model.workers[at].worker) && (
            held_in(model, worker) == held_in(model, model.workers[at].worker)
                ==> !model.workers[at].worker.is_before(worker)) by {
                assert(may(at));
                if at != found {
                    assert(better(found, at));
                }
            }
        },
        None => {
            assert forall|at: int| 0 <= at < model.workers.len() implies !takes_new(
                model,
                #[trigger] model.workers[at],
                required,
            ) by {
                assert(!may(at));
            }
        },
    }
}

/// A worker is available with known limits, and a program may go there: to its own worker, or
/// anywhere where it has none.
pub open spec fn takes_forced(
    worker: PolicyQueueWorker,
    assigned: Option<WorkerWithDpRank>,
) -> bool {
    &&& worker.available
    &&& worker.limits is Some
    &&& assigned is None || assigned == Some(worker.worker)
}

/// What a worker has over after decayed usage.
pub open spec fn spare(
    worker: PolicyQueueWorker,
    usage: Map<WorkerWithDpRank, WorkerUsage>,
) -> int {
    worker.limits->0.capacity - decayed_at(usage, worker.worker)
}

/// The target of a forced program.
pub open spec fn forced_worker(
    workers: Seq<PolicyQueueWorker>,
    usage: Map<WorkerWithDpRank, WorkerUsage>,
    assigned: Option<WorkerWithDpRank>,
    target: Option<WorkerWithDpRank>,
) -> bool {
    match target {
        Some(worker) => exists|found: int|
            {
                &&& 0 <= found < workers.len()
                &&& (#[trigger] workers[found]).worker == worker
                &&& takes_forced(workers[found], assigned)
                &&& forall|at: int|
                    0 <= at < workers.len() && takes_forced(#[trigger] workers[at], assigned)
                        ==> spare(workers[found], usage) >= spare(workers[at], usage) && (spare(
                        workers[found],
                        usage,
                    ) == spare(workers[at], usage) ==> !workers[at].worker.is_before(worker))
            },
        None => forall|at: int|
            0 <= at < workers.len() ==> !takes_forced(#[trigger] workers[at], assigned),
    }
}

/// A forced program goes to an available worker with known limits, its own where it has one; no such
/// worker has more capacity over after decayed usage, and of equals it is the lowest. It goes nowhere
/// exactly where there is no such worker.
pub proof fn lemma_forced_program_goes_to_the_most_spare(
    workers: Seq<PolicyQueueWorker>,
    usage: Map<WorkerWithDpRank, WorkerUsage>,
    assigned: Option<WorkerWithDpRank>,
)
    requires
        known_once(workers),
    ensures
        forced_worker(
            workers,
            usage,
            assigned,
            picked_worker(
                workers,
                pick(
                    workers.len() as int,
                    taking_workers(workers, assigned),
                    more_spare_worker(workers, usage),
                ),
            ),
        ),
{
    let count = workers.len() as int;
    let may = taking_workers(workers, assigned);
    let better = more_spare_worker(workers, usage);
    lemma_pick(count, may, better);
    match pick(count, may, better) {
        Some(found) => {
            let worker = workers[found].worker;
            assert(may(found));
            assert forall|at: int|
                0 <= at < workers.len() && takes_forced(
                    #[trigger] workers[at],
                    assigned,
                ) implies spare(workers[found], usage) >= spare(workers[at], usage) && (spare(
                workers[found],
                usage,
            ) == spare(workers[at], usage) ==> !workers[at].worker.is_before(worker)) by {
                assert(may(at));
                if at != found {
                    assert(better(found, at));
                }
            }
            assert(workers[found].worker == worker);
        },
        None => {
            assert forall|at: int| 0 <= at < workers.len() implies !takes_forced(
                #[trigger] workers[at],
                assigned,
            ) by {
                assert(!may(at));
            }
        },
    }
}

/// A room is what an available worker has left under its resume limit, where that is more than the
/// headroom.
pub open spec fn room_on(
    worker: PolicyQueueWorker,
    usage: Map<WorkerWithDpRank, WorkerUsage>,
    buffer: usize,
    room: Room,
) -> bool {
    &&& worker.available
    &&& worker.limits is Some
    &&& room.worker == worker.worker
    &&& room.available == worker.limits->0.resume_limit - used_at(usage, worker.worker)
    &&& room.available > buffer
}

/// There is a room on every available worker that has more left under its resume limit than the
/// headroom, of the size that it has left; and no other.
pub proof fn lemma_rooms_are_what_is_left(
    workers: Seq<PolicyQueueWorker>,
    usage: Map<WorkerWithDpRank, WorkerUsage>,
    buffer: usize,
)
    ensures
        ({
            let rooms = open_rooms(workers, usage, buffer);
            &&& forall|at: int|
                0 <= at < rooms.len() ==> exists|from: int|
                    0 <= from < workers.len() && room_on(
                        #[trigger] workers[from],
                        usage,
                        buffer,
                        #[trigger] rooms[at],
                    )
            &&& forall|from: int, room: Room|
                0 <= from < workers.len() && #[trigger] room_on(
                    workers[from],
                    usage,
                    buffer,
                    room,
                ) ==> rooms.contains(room)
        }),
    decreases workers.len(),
{
    if workers.len() > 0 {
        let shorter = workers.drop_last();
        lemma_rooms_are_what_is_left(shorter, usage, buffer);
        let earlier = open_rooms(shorter, usage, buffer);
        let rooms = open_rooms(workers, usage, buffer);
        let last = workers.len() - 1;
        assert forall|at: int| 0 <= at < rooms.len() implies exists|from: int|
            0 <= from < workers.len() && room_on(
                #[trigger] workers[from],
                usage,
                buffer,
                #[trigger] rooms[at],
            ) by {
            if at < earlier.len() {
                assert(rooms[at] == earlier[at]);
                let from = choose|from: int|
                    0 <= from < shorter.len() && room_on(
                        #[trigger] shorter[from],
                        usage,
                        buffer,
                        earlier[at],
                    );
                assert(workers[from] == shorter[from]);
            } else {
                assert(room_on(workers[last], usage, buffer, rooms[at]));
            }
        }
        assert forall|from: int, room: Room|
            0 <= from < workers.len() && #[trigger] room_on(
                workers[from],
                usage,
                buffer,
                room,
            ) implies rooms.contains(room) by {
            if from < last {
                assert(shorter[from] == workers[from]);
                assert(room_on(shorter[from], usage, buffer, room));
                let at = choose|at: int| 0 <= at < earlier.len() && earlier[at] == room;
                assert(rooms[at] == room);
            } else {
                assert(rooms[rooms.len() - 1] == room);
            }
        }
    }
}

/// A report is its worker's last.
pub open spec fn is_last_report(reports: Seq<PolicyQueueWorker>, at: int) -> bool {
    &&& 0 <= at < reports.len()
    &&& forall|later: int|
        at < later < reports.len() ==> (#[trigger] reports[later]).worker != reports[at].worker
}

/// A worker is reported for the first time.
pub open spec fn is_first_report(
    reports: Seq<PolicyQueueWorker>,
    worker: WorkerWithDpRank,
    at: int,
) -> bool {
    &&& 0 <= at < reports.len()
    &&& reports[at].worker == worker
    &&& forall|earlier: int| 0 <= earlier < at ==> (#[trigger] reports[earlier]).worker != worker
}

/// One more report takes the place of its worker's, or else comes last.
proof fn lemma_one_more_report(reports: Seq<PolicyQueueWorker>) -> (place: int)
    requires
        reports.len() > 0,
        known_once(latest_reports(reports.drop_last())),
    ensures
        ({
            let had = latest_reports(reports.drop_last());
            let known = latest_reports(reports);
            let report = reports.last();
            &&& 0 <= place < known.len()
            &&& known[place] == report
            &&& known.len() == had.len() || (known.len() == had.len() + 1 && place == had.len())
            &&& place < had.len() ==> had[place].worker == report.worker && known.len()
                == had.len()
            &&& place == had.len() ==> !is_known(had, report.worker)
            &&& forall|at: int|
                #![trigger known[at]]
                #![trigger had[at]]
                0 <= at < known.len() && at != place ==> at < had.len() && known[at] == had[at]
                    && had[at].worker != report.worker
            &&& known_once(known)
        }),
{
    let had = latest_reports(reports.drop_last());
    let known = latest_reports(reports);
    let report = reports.last();
    let place = if is_known(had, report.worker) {
        worker_at(had, report.worker)
    } else {
        had.len() as int
    };
    assert forall|at: int|
        #![trigger known[at]]
        #![trigger had[at]]
        0 <= at < known.len() && at != place implies at < had.len() && known[at] == had[at]
        && had[at].worker != report.worker by {
        if is_known(had, report.worker) {
            if at < place {
                assert(had[at].worker != had[place].worker);
            } else {
                assert(had[place].worker != had[at].worker);
            }
        } else {
            assert(had[at] == known[at]);
        }
    }
    assert forall|i: int, j: int| 0 <= i < j < known.len() implies (#[trigger] known[i]).worker != (
    #[trigger] known[j]).worker by {
        if i != place && j != place {
            assert(had[i].worker != had[j].worker);
        }
    }
    place
}

/// Each reported worker is known once, as its last report says it, and no other is known.
pub proof fn lemma_last_report_counts(reports: Seq<PolicyQueueWorker>)
    ensures
        ({
            let known = latest_reports(reports);
            &&& known_once(known)
            &&& forall|at: int| #[trigger]
                is_last_report(reports, at) ==> known.contains(reports[at])
            &&& forall|report: PolicyQueueWorker| #[trigger]
                known.contains(report) ==> exists|at: int| #[trigger]
                    is_last_report(reports, at) && reports[at] == report
        }),
    decreases reports.len(),
{
    if reports.len() > 0 {
        let shorter = reports.drop_last();
        lemma_last_report_counts(shorter);
        let place = lemma_one_more_report(reports);
        let had = latest_reports(shorter);
        let known = latest_reports(reports);
        let last = reports.len() - 1;
        assert forall|at: int| #[trigger] is_last_report(reports, at) implies known.contains(
            reports[at],
        ) by {
            if at < last {
                assert(reports[last].worker != reports[at].worker);
                assert forall|later: int| at < later < shorter.len() implies (
                #[trigger] shorter[later]).worker != shorter[at].worker by {
                    assert(reports[later].worker != reports[at].worker);
                }
                assert(is_last_report(shorter, at));
                assert(had.contains(shorter[at]));
                let k = choose|k: int| 0 <= k < had.len() && had[k] == shorter[at];
                assert(known[k] == reports[at]);
            } else {
                assert(known[place] == reports[at]);
            }
        }
        assert forall|report: PolicyQueueWorker| #[trigger] known.contains(report) implies exists|
            at: int,
        | #[trigger] is_last_report(reports, at) && reports[at] == report by {
            let k = choose|k: int| 0 <= k < known.len() && known[k] == report;
            if k == place {
                assert(is_last_report(reports, last) && reports[last] == report);
            } else {
                assert(had[k] == report);
                assert(had.contains(report));
                let at = choose|at: int| #[trigger]
                    is_last_report(shorter, at) && shorter[at] == report;
                assert forall|later: int| at < later < reports.len() implies (
                #[trigger] reports[later]).worker != reports[at].worker by {
                    if later < last {
                        assert(shorter[later].worker != shorter[at].worker);
                    }
                }
                assert(is_last_report(reports, at) && reports[at] == report);
            }
        }
    }
}

/// Workers are known in the order in which they were first reported.
pub proof fn lemma_workers_keep_their_places(
    reports: Seq<PolicyQueueWorker>,
    i: int,
    j: int,
    first: int,
    second: int,
)
    requires
        0 <= i < j < latest_reports(reports).len(),
        is_first_report(reports, latest_reports(reports)[i].worker, first),
        is_first_report(reports, latest_reports(reports)[j].worker, second),
    ensures
        first < second,
    decreases reports.len(),
{
    let shorter = reports.drop_last();
    let had = latest_reports(shorter);
    let known = latest_reports(reports);
    let last = reports.len() - 1;
    lemma_last_report_counts(shorter);
    let place = lemma_one_more_report(reports);
    let a = known[i].worker;
    let b = known[j].worker;
    assert(i < had.len());
    assert(had[i].worker == a);
    assert(had.contains(had[i]));
    let from = choose|at: int| #[trigger] is_last_report(shorter, at) && shorter[at] == had[i];
    assert(reports[from].worker == a);
    assert(first <= from) by {
        if from < first {
            assert(reports[from].worker != a);
        }
    }
    assert(is_first_report(shorter, a, first)) by {
        assert forall|earlier: int| 0 <= earlier < first implies (
        #[trigger] shorter[earlier]).worker != a by {
            assert(reports[earlier].worker != a);
        }
    }
    if j < had.len() {
        assert(had[j].worker == b);
        assert(had.contains(had[j]));
        let to = choose|at: int| #[trigger] is_last_report(shorter, at) && shorter[at] == had[j];
        assert(reports[to].worker == b);
        assert(second <= to) by {
            if to < second {
                assert(reports[to].worker != b);
            }
        }
        assert(is_first_report(shorter, b, second)) by {
            assert forall|earlier: int| 0 <= earlier < second implies (
            #[trigger] shorter[earlier]).worker != b by {
                assert(reports[earlier].worker != b);
            }
        }
        lemma_workers_keep_their_places(shorter, i, j, first, second);
    } else {
        assert(j == place && b == reports[last].worker);
        if second < last {
            assert(shorter[second].worker == b);
            lemma_reported_is_known(shorter, second);
        }
    }
}

/// A reported worker is known.
pub proof fn lemma_reported_is_known(reports: Seq<PolicyQueueWorker>, at: int)
    requires
        0 <= at < reports.len(),
    ensures
        is_known(latest_reports(reports), reports[at].worker),
    decreases reports.len(),
{
    let shorter = reports.drop_last();
    let had = latest_reports(shorter);
    let known = latest_reports(reports);
    let report = reports.last();
    if at < shorter.len() {
        lemma_reported_is_known(shorter, at);
        let k = worker_at(had, reports[at].worker);
        if is_known(had, report.worker) {
            let place = worker_at(had, report.worker);
            assert(known[place] == report);
            assert(known[k].worker == reports[at].worker);
        } else {
            assert(known[k].worker == reports[at].worker);
        }
    } else if is_known(had, report.worker) {
        assert(known[worker_at(had, report.worker)].worker == report.worker);
    } else {
        assert(known[had.len() as int].worker == report.worker);
    }
}

/// A worker is known and available.
pub open spec fn serves(model: QueueModel, worker: WorkerWithDpRank) -> bool {
    exists|at: int|
        0 <= at < model.workers.len() && (#[trigger] model.workers[at]).worker == worker
            && model.workers[at].available
}

/// A worker is known.
pub open spec fn reported(model: QueueModel, worker: WorkerWithDpRank) -> bool {
    exists|at: int| 0 <= at < model.workers.len() && (#[trigger] model.workers[at]).worker == worker
}

/// The request's tokens and the headroom.
pub open spec fn needs(model: QueueModel, tokens: usize) -> usize {
    if tokens + model.config.buffer_per_program <= usize::MAX {
        (tokens + model.config.buffer_per_program) as usize
    } else {
        usize::MAX
    }
}

/// Whether a request whose turn has begun is ready, and on which worker. A paused program stays paused
/// and is deferred. A running program is ready on its worker while the worker is available, and is
/// deferred there while it is not. A program without a worker, or whose worker is gone, is placed: a
/// new one is deferred while any program is paused. Otherwise it is ready without a worker while no
/// worker is available with known limits, and else on the least used worker on which it fits, or
/// deferred where it fits on none.
pub proof fn lemma_decision(model: QueueModel, id: u64, now: u64)
    requires
        distinct(model.programs),
        known_once(model.workers),
    ensures
        ({
            let (next, decision) = model.decided(id, now);
            let request = model.requests[id];
            let session = request.session;
            let program = model.program(session)->0;
            let known = model.program(session) is Some;
            let paused = known && program.lifecycle == ProgramLifecycle::Paused;
            let own = program.assigned_worker;
            let bound = known && !paused && own is Some && reported(model, own->0);
            let free = known && !paused && !bound;
            let behind = request.prior is None && model.paused.len() > 0;
            let open = exists|at: int|
                0 <= at < model.workers.len() && (#[trigger] model.workers[at]).available
                    && model.workers[at].limits is Some;
            let base = if own is Some {
                model.assigned(session, None)
            } else {
                model
            };
            let required = needs(model, request.context_tokens);
            let fits = exists|at: int|
                0 <= at < model.workers.len() && takes_new(
                    base,
                    #[trigger] model.workers[at],
                    required,
                );
            let held = Program {
                lifecycle: ProgramLifecycle::Paused,
                deferred_since: Some(now),
                assigned_worker: None,
                ..program
            };
            let defers = paused || (bound && !serves(model, own->0)) || (free && (behind || (open
                && !fits)));
            &&& same_queue(model, next)
            &&& !known ==> next == model && decision == PolicyQueueDecision::Defer
            &&& known ==> (decision == PolicyQueueDecision::Defer <==> defers)
            &&& known ==> (decision == PolicyQueueDecision::Ready <==> !defers)
            &&& bound && serves(model, own->0) ==> next == model
            &&& known && defers ==> {
                &&& next.paused == with_item(model.paused, session)
                &&& !bound ==> only_program(model, next, session, held)
                &&& !bound ==> only_assignment(model, next, session, None)
                &&& bound ==> only_program(
                    model,
                    next,
                    session,
                    Program { assigned_worker: own, ..held },
                )
                &&& bound ==> next.assignments == model.assignments
            }
            &&& free && !defers && !open ==> {
                &&& next.paused == model.paused
                &&& only_program(model, next, session, Program { assigned_worker: None, ..program })
            }
            &&& free && !defers && open ==> exists|at: int|
                {
                    let worker = (#[trigger] model.workers[at]).worker;
                    &&& 0 <= at < model.workers.len()
                    &&& takes_new(base, model.workers[at], required)
                    &&& forall|other: int|
                        0 <= other < model.workers.len() && takes_new(
                            base,
                            #[trigger] model.workers[other],
                            required,
                        ) ==> held_in(base, worker) <= held_in(base, model.workers[other].worker)
                            && (held_in(base, worker) == held_in(
                            base,
                            model.workers[other].worker,
                        ) ==> !model.workers[other].worker.is_before(worker))
                    &&& next.paused == model.paused
                    &&& only_program(
                        model,
                        next,
                        session,
                        Program { assigned_worker: Some(worker), ..program },
                    )
                    &&& only_assignment(model, next, session, Some(worker))
                }
        }),
{
    let request = model.requests[id];
    let session = request.session;
    let (next, decision) = model.decided(id, now);
    if let Some(program) = model.program(session) {
        lemma_deferral(model, session, now, false);
        lemma_deferral(model, session, now, true);
        lemma_assignment(model, session, None);
        let own = program.assigned_worker;
        let required = needs(model, request.context_tokens);
        assert(required == request.context_tokens.saturating_add(
            model.config.buffer_per_program,
        ));
        if own is Some {
            assert(is_known(model.workers, own->0) <==> reported(model, own->0));
            if is_known(model.workers, own->0) {
                let at = worker_at(model.workers, own->0);
                assert(model.workers[at].worker == own->0);
                if serves(model, own->0) {
                    let other = choose|other: int|
                        0 <= other < model.workers.len() && (
                        #[trigger] model.workers[other]).worker == own->0
                            && model.workers[other].available;
                    if other < at {
                        assert(model.workers[other].worker != model.workers[at].worker);
                    }
                    if at < other {
                        assert(model.workers[at].worker != model.workers[other].worker);
                    }
                }
            }
        }
        let base = if own is Some {
            model.assigned(session, None)
        } else {
            model
        };
        assert(base.workers == model.workers && base.paused == model.paused);
        let cleared = Program { assigned_worker: None, ..program };
        assert(base.program(session) == Some(cleared));
        lemma_deferral(base, session, now, false);
        lemma_new_program_goes_to_the_least_used(base, required);
        if model.has_open_worker() {
            let at = choose|at: int|
                0 <= at < model.workers.len() && is_open(
                    #[trigger] model.workers[at],
                );
            assert(model.workers[at].available && model.workers[at].limits is Some);
        }
        let held = Program {
            lifecycle: ProgramLifecycle::Paused,
            deferred_since: Some(now),
            assigned_worker: None,
            ..program
        };
        let late = base.deferred(session, now, false);
        lemma_base(model, base, late, session, held);
        assert(late.assignments =~= model.assignments.remove(session));
        if own is None {
            assert(only_program(model, base, session, cleared));
        }
        if let Some(worker) = base.admission_worker(required) {
            lemma_assignment(base, session, Some(worker));
            let set = base.assigned(session, Some(worker));
            lemma_base(
                model,
                base,
                set,
                session,
                Program { assigned_worker: Some(worker), ..program },
            );
            assert(set.assignments =~= model.assignments.insert(session, worker));
            let at = choose|at: int|
                0 <= at < base.workers.len() && (#[trigger] base.workers[at]).worker == worker
                    && takes_new(base, base.workers[at], required);
            assert(model.workers[at].worker == worker);
        }
    }
}

proof fn lemma_base(
    model: QueueModel,
    base: QueueModel,
    next: QueueModel,
    session: Seq<char>,
    program: Program,
)
    requires
        base == model || exists|before: Program| only_program(model, base, session, before),
        only_program(base, next, session, program),
    ensures
        only_program(model, next, session, program),
{
    assert forall|other: Seq<char>| other != session implies #[trigger] next.program(other)
        == model.program(other) by {
        assert(next.program(other) == base.program(other));
    }
}

} // verus!
