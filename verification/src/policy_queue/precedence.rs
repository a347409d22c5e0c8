//! Which programs come first when programs are taken one after the other.
use vstd::prelude::*;

use crate::policy_queue::choices::lemma_largest_room;
use crate::policy_queue::effects::lemma_resumption;
use crate::policy_queue::indexed::{place_of_name, program_of, ProgramEntry};
use crate::policy_queue::model::{
    known_once, open_rooms, outlived, overdue, resume_fairness, roomiest, stranded,
    PolicyQueueWorker, QueueModel, QueueSession,
};
use crate::policy_queue::programs::{
    distinct, entry_names, lemma_entry, placed, placed_order, placed_ranks,
};
use crate::policy_queue::soundness::lemma_placed_ranks_finite;
use crate::ranking::{lemma_listing_exists, Rank};
use crate::text::lemma_text_order;
use crate::thunderagent::order::Keys;
use crate::thunderagent::placement::{acting, Room};
use crate::thunderagent::precedence::{is_taken, precedes, taken_once, turn_group};
use crate::thunderagent::program::{ProgramLifecycle, ProgramStatus};
use crate::thunderagent::relief::on_worker;
use crate::thunderagent::usage::WorkerUsage;
use crate::worker::WorkerWithDpRank;

verus! {

/// The names that have a program with a key are taken once each, a smaller key first and then by
/// place.
proof fn lemma_by_place(names: Seq<Seq<char>>, entries: Seq<ProgramEntry>, keys: Keys)
    requires
        names.no_duplicates(),
        names.len() <= u64::MAX,
    ensures
        taken_once(placed_order(names, entries, keys)),
        forall|name: Seq<char>| #[trigger]
            is_taken(placed_order(names, entries, keys), name) <==> names.contains(name)
                && program_of(entries, name) is Some && keys(
                name,
                program_of(entries, name)->0,
            ) is Some,
        forall|i: int, j: int|
            #![trigger names[i], names[j]]
            0 <= i < names.len() && 0 <= j < names.len() && program_of(entries, names[i]) is Some
                && program_of(entries, names[j]) is Some && ({
                let left = keys(names[i], program_of(entries, names[i])->0);
                let right = keys(names[j], program_of(entries, names[j])->0);
                &&& left is Some
                &&& right is Some
                &&& (left->0).0 < (right->0).0 || ((left->0).0 == (right->0).0 && ((left->0).1 < (
                right->0).1 || ((left->0).1 == (right->0).1 && i < j)))
            }) ==> precedes(placed_order(names, entries, keys), names[i], names[j]),
{
    let set = placed_ranks(names, entries, keys);
    let order = placed_order(names, entries, keys);
    lemma_placed_ranks_finite(names, entries, keys);
    lemma_listing_exists(set);
    assert forall|at: int| 0 <= at < order.len() implies (#[trigger] order[at]).place < names.len()
        && placed(names, entries, keys, order[at]) by {
        assert(order.to_set().contains(order[at]));
        assert(set.contains(order[at]));
    }
    assert forall|i: int, j: int| 0 <= i < j < order.len() implies (#[trigger] order[i]).name != (
    #[trigger] order[j]).name by {
        assert(order[i].is_before(order[j]));
        if order[i].name == order[j].name {
            assert(names[order[i].place as int] == names[order[j].place as int]);
            assert(order[i].place == order[j].place);
            lemma_text_order(order[i].name, order[j].name, order[i].name);
        }
    }
    assert forall|name: Seq<char>|
        names.contains(name) && program_of(entries, name) is Some && keys(
            name,
            program_of(entries, name)->0,
        ) is Some implies #[trigger] is_taken(order, name) by {
        let place = choose|place: int| 0 <= place < names.len() && names[place] == name;
        let key = keys(name, program_of(entries, name)->0)->0;
        let rank = Rank { major: key.0, minor: key.1, place: place as u64, name };
        assert(placed(names, entries, keys, rank));
        assert(set.contains(rank));
        assert(order.to_set().contains(rank));
        let at = choose|at: int| 0 <= at < order.len() && order[at] == rank;
        assert(order[at].name == name);
    }
    assert forall|name: Seq<char>| #[trigger] is_taken(order, name) implies names.contains(name)
        && program_of(entries, name) is Some && keys(
        name,
        program_of(entries, name)->0,
    ) is Some by {
        let at = choose|at: int| 0 <= at < order.len() && (#[trigger] order[at]).name == name;
        assert(placed(names, entries, keys, order[at]));
        assert(names[order[at].place as int] == name);
    }
    assert forall|i: int, j: int|
        #![trigger names[i], names[j]]
        0 <= i < names.len() && 0 <= j < names.len() && program_of(entries, names[i]) is Some
            && program_of(entries, names[j]) is Some && ({
            let left = keys(names[i], program_of(entries, names[i])->0);
            let right = keys(names[j], program_of(entries, names[j])->0);
            &&& left is Some
            &&& right is Some
            &&& (left->0).0 < (right->0).0 || ((left->0).0 == (right->0).0 && ((left->0).1 < (
            right->0).1 || ((left->0).1 == (right->0).1 && i < j)))
        }) implies precedes(order, names[i], names[j]) by {
        let a = names[i];
        let b = names[j];
        assert(names.contains(a) && names.contains(b));
        assert(is_taken(order, a) && is_taken(order, b));
        let at = choose|at: int| 0 <= at < order.len() && (#[trigger] order[at]).name == a;
        let to = choose|to: int| 0 <= to < order.len() && (#[trigger] order[to]).name == b;
        assert(placed(names, entries, keys, order[at]));
        assert(placed(names, entries, keys, order[to]));
        assert(order[at].place == i && order[to].place == j);
        if to < at {
            assert(order[to].is_before(order[at]));
        }
        assert(at < to);
    }
}

proof fn lemma_names_once(entries: Seq<ProgramEntry>)
    requires
        distinct(entries),
    ensures
        entry_names(entries).no_duplicates(),
        entry_names(entries).len() == entries.len(),
        forall|name: Seq<char>| #[trigger]
            entry_names(entries).contains(name) <==> program_of(entries, name) is Some,
        forall|at: int|
            0 <= at < entries.len() ==> #[trigger] entry_names(entries)[at] == entries[at].0,
{
    let names = entry_names(entries);
    assert forall|i: int, j: int| 0 <= i < names.len() && 0 <= j < names.len() && i != j implies (
    #[trigger] names[i]) != (#[trigger] names[j]) by {
        if i < j {
            assert(entries[i].0 != entries[j].0);
        } else {
            assert(entries[j].0 != entries[i].0);
        }
    }
    assert forall|name: Seq<char>| #[trigger] names.contains(name) implies program_of(
        entries,
        name,
    ) is Some by {
        let at = choose|at: int| 0 <= at < names.len() && names[at] == name;
        assert(entries[at].0 == name);
    }
    assert forall|name: Seq<char>| program_of(entries, name) is Some implies
        #[trigger] names.contains(name) by {
        let at = place_of_name(entries, name);
        assert(entries[at].0 == name);
        assert(names[at] == name);
    }
}

/// Paused programs are offered room in this order: those past their first turn that have a request,
/// then those in their first turn, then those past their first turn that have none. Within a group
/// the smaller comes first, and of equals the one that was paused earlier. Every paused program is
/// offered room once, and no other.
pub proof fn lemma_resume_order(model: QueueModel, i: int, j: int)
    requires
        model.tables_agree(),
        model.paused.len() <= u64::MAX,
        0 <= i < model.paused.len(),
        0 <= j < model.paused.len(),
    ensures
        ({
            let order = placed_order(model.paused, model.programs, resume_fairness());
            let a = model.paused[i];
            let b = model.paused[j];
            let left = model.program(a)->0;
            let right = model.program(b)->0;
            &&& model.program(a) is Some && model.program(b) is Some
            &&& taken_once(order)
            &&& forall|name: Seq<char>| #[trigger]
                is_taken(order, name) <==> model.program(name) is Some && model.program(
                    name,
                )->0.lifecycle == ProgramLifecycle::Paused
            &&& turn_group(left) < turn_group(right) ==> precedes(order, a, b)
            &&& turn_group(left) == turn_group(right) && left.token_total < right.token_total
                ==> precedes(order, a, b)
            &&& turn_group(left) == turn_group(right) && left.token_total == right.token_total && i
                < j ==> precedes(order, a, b)
        }),
{
    let names = model.paused;
    let entries = model.programs;
    let keys = resume_fairness();
    lemma_by_place(names, entries, keys);
    let a = names[i];
    let b = names[j];
    assert(names.contains(a) && names.contains(b));
    assert(model.is_paused(a) && model.is_paused(b));
    let order = placed_order(names, entries, keys);
    assert forall|name: Seq<char>| #[trigger] is_taken(order, name) <==> model.program(name) is Some
        && model.program(name)->0.lifecycle == ProgramLifecycle::Paused by {
        assert(names.contains(name) <==> model.is_paused(name));
    }
}

/// Packing changes only the programs that it is given.
proof fn lemma_packing_keeps(
    model: QueueModel,
    rooms: Seq<Room>,
    decays: Map<Seq<char>, usize>,
    usage: Map<WorkerWithDpRank, WorkerUsage>,
    order: Seq<Rank>,
    name: Seq<char>,
)
    requires
        distinct(model.programs),
        forall|at: int| 0 <= at < order.len() ==> (#[trigger] order[at]).name != name,
    ensures
        model.packed(rooms, decays, usage, order).model.program(name) == model.program(name),
    decreases order.len(),
{
    if order.len() > 0 {
        let first = order[0].name;
        let rest = order.drop_first();
        assert forall|at: int| 0 <= at < rest.len() implies (#[trigger] rest[at]).name != name by {
            assert(rest[at] == order[at + 1]);
        }
        match model.program(first) {
            None => lemma_packing_keeps(model, rooms, decays, usage, rest, name),
            Some(program) => {
                let required = program.token_total.saturating_add(model.config.buffer_per_program);
                match roomiest(rooms, required, program.assigned_worker) {
                    None => lemma_packing_keeps(model, rooms, decays, usage, rest, name),
                    Some(at) => {
                        let room = rooms[at];
                        let after = model.resumed(first, Some(room.worker)).0;
                        lemma_resumption(model, first, Some(room.worker));
                        lemma_packing_keeps(
                            after,
                            rooms.update(
                                at,
                                Room { available: (room.available - required) as usize, ..room },
                            ),
                            decays,
                            after.usage_resumed(usage, room.worker, first, decays),
                            rest,
                            name,
                        );
                        assert(after.program(name) == model.program(name));
                    },
                }
            },
        }
    }
}

/// Rooms are on different workers.
pub open spec fn rooms_apart(rooms: Seq<Room>) -> bool {
    forall|i: int, j: int|
        0 <= i < j < rooms.len() ==> (#[trigger] rooms[i]).worker != (#[trigger] rooms[j]).worker
}

/// The tokens that a program takes when it resumes: its own and the headroom.
pub open spec fn takes(model: QueueModel, name: Seq<char>) -> int {
    let whole = model.program(name)->0.token_total + model.config.buffer_per_program;
    if whole <= usize::MAX {
        whole
    } else {
        usize::MAX as int
    }
}

/// A program for which every room is too small stays paused.
proof fn lemma_too_large_stays(
    model: QueueModel,
    rooms: Seq<Room>,
    decays: Map<Seq<char>, usize>,
    usage: Map<WorkerWithDpRank, WorkerUsage>,
    order: Seq<Rank>,
    name: Seq<char>,
)
    requires
        distinct(model.programs),
        rooms_apart(rooms),
        model.program(name) is Some,
        forall|at: int|
            0 <= at < rooms.len() ==> (#[trigger] rooms[at]).available < takes(model, name),
    ensures
        model.packed(rooms, decays, usage, order).model.program(name) == model.program(name),
    decreases order.len(),
{
    if order.len() > 0 {
        let first = order[0].name;
        let rest = order.drop_first();
        match model.program(first) {
            None => lemma_too_large_stays(model, rooms, decays, usage, rest, name),
            Some(program) => {
                let required = program.token_total.saturating_add(model.config.buffer_per_program);
                lemma_largest_room(rooms, required, program.assigned_worker);
                match roomiest(rooms, required, program.assigned_worker) {
                    None => lemma_too_large_stays(model, rooms, decays, usage, rest, name),
                    Some(at) => {
                        assert(first != name);
                        let room = rooms[at];
                        let after = model.resumed(first, Some(room.worker)).0;
                        lemma_resumption(model, first, Some(room.worker));
                        assert(after.program(name) == model.program(name));
                        let left = rooms.update(
                            at,
                            Room { available: (room.available - required) as usize, ..room },
                        );
                        assert(rooms_apart(left)) by {
                            assert forall|i: int, j: int| 0 <= i < j < left.len() implies (
                            #[trigger] left[i]).worker != (#[trigger] left[j]).worker by {
                                assert(rooms[i].worker != rooms[j].worker);
                            }
                        }
                        lemma_too_large_stays(
                            after,
                            left,
                            decays,
                            after.usage_resumed(usage, room.worker, first, decays),
                            rest,
                            name,
                        );
                    },
                }
            },
        }
    }
}

proof fn lemma_packing_is_fair(
    model: QueueModel,
    rooms: Seq<Room>,
    decays: Map<Seq<char>, usize>,
    usage: Map<WorkerWithDpRank, WorkerUsage>,
    order: Seq<Rank>,
    a: Seq<char>,
    b: Seq<char>,
)
    requires
        distinct(model.programs),
        rooms_apart(rooms),
        taken_once(order),
        precedes(order, a, b),
        model.program(a) is Some,
        model.program(b) is Some,
        model.program(a)->0.lifecycle == ProgramLifecycle::Paused,
        model.program(b)->0.lifecycle == ProgramLifecycle::Paused,
        model.program(a)->0.assigned_worker is None,
        model.program(a)->0.token_total <= model.program(b)->0.token_total,
    ensures
        ({
            let after = model.packed(rooms, decays, usage, order).model;
            &&& after.program(a) is Some
            &&& after.program(b) is Some
            &&& after.program(b)->0.lifecycle == ProgramLifecycle::Active ==> after.program(
                a,
            )->0.lifecycle == ProgramLifecycle::Active
        }),
    decreases order.len(),
{
    let (i, j) = choose|i: int, j: int|
        0 <= i < j < order.len() && (#[trigger] order[i]).name == a && (#[trigger] order[j]).name
            == b;
    let first = order[0].name;
    let rest = order.drop_first();
    assert(taken_once(rest)) by {
        assert forall|k: int, l: int| 0 <= k < l < rest.len() implies (#[trigger] rest[k]).name != (
        #[trigger] rest[l]).name by {
            assert(order[k + 1].name != order[l + 1].name);
        }
    }
    assert(first != b) by {
        assert(order[0].name != order[j].name);
    }
    if i > 0 {
        assert(rest[i - 1].name == a && rest[j - 1].name == b);
        assert(precedes(rest, a, b));
        assert(first != a) by {
            assert(order[0].name != order[i].name);
        }
    } else {
        assert forall|at: int| 0 <= at < rest.len() implies (#[trigger] rest[at]).name != a by {
            assert(order[0].name != order[at + 1].name);
        }
    }
    match model.program(first) {
        None => {
            lemma_packing_is_fair(model, rooms, decays, usage, rest, a, b);
        },
        Some(program) => {
            let required = program.token_total.saturating_add(model.config.buffer_per_program);
            lemma_largest_room(rooms, required, program.assigned_worker);
            match roomiest(rooms, required, program.assigned_worker) {
                None => {
                    if i == 0 {
                        lemma_too_large_stays(model, rooms, decays, usage, rest, b);
                        lemma_packing_keeps(model, rooms, decays, usage, rest, a);
                    } else {
                        lemma_packing_is_fair(model, rooms, decays, usage, rest, a, b);
                    }
                },
                Some(at) => {
                    let room = rooms[at];
                    let after = model.resumed(first, Some(room.worker)).0;
                    lemma_resumption(model, first, Some(room.worker));
                    let left = rooms.update(
                        at,
                        Room { available: (room.available - required) as usize, ..room },
                    );
                    let more = after.usage_resumed(usage, room.worker, first, decays);
                    assert(rooms_apart(left)) by {
                        assert forall|k: int, l: int| 0 <= k < l < left.len() implies (
                        #[trigger] left[k]).worker != (#[trigger] left[l]).worker by {
                            assert(rooms[k].worker != rooms[l].worker);
                        }
                    }
                    assert(after.program(b) == model.program(b));
                    if i == 0 {
                        lemma_packing_keeps(after, left, decays, more, rest, a);
                        lemma_packing_has(after, left, decays, more, rest, b);
                    } else {
                        assert(after.program(a) == model.program(a));
                        lemma_packing_is_fair(after, left, decays, more, rest, a, b);
                    }
                },
            }
        },
    }
}

/// Packing takes no program out of the table.
proof fn lemma_packing_has(
    model: QueueModel,
    rooms: Seq<Room>,
    decays: Map<Seq<char>, usize>,
    usage: Map<WorkerWithDpRank, WorkerUsage>,
    order: Seq<Rank>,
    name: Seq<char>,
)
    requires
        distinct(model.programs),
        model.program(name) is Some,
    ensures
        model.packed(rooms, decays, usage, order).model.program(name) is Some,
    decreases order.len(),
{
    if order.len() > 0 {
        let first = order[0].name;
        let rest = order.drop_first();
        match model.program(first) {
            None => lemma_packing_has(model, rooms, decays, usage, rest, name),
            Some(program) => {
                let required = program.token_total.saturating_add(model.config.buffer_per_program);
                match roomiest(rooms, required, program.assigned_worker) {
                    None => lemma_packing_has(model, rooms, decays, usage, rest, name),
                    Some(at) => {
                        let room = rooms[at];
                        let after = model.resumed(first, Some(room.worker)).0;
                        lemma_resumption(model, first, Some(room.worker));
                        assert(name != first ==> after.program(name) == model.program(name));
                        lemma_packing_has(
                            after,
                            rooms.update(
                                at,
                                Room { available: (room.available - required) as usize, ..room },
                            ),
                            decays,
                            after.usage_resumed(usage, room.worker, first, decays),
                            rest,
                            name,
                        );
                    },
                }
            },
        }
    }
}

proof fn lemma_rooms_apart(
    workers: Seq<PolicyQueueWorker>,
    usage: Map<WorkerWithDpRank, WorkerUsage>,
    buffer: usize,
)
    requires
        known_once(workers),
    ensures
        rooms_apart(open_rooms(workers, usage, buffer)),
        forall|at: int|
            0 <= at < open_rooms(workers, usage, buffer).len() ==> exists|from: int|
                0 <= from < workers.len() && (#[trigger] workers[from]).worker == (
                #[trigger] open_rooms(workers, usage, buffer)[at]).worker,
    decreases workers.len(),
{
    if workers.len() > 0 {
        let earlier = open_rooms(workers.drop_last(), usage, buffer);
        let rooms = open_rooms(workers, usage, buffer);
        let shorter = workers.drop_last();
        assert forall|i: int, j: int| 0 <= i < j < shorter.len() implies (
        #[trigger] shorter[i]).worker != (#[trigger] shorter[j]).worker by {
            assert(workers[i].worker != workers[j].worker);
        }
        lemma_rooms_apart(shorter, usage, buffer);
        assert forall|at: int| 0 <= at < rooms.len() implies exists|from: int|
            0 <= from < workers.len() && (#[trigger] workers[from]).worker == (
            #[trigger] rooms[at]).worker by {
            if at < earlier.len() {
                assert(rooms[at] == earlier[at]);
                let from = choose|from: int|
                    0 <= from < shorter.len() && (#[trigger] shorter[from]).worker
                        == earlier[at].worker;
                assert(workers[from].worker == rooms[at].worker);
            } else {
                assert(workers[workers.len() - 1].worker == rooms[at].worker);
            }
        }
        assert forall|i: int, j: int| 0 <= i < j < rooms.len() implies (#[trigger] rooms[i]).worker
            != (#[trigger] rooms[j]).worker by {
            assert(rooms[i] == earlier[i]);
            if j < earlier.len() {
                assert(rooms[j] == earlier[j]);
            } else {
                let from = choose|from: int|
                    0 <= from < shorter.len() && (#[trigger] shorter[from]).worker
                        == earlier[i].worker;
                assert(workers[from].worker != workers[workers.len() - 1].worker);
            }
        }
    }
}

/// Of two paused programs the one offered room first is not left behind: where it is bound to no
/// worker and no larger than the other, and the other resumes, it resumes too. That holds of a
/// program past its first turn with a request against one in its first turn, of one in its first
/// turn against one past it without a request, and within a group of the smaller.
pub proof fn lemma_earlier_group_is_not_left_behind(
    model: QueueModel,
    decays: Map<Seq<char>, usize>,
    usage: Map<WorkerWithDpRank, WorkerUsage>,
    a: Seq<char>,
    b: Seq<char>,
)
    requires
        model.tables_agree(),
        model.paused.len() <= u64::MAX,
        known_once(model.workers),
        model.program(a) is Some,
        model.program(b) is Some,
        model.program(a)->0.lifecycle == ProgramLifecycle::Paused,
        model.program(b)->0.lifecycle == ProgramLifecycle::Paused,
        model.program(a)->0.assigned_worker is None,
        model.program(a)->0.token_total <= model.program(b)->0.token_total,
        turn_group(model.program(a)->0) < turn_group(model.program(b)->0) || (turn_group(
            model.program(a)->0,
        ) == turn_group(model.program(b)->0) && model.program(a)->0.token_total < model.program(
            b,
        )->0.token_total),
    ensures
        ({
            let after = model.programs_resumed(decays, usage).model;
            &&& after.program(a) is Some
            &&& after.program(b) is Some
            &&& after.program(b)->0.lifecycle == ProgramLifecycle::Active ==> after.program(
                a,
            )->0.lifecycle == ProgramLifecycle::Active
        }),
{
    assert(model.is_paused(a) && model.is_paused(b));
    assert(model.paused.contains(a) && model.paused.contains(b));
    let i = choose|i: int| 0 <= i < model.paused.len() && model.paused[i] == a;
    let j = choose|j: int| 0 <= j < model.paused.len() && model.paused[j] == b;
    lemma_resume_order(model, i, j);
    lemma_rooms_apart(model.workers, usage, model.config.buffer_per_program);
    lemma_packing_is_fair(
        model,
        open_rooms(model.workers, usage, model.config.buffer_per_program),
        decays,
        usage,
        placed_order(model.paused, model.programs, resume_fairness()),
        a,
        b,
    );
}

/// The programs that are forced are those paused ones that were deferred no less than the timeout
/// ago, in the order in which they were paused.
pub proof fn lemma_overdue_order(model: QueueModel, now: u64, timeout: u64, i: int, j: int)
    requires
        model.tables_agree(),
        model.paused.len() <= u64::MAX,
        0 <= i < model.paused.len(),
        0 <= j < model.paused.len(),
    ensures
        ({
            let order = placed_order(model.paused, model.programs, overdue(now, timeout));
            let a = model.paused[i];
            let b = model.paused[j];
            &&& taken_once(order)
            &&& forall|name: Seq<char>| #[trigger]
                is_taken(order, name) <==> {
                    let program = model.program(name)->0;
                    &&& model.program(name) is Some
                    &&& program.lifecycle == ProgramLifecycle::Paused
                    &&& program.deferred_since is Some
                    &&& program.deferred_since->0 + timeout <= now || (timeout == 0
                        && program.deferred_since->0 > now)
                }
            &&& is_taken(order, a) && is_taken(order, b) && i < j ==> precedes(order, a, b)
        }),
{
    let names = model.paused;
    let keys = overdue(now, timeout);
    lemma_by_place(names, model.programs, keys);
    let order = placed_order(names, model.programs, keys);
    assert forall|name: Seq<char>| #[trigger] is_taken(order, name) <==> {
        let program = model.program(name)->0;
        &&& model.program(name) is Some
        &&& program.lifecycle == ProgramLifecycle::Paused
        &&& program.deferred_since is Some
        &&& program.deferred_since->0 + timeout <= now || (timeout == 0
            && program.deferred_since->0 > now)
    } by {
        assert(names.contains(name) <==> model.is_paused(name));
    }
    assert(names[i] == names[i] && names[j] == names[j]);
}

/// The programs that leave the table are those between turns for no less than the retention time
/// whose session has no request.
pub proof fn lemma_outlived_are_taken(
    model: QueueModel,
    sessions: Map<Seq<char>, QueueSession>,
    now: u64,
    retention: u64,
    name: Seq<char>,
)
    requires
        distinct(model.programs),
        model.programs.len() <= u64::MAX,
    ensures
        ({
            let order = placed_order(
                entry_names(model.programs),
                model.programs,
                outlived(sessions, now, retention),
            );
            let program = model.program(name)->0;
            &&& taken_once(order)
            &&& is_taken(order, name) <==> {
                &&& model.program(name) is Some
                &&& program.status == ProgramStatus::Acting
                &&& !sessions.contains_key(name)
                &&& program.acting_since is Some
                &&& program.acting_since->0 + retention <= now || (retention == 0
                    && program.acting_since->0 > now)
            }
        }),
{
    lemma_names_once(model.programs);
    let names = entry_names(model.programs);
    lemma_by_place(names, model.programs, outlived(sessions, now, retention));
    assert(names.contains(name) <==> model.program(name) is Some);
}

/// The programs that leave their worker are those whose worker was not reported.
pub proof fn lemma_stranded_are_taken(
    model: QueueModel,
    workers: Seq<PolicyQueueWorker>,
    name: Seq<char>,
)
    requires
        distinct(model.programs),
        model.programs.len() <= u64::MAX,
    ensures
        ({
            let order = placed_order(
                entry_names(model.programs),
                model.programs,
                stranded(workers),
            );
            let program = model.program(name)->0;
            &&& taken_once(order)
            &&& is_taken(order, name) <==> {
                &&& model.program(name) is Some
                &&& program.assigned_worker is Some
                &&& forall|at: int|
                    0 <= at < workers.len() ==> (#[trigger] workers[at]).worker
                        != program.assigned_worker->0
            }
        }),
{
    lemma_names_once(model.programs);
    let names = entry_names(model.programs);
    lemma_by_place(names, model.programs, stranded(workers));
    assert(names.contains(name) <==> model.program(name) is Some);
}

/// A worker's programs with a status are taken unless they are marked to pause: the smaller first,
/// and of equals the one that came earlier.
pub proof fn lemma_smaller_is_relieved_first(
    model: QueueModel,
    worker: WorkerWithDpRank,
    status: ProgramStatus,
    i: int,
    j: int,
)
    requires
        distinct(model.programs),
        model.programs.len() <= u64::MAX,
        0 <= i < model.programs.len(),
        0 <= j < model.programs.len(),
    ensures
        ({
            let order = placed_order(
                entry_names(model.programs),
                model.programs,
                on_worker(worker, status),
            );
            let a = model.programs[i].0;
            let b = model.programs[j].0;
            let left = model.programs[i].1;
            let right = model.programs[j].1;
            &&& taken_once(order)
            &&& forall|name: Seq<char>| #[trigger]
                is_taken(order, name) <==> {
                    let program = model.program(name)->0;
                    &&& model.program(name) is Some
                    &&& program.lifecycle == ProgramLifecycle::Active
                    &&& program.status == status
                    &&& program.assigned_worker == Some(worker)
                    &&& !program.marked_for_pause
                }
            &&& is_taken(order, a) && is_taken(order, b) && (left.token_total < right.token_total
                || (left.token_total == right.token_total && i < j)) ==> precedes(order, a, b)
        }),
{
    lemma_names_once(model.programs);
    let names = entry_names(model.programs);
    lemma_by_place(names, model.programs, on_worker(worker, status));
    lemma_entry(model.programs, i);
    lemma_entry(model.programs, j);
    assert(names[i] == model.programs[i].0 && names[j] == model.programs[j].0);
    let order = placed_order(names, model.programs, on_worker(worker, status));
    assert forall|name: Seq<char>| #[trigger] is_taken(order, name) <==> {
        let program = model.program(name)->0;
        &&& model.program(name) is Some
        &&& program.lifecycle == ProgramLifecycle::Active
        &&& program.status == status
        &&& program.assigned_worker == Some(worker)
        &&& !program.marked_for_pause
    } by {
        assert(names.contains(name) <==> model.program(name) is Some);
    }
}

/// The programs between turns are listed with their tokens and since when they are.
pub proof fn lemma_acting_are_listed(model: QueueModel, name: Seq<char>)
    requires
        distinct(model.programs),
        model.programs.len() <= u64::MAX,
    ensures
        ({
            let order = placed_order(entry_names(model.programs), model.programs, acting());
            let program = model.program(name)->0;
            &&& taken_once(order)
            &&& is_taken(order, name) <==> model.program(name) is Some && program.status
                == ProgramStatus::Acting && program.acting_since is Some
            &&& forall|at: int|
                0 <= at < order.len() && (#[trigger] order[at]).name == name ==> order[at].major
                    == program.token_total && Some(order[at].minor) == program.acting_since
        }),
{
    lemma_names_once(model.programs);
    let names = entry_names(model.programs);
    let order = placed_order(names, model.programs, acting());
    lemma_by_place(names, model.programs, acting());
    assert(names.contains(name) <==> model.program(name) is Some);
    assert forall|at: int| 0 <= at < order.len() && (#[trigger] order[at]).name == name implies
        order[at].major == model.program(name)->0.token_total && Some(order[at].minor)
        == model.program(name)->0.acting_since by {
        let set = placed_ranks(names, model.programs, acting());
        lemma_placed_ranks_finite(names, model.programs, acting());
        lemma_listing_exists(set);
        assert(order.to_set().contains(order[at]));
        assert(set.contains(order[at]));
        assert(placed(names, model.programs, acting(), order[at]));
    }
}

} // verus!
