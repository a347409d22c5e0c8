//! Which programs come first when programs are taken one after the other.
use vstd::prelude::*;

use crate::ranking::{
    is_first_rank, lemma_first_exists, lemma_first_rank, lemma_listing_exists, lemma_ranks_finite,
    Rank,
};
use crate::text::{lemma_text_order, text_before};
use crate::thunderagent::capacity::Capacities;
use crate::thunderagent::ledger::Ledger;
use crate::thunderagent::model::{evictable, expired, retained, Model, Session};
use crate::thunderagent::order::{has_key, lemma_first, lemma_order, rank_by, Keys};
use crate::thunderagent::placement::{
    acting, fairness, largest_first, running, timed_out, total_room, Room,
};
use crate::thunderagent::program::{Program, ProgramLifecycle, ProgramStatus};
use crate::thunderagent::relief::{on_removed_worker, on_worker};
use crate::worker::WorkerWithDpRank;

verus! {

/// A name is taken.
pub open spec fn is_taken(order: Seq<Rank>, name: Seq<char>) -> bool {
    exists|at: int| 0 <= at < order.len() && (#[trigger] order[at]).name == name
}

/// A name is taken before another, and neither is taken twice.
pub open spec fn precedes(order: Seq<Rank>, a: Seq<char>, b: Seq<char>) -> bool {
    exists|i: int, j: int|
        0 <= i < j < order.len() && (#[trigger] order[i]).name == a && (#[trigger] order[j]).name
            == b
}

/// Nobody is taken twice.
pub open spec fn taken_once(order: Seq<Rank>) -> bool {
    forall|i: int, j: int|
        0 <= i < j < order.len() ==> (#[trigger] order[i]).name != (#[trigger] order[j]).name
}

/// The programs that have a key are taken once each, a smaller key first and then by name.
proof fn lemma_by_key(ledger: Ledger, keys: Keys)
    requires
        ledger.programs.dom().finite(),
    ensures
        taken_once(ledger.order_by(keys)),
        forall|name: Seq<char>| #[trigger]
            is_taken(ledger.order_by(keys), name) <==> has_key(ledger, keys, name),
        forall|a: Seq<char>, b: Seq<char>|
            has_key(ledger, keys, a) && has_key(ledger, keys, b) && ({
                let left = keys(a, ledger.programs[a])->0;
                let right = keys(b, ledger.programs[b])->0;
                left.0 < right.0 || (left.0 == right.0 && (left.1 < right.1 || (left.1 == right.1
                    && text_before(a, b))))
            }) ==> #[trigger] precedes(ledger.order_by(keys), a, b),
{
    let set = ledger.ranks_by(keys);
    let order = ledger.order_by(keys);
    let rank = rank_by(ledger.programs, keys);
    lemma_ranks_finite(ledger.programs.dom(), rank);
    lemma_listing_exists(set);
    lemma_order(ledger, keys);
    assert forall|at: int| 0 <= at < order.len() implies rank((#[trigger] order[at]).name) == Some(
        order[at],
    ) by {
        assert(order.to_set().contains(order[at]));
        assert(set.contains(order[at]));
    }
    assert forall|i: int, j: int| 0 <= i < j < order.len() implies (#[trigger] order[i]).name != (
    #[trigger] order[j]).name by {
        assert(order[i].is_before(order[j]));
        assert(rank(order[i].name) == Some(order[i]));
        assert(rank(order[j].name) == Some(order[j]));
        lemma_text_order(order[i].name, order[j].name, order[i].name);
    }
    assert forall|name: Seq<char>| #[trigger] is_taken(order, name) implies has_key(
        ledger,
        keys,
        name,
    ) by {
        let at = choose|at: int| 0 <= at < order.len() && (#[trigger] order[at]).name == name;
        assert(has_key(ledger, keys, order[at].name));
    }
    assert forall|a: Seq<char>, b: Seq<char>|
        has_key(ledger, keys, a) && has_key(ledger, keys, b) && ({
            let left = keys(a, ledger.programs[a])->0;
            let right = keys(b, ledger.programs[b])->0;
            left.0 < right.0 || (left.0 == right.0 && (left.1 < right.1 || (left.1 == right.1
                && text_before(a, b))))
        }) implies #[trigger] precedes(order, a, b) by {
        assert(is_taken(order, a) && is_taken(order, b));
        let i = choose|i: int| 0 <= i < order.len() && (#[trigger] order[i]).name == a;
        let j = choose|j: int| 0 <= j < order.len() && (#[trigger] order[j]).name == b;
        assert(rank(order[i].name) == Some(order[i]));
        assert(rank(order[j].name) == Some(order[j]));
        lemma_text_order(a, b, a);
        if j < i {
            assert(order[j].is_before(order[i]));
        }
        assert(i < j);
    }
}

/// The three groups of paused programs: past their first turn with a request, in their first turn,
/// past their first turn without a request.
pub open spec fn turn_group(program: Program) -> int {
    if program.step_count > 1 && program.status == ProgramStatus::Reasoning {
        0
    } else if program.step_count > 1 && program.status == ProgramStatus::Acting {
        2
    } else {
        1
    }
}

/// Exactly the paused programs are offered room. Those past their first turn that have a request
/// come before those in their first turn, and these before those past their first turn that have
/// none. Within a group the smaller comes first, and of equals the lower name.
pub proof fn lemma_fairness_order(ledger: Ledger, a: Seq<char>, b: Seq<char>)
    requires
        ledger.programs.dom().finite(),
    ensures
        ({
            let order = ledger.order_by(fairness());
            let left = ledger.programs[a];
            let right = ledger.programs[b];
            let both = ledger.programs.contains_key(a) && ledger.programs.contains_key(b)
                && left.lifecycle == ProgramLifecycle::Paused && right.lifecycle
                == ProgramLifecycle::Paused;
            &&& taken_once(order)
            &&& is_taken(order, a) <==> ledger.programs.contains_key(a) && left.lifecycle
                == ProgramLifecycle::Paused
            &&& both && turn_group(left) < turn_group(right) ==> precedes(order, a, b)
            &&& both && turn_group(left) == turn_group(right) && left.token_total
                < right.token_total ==> precedes(order, a, b)
            &&& both && turn_group(left) == turn_group(right) && left.token_total
                == right.token_total && text_before(a, b) ==> precedes(order, a, b)
        }),
{
    lemma_by_key(ledger, fairness());
    assert(is_taken(ledger.order_by(fairness()), a) <==> has_key(ledger, fairness(), a));
    if has_key(ledger, fairness(), a) && has_key(ledger, fairness(), b) {
        let left = fairness()(a, ledger.programs[a])->0;
        let right = fairness()(b, ledger.programs[b])->0;
        if left.0 < right.0 || (left.0 == right.0 && (left.1 < right.1 || (left.1 == right.1
            && text_before(a, b)))) {
            assert(precedes(ledger.order_by(fairness()), a, b));
        }
    }
}

/// The tokens that a program takes when it resumes: its own and the headroom.
pub open spec fn resume_tokens(ledger: Ledger, name: Seq<char>) -> int {
    let whole = ledger.programs[name].token_total + ledger.buffer;
    if whole <= usize::MAX {
        whole
    } else {
        usize::MAX as int
    }
}

/// What the first programs of an order take when they resume.
pub open spec fn resume_sum(ledger: Ledger, order: Seq<Rank>, count: int) -> int
    decreases count,
{
    if count <= 0 {
        0
    } else {
        resume_sum(ledger, order, count - 1) + resume_tokens(ledger, order[count - 1].name)
    }
}

/// What the first rooms hold.
pub open spec fn room_sum(rooms: Seq<Room>, count: int) -> int
    decreases count,
{
    if count <= 0 {
        0
    } else {
        room_sum(rooms, count - 1) + rooms[count - 1].available
    }
}

proof fn lemma_room_sum(rooms: Seq<Room>, count: int)
    requires
        0 <= count <= rooms.len(),
    ensures
        total_room(rooms.take(count)) == room_sum(rooms, count),
    decreases count,
{
    if count > 0 {
        lemma_room_sum(rooms, count - 1);
        assert(rooms.take(count).drop_last() =~= rooms.take(count - 1));
    } else {
        assert(rooms.take(0) =~= Seq::<Room>::empty());
    }
}

proof fn lemma_resume_sum_head(ledger: Ledger, order: Seq<Rank>, count: int)
    requires
        0 < count <= order.len(),
    ensures
        resume_sum(ledger, order, count) == resume_tokens(ledger, order[0].name) + resume_sum(
            ledger,
            order.drop_first(),
            count - 1,
        ),
    decreases count,
{
    if count > 1 {
        lemma_resume_sum_head(ledger, order, count - 1);
        assert(order.drop_first()[count - 2] == order[count - 1]);
    } else {
        assert(resume_sum(ledger, order, 0) == 0);
        assert(resume_sum(ledger, order.drop_first(), 0) == 0);
    }
}

proof fn lemma_affordable(ledger: Ledger, order: Seq<Rank>, budget: int)
    requires
        budget >= 0,
    ensures
        ({
            let count = ledger.affordable(order, budget) as int;
            &&& count <= order.len()
            &&& resume_sum(ledger, order, count) <= budget
            &&& count < order.len() ==> resume_sum(ledger, order, count + 1) > budget
        }),
    decreases order.len(),
{
    if order.len() > 0 {
        if ledger.required(order[0].name) <= budget {
            let rest = order.drop_first();
            let left = budget - ledger.required(order[0].name);
            lemma_affordable(ledger, rest, left);
            let count = ledger.affordable(order, budget) as int;
            lemma_resume_sum_head(ledger, order, count);
            if count < order.len() {
                lemma_resume_sum_head(ledger, order, count + 1);
            }
        } else {
            lemma_resume_sum_head(ledger, order, 1);
        }
    }
}

proof fn lemma_rooms_hold(rooms: Seq<Room>, count: int)
    ensures
        room_sum(rooms, count) >= 0,
    decreases count,
{
    if count > 0 {
        lemma_rooms_hold(rooms, count - 1);
    }
}

/// The programs that resume together are the first of the fairness order. They take no more than
/// all rooms hold together, and with the next one they would.
pub proof fn lemma_resumed_together(ledger: Ledger, rooms: Seq<Room>)
    requires
        ledger.programs.dom().finite(),
    ensures
        ({
            let order = ledger.order_by(fairness());
            let chosen = ledger.resumable(rooms);
            exists|count: int|
                {
                    &&& 0 <= count <= order.len()
                    &&& forall|name: Seq<char>| #[trigger]
                        chosen.contains(name) <==> exists|at: int|
                            0 <= at < count && (#[trigger] order[at]).name == name
                    &&& #[trigger] resume_sum(ledger, order, count) <= room_sum(
                        rooms,
                        rooms.len() as int,
                    )
                    &&& count < order.len() ==> resume_sum(ledger, order, count + 1) > room_sum(
                        rooms,
                        rooms.len() as int,
                    )
                }
        }),
{
    let order = ledger.order_by(fairness());
    let chosen = ledger.resumable(rooms);
    assert(rooms.take(rooms.len() as int) =~= rooms);
    lemma_room_sum(rooms, rooms.len() as int);
    lemma_rooms_hold(rooms, rooms.len() as int);
    let budget = total_room(rooms);
    lemma_affordable(ledger, order, budget);
    let count = ledger.affordable(order, budget) as int;
    let prefix = order.take(count);
    assert forall|name: Seq<char>| #[trigger] chosen.contains(name) <==> exists|at: int|
        0 <= at < count && (#[trigger] order[at]).name == name by {
        if chosen.contains(name) {
            let at = choose|at: int| 0 <= at < prefix.len() && (#[trigger] prefix[at]).name == name;
            assert(order[at].name == name);
        }
        if exists|at: int| 0 <= at < count && (#[trigger] order[at]).name == name {
            let at = choose|at: int| 0 <= at < count && (#[trigger] order[at]).name == name;
            assert(prefix[at].name == name);
        }
    }
    assert(resume_sum(ledger, order, count) <= room_sum(rooms, rooms.len() as int));
}

/// Of the programs that resume together the largest is placed first, and of equals the lower name;
/// no other program is placed.
pub proof fn lemma_largest_is_placed_first(
    ledger: Ledger,
    chosen: Set<Seq<char>>,
    a: Seq<char>,
    b: Seq<char>,
)
    requires
        ledger.programs.dom().finite(),
    ensures
        ({
            let order = ledger.order_by(largest_first(chosen));
            let left = ledger.programs[a].token_total;
            let right = ledger.programs[b].token_total;
            let both = ledger.programs.contains_key(a) && ledger.programs.contains_key(b)
                && chosen.contains(a) && chosen.contains(b);
            &&& taken_once(order)
            &&& is_taken(order, a) <==> ledger.programs.contains_key(a) && chosen.contains(a)
            &&& both && left > right ==> precedes(order, a, b)
            &&& both && left == right && text_before(a, b) ==> precedes(order, a, b)
        }),
{
    let keys = largest_first(chosen);
    lemma_by_key(ledger, keys);
    assert(is_taken(ledger.order_by(keys), a) <==> has_key(ledger, keys, a));
    if has_key(ledger, keys, a) && has_key(ledger, keys, b) {
        let left = ledger.programs[a].token_total;
        let right = ledger.programs[b].token_total;
        if left > right || (left == right && text_before(a, b)) {
            assert(precedes(ledger.order_by(keys), a, b));
        }
    }
}

/// Exactly the paused programs are forced that have been deferred for at least the timeout.
pub proof fn lemma_forced_are_late(ledger: Ledger, now: u64, timeout: u64, name: Seq<char>)
    requires
        ledger.programs.dom().finite(),
    ensures
        taken_once(ledger.order_by(timed_out(now, timeout))),
        is_taken(ledger.order_by(timed_out(now, timeout)), name) <==> {
            &&& ledger.programs.contains_key(name)
            &&& ledger.programs[name].lifecycle == ProgramLifecycle::Paused
            &&& ledger.programs[name].deferred_since matches Some(since) && (now - since >= timeout
                || timeout == 0)
        },
{
    let keys = timed_out(now, timeout);
    lemma_by_key(ledger, keys);
    assert(is_taken(ledger.order_by(keys), name) <==> has_key(ledger, keys, name));
}

/// On an overloaded worker exactly the active programs of one status are taken that are not marked
/// yet, the smaller first and of equals the lower name.
pub proof fn lemma_smallest_is_relieved_first(
    ledger: Ledger,
    worker: WorkerWithDpRank,
    status: ProgramStatus,
    a: Seq<char>,
    b: Seq<char>,
)
    requires
        ledger.programs.dom().finite(),
    ensures
        ({
            let order = ledger.order_by(on_worker(worker, status));
            &&& taken_once(order)
            &&& is_taken(order, a) <==> ledger.programs.contains_key(a) && {
                let program = ledger.programs[a];
                &&& program.lifecycle == ProgramLifecycle::Active
                &&& program.status == status
                &&& program.assigned_worker == Some(worker)
                &&& !program.marked_for_pause
            }
            &&& is_taken(order, a) && is_taken(order, b) && (ledger.programs[a].token_total
                < ledger.programs[b].token_total || (ledger.programs[a].token_total
                == ledger.programs[b].token_total && text_before(a, b))) ==> precedes(order, a, b)
        }),
{
    let keys = on_worker(worker, status);
    lemma_by_key(ledger, keys);
    assert(is_taken(ledger.order_by(keys), a) <==> has_key(ledger, keys, a));
    assert(is_taken(ledger.order_by(keys), b) <==> has_key(ledger, keys, b));
    if has_key(ledger, keys, a) && has_key(ledger, keys, b) && (ledger.programs[a].token_total
        < ledger.programs[b].token_total || (ledger.programs[a].token_total
        == ledger.programs[b].token_total && text_before(a, b))) {
        assert(precedes(ledger.order_by(keys), a, b));
    }
}

/// Exactly the programs whose worker is not live are taken off it.
pub proof fn lemma_stranded_are_taken(ledger: Ledger, capacities: Capacities, name: Seq<char>)
    requires
        ledger.programs.dom().finite(),
    ensures
        is_taken(ledger.order_by(on_removed_worker(capacities)), name)
            <==> ledger.programs.contains_key(name) && (
        ledger.programs[name].assigned_worker matches Some(worker) && !capacities.is_live(worker)),
{
    let keys = on_removed_worker(capacities);
    lemma_by_key(ledger, keys);
    assert(is_taken(ledger.order_by(keys), name) <==> has_key(ledger, keys, name));
}

/// Exactly the active programs with a worker count towards decayed usage.
pub proof fn lemma_running_are_counted(ledger: Ledger, name: Seq<char>)
    requires
        ledger.programs.dom().finite(),
    ensures
        taken_once(ledger.order_by(running())),
        is_taken(ledger.order_by(running()), name) <==> ledger.programs.contains_key(name)
            && ledger.programs[name].lifecycle == ProgramLifecycle::Active
            && ledger.programs[name].assigned_worker is Some,
{
    lemma_by_key(ledger, running());
    assert(is_taken(ledger.order_by(running()), name) <==> has_key(ledger, running(), name));
}

/// Exactly the programs between turns are listed for decay, each with its tokens and the time since
/// when it acts.
pub proof fn lemma_acting_are_listed(ledger: Ledger, name: Seq<char>, at: int)
    requires
        ledger.programs.dom().finite(),
    ensures
        is_taken(ledger.order_by(acting()), name) <==> ledger.programs.contains_key(name)
            && ledger.programs[name].status == ProgramStatus::Acting
            && ledger.programs[name].acting_since is Some,
        0 <= at < ledger.order_by(acting()).len() ==> {
            let rank = ledger.order_by(acting())[at];
            &&& ledger.programs.contains_key(rank.name)
            &&& rank.major == ledger.programs[rank.name].token_total
            &&& Some(rank.minor) == ledger.programs[rank.name].acting_since
        },
{
    lemma_by_key(ledger, acting());
    assert(is_taken(ledger.order_by(acting()), name) <==> has_key(ledger, acting(), name));
    let order = ledger.order_by(acting());
    if 0 <= at < order.len() {
        let rank = rank_by(ledger.programs, acting());
        lemma_ranks_finite(ledger.programs.dom(), rank);
        lemma_listing_exists(ledger.ranks_by(acting()));
        assert(order.to_set().contains(order[at]));
        assert(ledger.ranks_by(acting()).contains(order[at]));
    }
}

/// A session without requests whose program acts since a given time.
pub open spec fn rests_since(
    sessions: Map<Seq<char>, Session>,
    name: Seq<char>,
    program: Program,
    since: u64,
) -> bool {
    &&& !sessions.contains_key(name) || (sessions[name].current is None
        && sessions[name].waiting.len() == 0)
    &&& program.status == ProgramStatus::Acting
    &&& program.acting_since == Some(since)
}

/// Exactly the idle programs leave the table that have rested for the retention time.
pub proof fn lemma_rested_programs_expire(
    ledger: Ledger,
    sessions: Map<Seq<char>, Session>,
    now: u64,
    retention: u64,
    name: Seq<char>,
)
    requires
        ledger.programs.dom().finite(),
    ensures
        is_taken(ledger.order_by(expired(sessions, now, retention)), name)
            <==> ledger.programs.contains_key(name) && exists|since: u64| #[trigger]
            rests_since(sessions, name, ledger.programs[name], since) && since + retention <= now,
{
    let keys = expired(sessions, now, retention);
    lemma_by_key(ledger, keys);
    assert(is_taken(ledger.order_by(keys), name) <==> has_key(ledger, keys, name));
    if let Some(since) = ledger.programs[name].acting_since {
        if has_key(ledger, keys, name) {
            assert(rests_since(sessions, name, ledger.programs[name], since));
        }
    }
}

/// The next retention to end is that of an idle program that has not rested for the whole time yet,
/// and no such program has rested longer.
pub proof fn lemma_next_to_expire(
    ledger: Ledger,
    sessions: Map<Seq<char>, Session>,
    now: u64,
    retention: u64,
    name: Seq<char>,
    since: u64,
)
    requires
        ledger.programs.dom().finite(),
        ledger.programs.contains_key(name),
        rests_since(sessions, name, ledger.programs[name], since),
        now < since + retention,
    ensures
        ledger.first_by(retained(sessions, now, retention)) matches Some(first) && {
            &&& first.major <= since
            &&& ledger.programs.contains_key(first.name)
            &&& rests_since(sessions, first.name, ledger.programs[first.name], first.major)
            &&& now < first.major + retention
        },
{
    let keys = retained(sessions, now, retention);
    let set = ledger.ranks_by(keys);
    lemma_ranks_finite(ledger.programs.dom(), rank_by(ledger.programs, keys));
    let rank = Rank { major: since, minor: 0, place: 0, name };
    assert(set.contains(rank));
    assert(set.len() > 0) by {
        if set.len() == 0 {
            assert(set =~= Set::empty());
        }
    }
    let found = lemma_first_exists(set);
    lemma_first_rank(found, set);
    assert(set.contains(found));
    assert(is_first_rank(found, set));
    assert(found == rank || found.is_before(rank));
}

/// Where the table is full of programs whose sessions have requests, none can make room; otherwise
/// one without requests does: one that never acted, or else one that has acted the longest.
pub proof fn lemma_longest_idle_makes_room(model: Model, other: Seq<char>)
    requires
        model.ledger.programs.dom().finite(),
        model.ledger.programs.contains_key(other),
        !model.sessions.contains_key(other),
    ensures
        model.evicted() matches Some(first) && {
            let program = model.ledger.programs[first.name];
            &&& model.ledger.programs.contains_key(first.name)
            &&& !model.sessions.contains_key(first.name)
            &&& program.acting_since is None || (
            model.ledger.programs[other].acting_since matches Some(since)
                && program.acting_since->0 <= since)
        },
{
    let keys = evictable(model.sessions);
    let set = model.ledger.ranks_by(keys);
    lemma_ranks_finite(model.ledger.programs.dom(), rank_by(model.ledger.programs, keys));
    let key = keys(other, model.ledger.programs[other])->0;
    let rank = Rank { major: key.0, minor: key.1, place: 0, name: other };
    assert(set.contains(rank));
    assert(set.len() > 0) by {
        if set.len() == 0 {
            assert(set =~= Set::empty());
        }
    }
    let found = lemma_first_exists(set);
    lemma_first_rank(found, set);
    assert(set.contains(found));
    assert(is_first_rank(found, set));
    assert(found == rank || found.is_before(rank));
}

/// Without a program whose session has no requests, nobody can make room.
pub proof fn lemma_nobody_makes_room(model: Model)
    requires
        forall|name: Seq<char>| #[trigger]
            model.ledger.programs.contains_key(name) ==> model.sessions.contains_key(name),
    ensures
        model.evicted() is None,
{
    if let Some(first) = model.evicted() {
        lemma_first(model.ledger, evictable(model.sessions));
        assert(model.ledger.programs.contains_key(first.name));
    }
}

} // verus!
