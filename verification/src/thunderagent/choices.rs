//! Which worker a program goes to.
use vstd::prelude::*;

use crate::choice::{lemma_pick, pick};
use crate::thunderagent::capacity::{
    budgets, card_at, has_card, latest_cards, one_card_each, retention_budget, Capacities,
    CapacityCard, HostWorker,
};
use crate::thunderagent::ledger::Ledger;
use crate::thunderagent::placement::{
    admitting, best_room, decayed_more, decayed_tokens, fitting_rooms, forced_target, less_used,
    more_spare, taking, tighter_room, Room,
};
use crate::thunderagent::program::{Program, ProgramStatus};
use crate::worker::WorkerWithDpRank;

verus! {

/// What programs hold on a worker; a worker without an entry holds nothing.
pub open spec fn held_on(usage: Map<WorkerWithDpRank, usize>, worker: WorkerWithDpRank) -> int {
    if usage.contains_key(worker) {
        usage[worker] as int
    } else {
        0
    }
}

/// A worker is live where the host says so; where it says nothing of liveness, with a card.
pub open spec fn live(capacities: Capacities, worker: WorkerWithDpRank) -> bool {
    match capacities.live {
        Some(workers) => workers.contains(worker),
        None => exists|at: int|
            0 <= at < capacities.cards.len() && (#[trigger] capacities.cards[at]).worker == worker,
    }
}

/// Liveness is the host's where it reports any, and otherwise having a card.
pub proof fn lemma_liveness(capacities: Capacities, worker: WorkerWithDpRank)
    ensures
        capacities.is_live(worker) <==> live(capacities, worker),
        capacities.has_usable_capacity() <==> exists|at: int|
            0 <= at < capacities.cards.len() && live(
                capacities,
                (#[trigger] capacities.cards[at]).worker,
            ),
        live(capacities, worker) ==> capacities.has_live_worker(),
        (forall|other: WorkerWithDpRank| !live(capacities, other))
            ==> !capacities.has_live_worker(),
{
    if capacities.has_usable_capacity() {
        let at = choose|at: int|
            0 <= at < capacities.cards.len() && capacities.is_live(
                (#[trigger] capacities.cards[at]).worker,
            );
        assert(live(capacities, capacities.cards[at].worker));
    }
    if exists|at: int|
        0 <= at < capacities.cards.len() && live(
            capacities,
            (#[trigger] capacities.cards[at]).worker,
        ) {
        let at = choose|at: int|
            0 <= at < capacities.cards.len() && live(
                capacities,
                (#[trigger] capacities.cards[at]).worker,
            );
        assert(capacities.is_live(capacities.cards[at].worker));
    }
    if capacities.has_live_worker() {
        let other = choose|other: WorkerWithDpRank| capacities.is_live(other);
        assert(live(capacities, other));
    }
}

/// A new program goes to a live worker on which it fits beside what is held there, and no live
/// worker on which it fits holds less; of equals it is the lowest. It goes nowhere exactly where it
/// fits on no live worker.
pub proof fn lemma_new_program_goes_to_the_least_used(
    ledger: Ledger,
    capacities: Capacities,
    required: usize,
)
    requires
        one_card_each(capacities.cards),
    ensures
        match ledger.admission_worker(capacities, required) {
            Some(worker) => {
                &&& live(capacities, worker)
                &&& exists|at: int|
                    0 <= at < capacities.cards.len() && (#[trigger] capacities.cards[at]).worker
                        == worker && held_on(ledger.usage, worker) + required
                        <= capacities.cards[at].capacity
                &&& forall|at: int|
                    0 <= at < capacities.cards.len() && live(
                        capacities,
                        (#[trigger] capacities.cards[at]).worker,
                    ) && held_on(ledger.usage, capacities.cards[at].worker) + required
                        <= capacities.cards[at].capacity ==> held_on(ledger.usage, worker)
                        <= held_on(ledger.usage, capacities.cards[at].worker) && (held_on(
                        ledger.usage,
                        worker,
                    ) == held_on(ledger.usage, capacities.cards[at].worker)
                        ==> !capacities.cards[at].worker.is_before(worker))
            },
            None => forall|at: int|
                0 <= at < capacities.cards.len() && live(
                    capacities,
                    (#[trigger] capacities.cards[at]).worker,
                ) ==> held_on(ledger.usage, capacities.cards[at].worker) + required
                    > capacities.cards[at].capacity,
        },
{
    let count = capacities.cards.len() as int;
    let may = admitting(ledger, capacities, required);
    let better = less_used(ledger, capacities);
    lemma_pick(count, may, better);
    match pick(count, may, better) {
        Some(found) => {
            let worker = capacities.cards[found].worker;
            lemma_liveness(capacities, worker);
            assert(may(found));
            assert(capacities.cards[found].worker == worker && held_on(ledger.usage, worker)
                + required <= capacities.cards[found].capacity);
            assert forall|at: int|
                0 <= at < capacities.cards.len() && live(
                    capacities,
                    (#[trigger] capacities.cards[at]).worker,
                ) && held_on(ledger.usage, capacities.cards[at].worker) + required
                    <= capacities.cards[at].capacity implies held_on(ledger.usage, worker)
                <= held_on(ledger.usage, capacities.cards[at].worker) && (held_on(
                ledger.usage,
                worker,
            ) == held_on(ledger.usage, capacities.cards[at].worker)
                ==> !capacities.cards[at].worker.is_before(worker)) by {
                lemma_liveness(capacities, capacities.cards[at].worker);
                assert(may(at));
                if at != found {
                    assert(better(found, at));
                }
            }
        },
        None => {
            assert forall|at: int|
                0 <= at < capacities.cards.len() && live(
                    capacities,
                    (#[trigger] capacities.cards[at]).worker,
                ) implies held_on(ledger.usage, capacities.cards[at].worker) + required
                > capacities.cards[at].capacity by {
                lemma_liveness(capacities, capacities.cards[at].worker);
                assert(!may(at));
            }
        },
    }
}

/// A forced program goes to its own worker where it has one, and to a live worker with a card; no
/// live worker that it may go to has more capacity left after decayed usage, and of equals it is the
/// lowest. It goes nowhere exactly where it may go to no live worker with a card.
pub proof fn lemma_forced_program_goes_to_the_most_spare(
    capacities: Capacities,
    decayed: Map<WorkerWithDpRank, usize>,
    assigned: Option<WorkerWithDpRank>,
)
    requires
        one_card_each(capacities.cards),
    ensures
        match forced_target(capacities, decayed, assigned) {
            Some(worker) => exists|found: int|
                {
                    &&& 0 <= found < capacities.cards.len()
                    &&& (#[trigger] capacities.cards[found]).worker == worker
                    &&& live(capacities, worker)
                    &&& assigned is None || assigned == Some(worker)
                    &&& forall|at: int|
                        0 <= at < capacities.cards.len() && live(
                            capacities,
                            (#[trigger] capacities.cards[at]).worker,
                        ) && (assigned is None || assigned == Some(capacities.cards[at].worker))
                            ==> capacities.cards[found].capacity - held_on(decayed, worker)
                            >= capacities.cards[at].capacity - held_on(
                            decayed,
                            capacities.cards[at].worker,
                        ) && (capacities.cards[found].capacity - held_on(decayed, worker)
                            == capacities.cards[at].capacity - held_on(
                            decayed,
                            capacities.cards[at].worker,
                        ) ==> !capacities.cards[at].worker.is_before(worker))
                },
            None => forall|at: int|
                0 <= at < capacities.cards.len() && (assigned is None || assigned == Some(
                    (#[trigger] capacities.cards[at]).worker,
                )) ==> !live(capacities, capacities.cards[at].worker),
        },
{
    let count = capacities.cards.len() as int;
    let may = taking(capacities, assigned);
    let better = more_spare(capacities, decayed);
    lemma_pick(count, may, better);
    match pick(count, may, better) {
        Some(found) => {
            let worker = capacities.cards[found].worker;
            lemma_liveness(capacities, worker);
            assert(may(found));
            assert forall|at: int|
                0 <= at < capacities.cards.len() && live(
                    capacities,
                    (#[trigger] capacities.cards[at]).worker,
                ) && (assigned is None || assigned == Some(capacities.cards[at].worker)) implies
                capacities.cards[found].capacity - held_on(decayed, worker)
                >= capacities.cards[at].capacity - held_on(decayed, capacities.cards[at].worker) && (
            capacities.cards[found].capacity - held_on(decayed, worker)
                == capacities.cards[at].capacity - held_on(decayed, capacities.cards[at].worker)
                ==> !capacities.cards[at].worker.is_before(worker)) by {
                lemma_liveness(capacities, capacities.cards[at].worker);
                assert(may(at));
                if at != found {
                    assert(better(found, at));
                }
            }
            assert(capacities.cards[found].worker == worker);
        },
        None => {
            assert forall|at: int|
                0 <= at < capacities.cards.len() && (assigned is None || assigned == Some(
                    (#[trigger] capacities.cards[at]).worker,
                )) implies !live(capacities, capacities.cards[at].worker) by {
                lemma_liveness(capacities, capacities.cards[at].worker);
                assert(!may(at));
            }
        },
    }
}

/// A program resumes in a room that holds it, on its own worker where it has one. No such room is
/// smaller, and of equals it is that on the lowest worker. It finds none exactly where there is no
/// such room.
pub proof fn lemma_tightest_room(
    rooms: Seq<Room>,
    required: usize,
    assigned: Option<WorkerWithDpRank>,
)
    requires
        forall|i: int, j: int|
            0 <= i < j < rooms.len() ==> (#[trigger] rooms[i]).worker != (
            #[trigger] rooms[j]).worker,
    ensures
        match best_room(rooms, required, assigned) {
            Some(found) => {
                &&& 0 <= found < rooms.len()
                &&& required <= rooms[found].available
                &&& assigned is None || assigned == Some(rooms[found].worker)
                &&& forall|at: int|
                    0 <= at < rooms.len() && required <= (#[trigger] rooms[at]).available && (
                    assigned is None || assigned == Some(rooms[at].worker))
                        ==> rooms[found].available <= rooms[at].available && (
                    rooms[found].available == rooms[at].available
                        ==> !rooms[at].worker.is_before(rooms[found].worker))
            },
            None => forall|at: int|
                0 <= at < rooms.len() && (assigned is None || assigned == Some(
                    (#[trigger] rooms[at]).worker,
                )) ==> required > rooms[at].available,
        },
{
    let count = rooms.len() as int;
    let fits = fitting_rooms(rooms, required, assigned);
    let better = tighter_room(rooms);
    lemma_pick(count, fits, better);
    match best_room(rooms, required, assigned) {
        Some(found) => {
            assert(fits(found));
            assert forall|at: int|
                0 <= at < rooms.len() && required <= (#[trigger] rooms[at]).available && (
                assigned is None || assigned == Some(rooms[at].worker)) implies
                rooms[found].available <= rooms[at].available && (rooms[found].available
                == rooms[at].available ==> !rooms[at].worker.is_before(rooms[found].worker)) by {
                assert(fits(at));
                if at != found {
                    assert(better(found, at));
                }
            }
        },
        None => {
            assert forall|at: int|
                0 <= at < rooms.len() && (assigned is None || assigned == Some(
                    (#[trigger] rooms[at]).worker,
                )) implies required > rooms[at].available by {
                assert(!fits(at));
            }
        },
    }
}

/// The rooms are what live workers have left under their resume limits, where that is more than the
/// headroom of one program.
pub proof fn lemma_rooms_are_what_is_left(ledger: Ledger, capacities: Capacities, count: nat)
    requires
        count <= capacities.cards.len(),
    ensures
        ({
            let rooms = ledger.rooms(capacities, count);
            &&& forall|at: int|
                0 <= at < rooms.len() ==> exists|card: int|
                    0 <= card < count && left_on(
                        ledger,
                        capacities,
                        #[trigger] capacities.cards[card],
                        (#[trigger] rooms[at]),
                    )
            &&& forall|card: int, room: Room|
                0 <= card < count && #[trigger] left_on(
                    ledger,
                    capacities,
                    capacities.cards[card],
                    room,
                ) ==> rooms.contains(room)
        }),
    decreases count,
{
    if count > 0 {
        let before = (count - 1) as nat;
        lemma_rooms_are_what_is_left(ledger, capacities, before);
        let earlier = ledger.rooms(capacities, before);
        let rooms = ledger.rooms(capacities, count);
        let card = capacities.cards[count - 1];
        lemma_liveness(capacities, card.worker);
        assert forall|at: int| 0 <= at < rooms.len() implies exists|from: int|
            0 <= from < count && left_on(
                ledger,
                capacities,
                #[trigger] capacities.cards[from],
                (#[trigger] rooms[at]),
            ) by {
            if at < earlier.len() {
                assert(rooms[at] == earlier[at]);
                let from = choose|from: int|
                    0 <= from < before && left_on(
                        ledger,
                        capacities,
                        #[trigger] capacities.cards[from],
                        earlier[at],
                    );
                assert(left_on(ledger, capacities, capacities.cards[from], rooms[at]));
            } else {
                assert(left_on(ledger, capacities, capacities.cards[count - 1], rooms[at]));
            }
        }
        assert forall|from: int, room: Room|
            0 <= from < count && #[trigger] left_on(
                ledger,
                capacities,
                capacities.cards[from],
                room,
            ) implies rooms.contains(room) by {
            if from < before {
                assert(earlier.contains(room));
                let at = choose|at: int| 0 <= at < earlier.len() && earlier[at] == room;
                assert(rooms[at] == room);
            } else {
                assert(rooms[rooms.len() - 1] == room);
            }
        }
    }
}

/// A room on a live worker, with what its resume limit leaves beside what it holds: more than the
/// headroom of one program.
pub open spec fn left_on(
    ledger: Ledger,
    capacities: Capacities,
    card: CapacityCard,
    room: Room,
) -> bool {
    &&& live(capacities, card.worker)
    &&& room.worker == card.worker
    &&& room.available == card.resume_limit - held_on(ledger.usage, card.worker)
    &&& room.available > ledger.buffer
}

/// A program counts towards decayed usage with its own tokens, or between turns with the host's
/// figure where there is one; the headroom is added.
pub proof fn lemma_decayed_usage(
    decays: Map<Seq<char>, usize>,
    decayed: Map<WorkerWithDpRank, usize>,
    name: Seq<char>,
    program: Program,
    worker: WorkerWithDpRank,
    other: WorkerWithDpRank,
    buffer: usize,
)
    ensures
        program.status == ProgramStatus::Reasoning ==> decayed_tokens(decays, name, program)
            == program.token_total,
        program.status == ProgramStatus::Acting && decays.contains_key(name) ==> decayed_tokens(
            decays,
            name,
            program,
        ) == decays[name],
        program.status == ProgramStatus::Acting && !decays.contains_key(name) ==> decayed_tokens(
            decays,
            name,
            program,
        ) == program.token_total,
        ({
            let tokens = decayed_tokens(decays, name, program);
            let next = decayed_more(decayed, worker, tokens, buffer);
            &&& held_on(decayed, worker) + tokens + buffer <= usize::MAX ==> held_on(next, worker)
                == held_on(decayed, worker) + tokens + buffer
            &&& held_on(decayed, worker) + tokens + buffer > usize::MAX ==> held_on(next, worker)
                == usize::MAX
            &&& other != worker ==> held_on(next, other) == held_on(decayed, other)
        }),
{
}

/// A worker's budget is its blocks times their size, as far as that can be represented.
pub proof fn lemma_budget(total_kv_blocks: u64, block_size: u32)
    ensures
        total_kv_blocks * block_size <= usize::MAX ==> retention_budget(
            total_kv_blocks,
            block_size,
        ) == total_kv_blocks * block_size,
        total_kv_blocks * block_size > usize::MAX ==> retention_budget(total_kv_blocks, block_size)
            == usize::MAX,
{
    assert(0 <= total_kv_blocks * block_size) by (nonlinear_arith);
}

/// A worker that reports its blocks has a budget after those of the workers before it; one that does
/// not has none.
pub proof fn lemma_budgets(workers: Seq<HostWorker>, worker: HostWorker, block_size: u32)
    ensures
        worker.total_kv_blocks is None ==> budgets(workers.push(worker), block_size) == budgets(
            workers,
            block_size,
        ),
        worker.total_kv_blocks matches Some(blocks) ==> budgets(workers.push(worker), block_size)
            == budgets(workers, block_size).push(
            (worker.worker, retention_budget(blocks, block_size)),
        ),
        budgets(Seq::empty(), block_size) == Seq::<(WorkerWithDpRank, usize)>::empty(),
{
    assert(workers.push(worker).drop_last() =~= workers);
}

/// Each worker with a card has one card left, the last one that was given for it.
pub proof fn lemma_last_card_counts(cards: Seq<CapacityCard>, at: int)
    requires
        0 <= at < cards.len(),
        forall|k: int| at < k < cards.len() ==> (#[trigger] cards[k]).worker != cards[at].worker,
    ensures
        latest_cards(cards).contains(cards[at]),
        one_card_each(latest_cards(cards)),
        forall|k: int|
            0 <= k < latest_cards(cards).len() ==> cards.contains(
                #[trigger] latest_cards(cards)[k],
            ),
    decreases cards.len(),
{
    let rest = cards.drop_last();
    let earlier = latest_cards(rest);
    let last = cards[cards.len() - 1];
    let all = latest_cards(cards);
    lemma_latest_cards(rest);
    lemma_latest_cards(cards);
    if at < rest.len() {
        assert forall|k: int| at < k < rest.len() implies (#[trigger] rest[k]).worker
            != rest[at].worker by {
            assert(rest[k] == cards[k]);
        }
        lemma_last_card_counts(rest, at);
        let k = choose|k: int| 0 <= k < earlier.len() && earlier[k] == cards[at];
        assert(cards[cards.len() - 1].worker != cards[at].worker);
        if has_card(earlier, last.worker) {
            let place = card_at(earlier, last.worker);
            assert(earlier[place].worker == last.worker);
            assert(all[k] == cards[at]);
        } else {
            assert(all[k] == cards[at]);
        }
    } else {
        if has_card(earlier, last.worker) {
            assert(all[card_at(earlier, last.worker)] == last);
        } else {
            assert(all[all.len() - 1] == last);
        }
    }
}

proof fn lemma_latest_cards(cards: Seq<CapacityCard>)
    ensures
        one_card_each(latest_cards(cards)),
        forall|k: int|
            0 <= k < latest_cards(cards).len() ==> cards.contains(
                #[trigger] latest_cards(cards)[k],
            ),
    decreases cards.len(),
{
    if cards.len() > 0 {
        let rest = cards.drop_last();
        let earlier = latest_cards(rest);
        let last = cards[cards.len() - 1];
        let all = latest_cards(cards);
        lemma_latest_cards(rest);
        assert forall|k: int| 0 <= k < all.len() implies cards.contains(#[trigger] all[k]) by {
            if all[k] == last {
                assert(cards[cards.len() - 1] == last);
            } else {
                assert(all[k] == earlier[k]);
                let from = choose|from: int| 0 <= from < rest.len() && rest[from] == earlier[k];
                assert(cards[from] == all[k]);
            }
        }
        assert forall|i: int, j: int| 0 <= i < j < all.len() implies (#[trigger] all[i]).worker != (
        #[trigger] all[j]).worker by {
            if has_card(earlier, last.worker) {
                let place = card_at(earlier, last.worker);
                assert(earlier[place].worker == last.worker);
                assert(earlier[i].worker != earlier[j].worker);
            } else {
                if j < earlier.len() {
                    assert(earlier[i].worker != earlier[j].worker);
                }
            }
        }
    }
}

} // verus!
