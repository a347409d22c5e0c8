//! Where programs are placed.
use std::collections::VecDeque;
use vstd::hash_set::StringHashSet;
use vstd::prelude::*;

use crate::choice::{lemma_pick_next, lemma_picked, pick, picked};
use crate::ranking::{ranks, Rank, Ranked};
use crate::table::Table;
use crate::thunderagent::capacity::{one_card_each, Capacities, WorkerCapacitySnapshot};
use crate::thunderagent::ledger::{usage_more, used_on, Ledger, ProgramLedger};
use crate::thunderagent::order::{has_key, Keys, ProgramOrder};
use crate::thunderagent::program::{Program, ProgramLifecycle, ProgramStatus};
use crate::worker::{WorkerMap, WorkerWithDpRank};

verus! {

/// Tokens left for resuming programs on a worker.
#[derive(Clone, Copy, Debug, PartialEq, Eq, Structural)]
pub struct Room {
    pub worker: WorkerWithDpRank,
    pub available: usize,
}

/// No two rooms are on one worker.
pub open spec fn one_room_each(rooms: Seq<Room>) -> bool {
    forall|i: int, j: int|
        0 <= i < j < rooms.len() ==> (#[trigger] rooms[i]).worker != (#[trigger] rooms[j]).worker
}

/// The tokens in all rooms together.
pub open spec fn total_room(rooms: Seq<Room>) -> int
    decreases rooms.len(),
{
    if rooms.len() == 0 {
        0
    } else {
        total_room(rooms.drop_last()) + rooms.last().available
    }
}

/// Whether a program may go to a worker: an assigned one only to its own.
pub open spec fn may_go(assigned: Option<WorkerWithDpRank>, worker: WorkerWithDpRank) -> bool {
    assigned matches Some(own) ==> own == worker
}

/// Whether a program may go to a worker.
pub fn goes(assigned: Option<WorkerWithDpRank>, worker: WorkerWithDpRank) -> (allowed: bool)
    ensures
        allowed == may_go(assigned, worker),
{
    match assigned {
        Some(own) => own == worker,
        None => true,
    }
}

/// The rooms that a program of the given size fits in.
pub open spec fn fitting_rooms(
    rooms: Seq<Room>,
    required: usize,
    assigned: Option<WorkerWithDpRank>,
) -> spec_fn(int) -> bool {
    |at: int| may_go(assigned, rooms[at].worker) && required <= rooms[at].available
}

/// The tighter of two rooms; of two equal ones that on the lower worker.
pub open spec fn tighter_room(rooms: Seq<Room>) -> spec_fn(int, int) -> bool {
    |a: int, b: int|
        rooms[a].available < rooms[b].available || (rooms[a].available == rooms[b].available
            && rooms[a].worker.is_before(rooms[b].worker))
}

/// The tightest room that a program fits in.
pub open spec fn best_room(
    rooms: Seq<Room>,
    required: usize,
    assigned: Option<WorkerWithDpRank>,
) -> Option<int> {
    pick(rooms.len() as int, fitting_rooms(rooms, required, assigned), tighter_room(rooms))
}

/// The tightest room that a program fits in.
pub fn find_room(rooms: &Vec<Room>, required: usize, assigned: Option<WorkerWithDpRank>) -> (found:
    Option<usize>)
    requires
        one_room_each(rooms@),
    ensures
        best_room(rooms@, required, assigned) == (match found {
            Some(at) => Some(at as int),
            None => None,
        }),
        found matches Some(at) ==> at < rooms@.len() && required <= rooms@[at as int].available,
{
    let ghost fits = fitting_rooms(rooms@, required, assigned);
    let ghost tighter = tighter_room(rooms@);
    let mut best: Option<usize> = None;
    for at in 0..rooms.len()
        invariant
            one_room_each(rooms@),
            fits == fitting_rooms(rooms@, required, assigned),
            tighter == tighter_room(rooms@),
            picked(best, at as int, fits, tighter),
    {
        proof {
            lemma_pick_next(best, at, fits, tighter);
        }
        if goes(assigned, rooms[at].worker) && required <= rooms[at].available {
            best = match best {
                Some(held) => if rooms[at].available < rooms[held].available || (
                rooms[at].available == rooms[held].available && rooms[at].worker.before(
                    &rooms[held].worker,
                )) {
                    Some(at)
                } else {
                    best
                },
                None => Some(at),
            };
        }
    }
    proof {
        lemma_picked(best, rooms@.len() as int, fits, tighter);
    }
    best
}

/// The live workers that can take a new program of the given size.
pub open spec fn admitting(
    ledger: Ledger,
    capacities: Capacities,
    required: usize,
) -> spec_fn(int) -> bool {
    |at: int|
        {
            let card = capacities.cards[at];
            &&& capacities.is_live(card.worker)
            &&& used_on(ledger.usage, card.worker) + required <= card.capacity
        }
}

/// The less used of two workers; of two equally used ones the lower.
pub open spec fn less_used(ledger: Ledger, capacities: Capacities) -> spec_fn(int, int) -> bool {
    |a: int, b: int|
        {
            let left = capacities.cards[a].worker;
            let right = capacities.cards[b].worker;
            ||| used_on(ledger.usage, left) < used_on(ledger.usage, right)
            ||| (used_on(ledger.usage, left) == used_on(ledger.usage, right) && left.is_before(
                right,
            ))
        }
}

/// The live workers that a forced program may go to.
pub open spec fn taking(
    capacities: Capacities,
    assigned: Option<WorkerWithDpRank>,
) -> spec_fn(int) -> bool {
    |at: int|
        capacities.is_live(capacities.cards[at].worker) && may_go(
            assigned,
            capacities.cards[at].worker,
        )
}

/// The worker with more capacity after decayed usage; of two equal ones the lower.
pub open spec fn more_spare(
    capacities: Capacities,
    decayed: Map<WorkerWithDpRank, usize>,
) -> spec_fn(int, int) -> bool {
    |a: int, b: int|
        {
            let left = capacities.cards[a];
            let right = capacities.cards[b];
            let left_spare = left.capacity - used_on(decayed, left.worker);
            let right_spare = right.capacity - used_on(decayed, right.worker);
            ||| left_spare > right_spare
            ||| (left_spare == right_spare && left.worker.is_before(right.worker))
        }
}

/// The worker on the picked card.
pub open spec fn card_worker(capacities: Capacities, at: Option<int>) -> Option<WorkerWithDpRank> {
    match at {
        Some(at) => Some(capacities.cards[at].worker),
        None => None,
    }
}

/// The worker that a forced program goes to.
pub open spec fn forced_target(
    capacities: Capacities,
    decayed: Map<WorkerWithDpRank, usize>,
    assigned: Option<WorkerWithDpRank>,
) -> Option<WorkerWithDpRank> {
    card_worker(
        capacities,
        pick(
            capacities.cards.len() as int,
            taking(capacities, assigned),
            more_spare(capacities, decayed),
        ),
    )
}

fn decayed_on(decayed: &WorkerMap<usize>, worker: &WorkerWithDpRank) -> (tokens: usize)
    ensures
        tokens == used_on(decayed@, *worker),
{
    match decayed.get(worker) {
        Some(tokens) => tokens,
        None => 0,
    }
}

/// The worker that a forced program goes to.
pub fn find_forced_target(
    capacities: &WorkerCapacitySnapshot,
    decayed: &WorkerMap<usize>,
    assigned: Option<WorkerWithDpRank>,
) -> (target: Option<WorkerWithDpRank>)
    requires
        capacities.wf(),
    ensures
        target == forced_target(capacities@, decayed@, assigned),
{
    let ghost may = taking(capacities@, assigned);
    let ghost better = more_spare(capacities@, decayed@);
    let mut best: Option<usize> = None;
    proof {
        capacities.lemma_one_card_each();
    }
    let count: usize = capacities.len();
    for at in 0..count
        invariant
            capacities.wf(),
            one_card_each(capacities@.cards),
            count == capacities@.cards.len(),
            may == taking(capacities@, assigned),
            better == more_spare(capacities@, decayed@),
            picked(best, at as int, may, better),
    {
        let card = capacities.card(at);
        proof {
            lemma_pick_next(best, at, may, better);
        }
        if capacities.is_live(&card.worker) && goes(assigned, card.worker) {
            best = match best {
                Some(held) => {
                    let other = capacities.card(held);
                    let spare: i128 = card.capacity as i128 - decayed_on(
                        decayed,
                        &card.worker,
                    ) as i128;
                    let other_spare: i128 = other.capacity as i128 - decayed_on(
                        decayed,
                        &other.worker,
                    ) as i128;
                    if spare > other_spare || (spare == other_spare && card.worker.before(
                        &other.worker,
                    )) {
                        Some(at)
                    } else {
                        best
                    }
                },
                None => Some(at),
            };
        }
    }
    proof {
        lemma_picked(best, count as int, may, better);
    }
    match best {
        Some(at) => Some(capacities.card(at).worker),
        None => None,
    }
}

/// The tokens of a program when usage during tool work decays: the host's figure where it gives
/// one.
pub open spec fn decayed_tokens(
    decays: Map<Seq<char>, usize>,
    name: Seq<char>,
    program: Program,
) -> usize {
    if program.status == ProgramStatus::Acting && decays.contains_key(name) {
        decays[name]
    } else {
        program.token_total
    }
}

/// Decayed usage with one more program on a worker.
pub open spec fn decayed_more(
    decayed: Map<WorkerWithDpRank, usize>,
    worker: WorkerWithDpRank,
    tokens: usize,
    buffer: usize,
) -> Map<WorkerWithDpRank, usize> {
    usage_more(decayed, Some((worker, tokens.saturating_add(buffer))))
}

/// Count one more program on a worker.
pub fn add_decayed(
    decayed: &mut WorkerMap<usize>,
    worker: WorkerWithDpRank,
    tokens: usize,
    buffer: usize,
)
    ensures
        final(decayed)@ == decayed_more(old(decayed)@, worker, tokens, buffer),
{
    let held: usize = decayed_on(decayed, &worker);
    decayed.insert(worker, held.saturating_add(tokens.saturating_add(buffer)));
}

/// The tokens of a program when usage during tool work decays.
pub fn tokens_after_decay(decays: &Table<usize>, name: &str, program: &Program) -> (tokens: usize)
    requires
        decays.wf(),
    ensures
        tokens == decayed_tokens(decays@, name@, *program),
{
    if program.status == ProgramStatus::Acting {
        match decays.get(name) {
            Some(tokens) => *tokens,
            None => program.token_total,
        }
    } else {
        program.token_total
    }
}

/// Programs that run on some worker.
pub open spec fn running() -> Keys {
    |name: Seq<char>, program: Program|
        if program.lifecycle == ProgramLifecycle::Active && program.assigned_worker is Some {
            Some((0, 0))
        } else {
            None
        }
}

/// Paused programs in fairness order: those with a request after earlier turns, then those in
/// their first turn, then those without a request; the smallest first.
pub open spec fn fairness() -> Keys {
    |name: Seq<char>, program: Program|
        if program.lifecycle != ProgramLifecycle::Paused {
            None
        } else if program.step_count <= 1 {
            Some((1, program.token_total as u64))
        } else if program.status == ProgramStatus::Reasoning {
            Some((0, program.token_total as u64))
        } else {
            Some((2, program.token_total as u64))
        }
}

/// Chosen programs, the largest first.
pub open spec fn largest_first(chosen: Set<Seq<char>>) -> Keys {
    |name: Seq<char>, program: Program|
        if chosen.contains(name) {
            Some(((u64::MAX - program.token_total) as u64, 0))
        } else {
            None
        }
}

/// Paused programs that have waited for the given time.
pub open spec fn timed_out(now: u64, timeout: u64) -> Keys {
    |name: Seq<char>, program: Program|
        match program.deferred_since {
            Some(since) if program.lifecycle == ProgramLifecycle::Paused && now.saturating_sub(
                since,
            ) >= timeout => Some((0, 0)),
            _ => None,
        }
}

/// Programs between turns, with their tokens and since when.
pub open spec fn acting() -> Keys {
    |name: Seq<char>, program: Program|
        match program.acting_since {
            Some(since) if program.status == ProgramStatus::Acting => Some(
                (program.token_total as u64, since),
            ),
            _ => None,
        }
}

struct Running;

impl ProgramOrder for Running {
    closed spec fn keys(&self) -> Keys {
        running()
    }

    closed spec fn ready(&self) -> bool {
        true
    }

    fn key(&self, name: &str, program: &Program) -> (key: Option<(u64, u64)>) {
        if program.lifecycle == ProgramLifecycle::Active && program.assigned_worker.is_some() {
            Some((0, 0))
        } else {
            None
        }
    }
}

struct Fairness;

impl ProgramOrder for Fairness {
    closed spec fn keys(&self) -> Keys {
        fairness()
    }

    closed spec fn ready(&self) -> bool {
        true
    }

    fn key(&self, name: &str, program: &Program) -> (key: Option<(u64, u64)>) {
        if program.lifecycle != ProgramLifecycle::Paused {
            None
        } else if program.step_count <= 1 {
            Some((1, program.token_total as u64))
        } else if program.status == ProgramStatus::Reasoning {
            Some((0, program.token_total as u64))
        } else {
            Some((2, program.token_total as u64))
        }
    }
}

struct LargestFirst<'a> {
    chosen: &'a StringHashSet,
}

impl<'a> ProgramOrder for LargestFirst<'a> {
    closed spec fn keys(&self) -> Keys {
        largest_first(self.chosen@)
    }

    closed spec fn ready(&self) -> bool {
        true
    }

    fn key(&self, name: &str, program: &Program) -> (key: Option<(u64, u64)>) {
        if self.chosen.contains(name) {
            Some((u64::MAX - program.token_total as u64, 0))
        } else {
            None
        }
    }
}

struct TimedOut {
    now: u64,
    timeout: u64,
}

impl ProgramOrder for TimedOut {
    closed spec fn keys(&self) -> Keys {
        timed_out(self.now, self.timeout)
    }

    closed spec fn ready(&self) -> bool {
        true
    }

    fn key(&self, name: &str, program: &Program) -> (key: Option<(u64, u64)>) {
        match program.deferred_since {
            Some(since) => if program.lifecycle == ProgramLifecycle::Paused
                && self.now.saturating_sub(since) >= self.timeout {
                Some((0, 0))
            } else {
                None
            },
            None => None,
        }
    }
}

/// Programs between turns.
pub struct Acting;

impl ProgramOrder for Acting {
    open spec fn keys(&self) -> Keys {
        acting()
    }

    open spec fn ready(&self) -> bool {
        true
    }

    fn key(&self, name: &str, program: &Program) -> (key: Option<(u64, u64)>) {
        match program.acting_since {
            Some(since) => if program.status == ProgramStatus::Acting {
                Some((program.token_total as u64, since))
            } else {
                None
            },
            None => None,
        }
    }
}

impl Ledger {
    /// The worker that a new program goes to: the least used live one that it fits on.
    pub open spec fn admission_worker(
        self,
        capacities: Capacities,
        required: usize,
    ) -> Option<WorkerWithDpRank> {
        card_worker(
            capacities,
            pick(
                capacities.cards.len() as int,
                admitting(self, capacities, required),
                less_used(self, capacities),
            ),
        )
    }

    /// The tokens that resuming a session's program takes.
    pub open spec fn required(self, session: Seq<char>) -> usize {
        self.programs[session].token_total.saturating_add(self.buffer)
    }

    /// The tokens left under a worker's resume limit.
    pub open spec fn available(self, capacities: Capacities, at: int) -> usize {
        capacities.cards[at].resume_limit.saturating_sub(
            used_on(self.usage, capacities.cards[at].worker),
        )
    }

    /// The rooms on the first `count` workers: those on live workers with more than the headroom
    /// of one program.
    pub open spec fn rooms(self, capacities: Capacities, count: nat) -> Seq<Room>
        decreases count,
    {
        if count == 0 {
            Seq::empty()
        } else {
            let earlier = self.rooms(capacities, (count - 1) as nat);
            let worker = capacities.cards[count - 1].worker;
            let available = self.available(capacities, count - 1);
            if capacities.is_live(worker) && available > self.buffer {
                earlier.push(Room { worker, available })
            } else {
                earlier
            }
        }
    }

    /// How many of the first programs fit into the budget together.
    pub open spec fn affordable(self, order: Seq<Rank>, budget: int) -> nat
        decreases order.len(),
    {
        if order.len() == 0 || self.required(order[0].name) > budget {
            0
        } else {
            1 + self.affordable(order.drop_first(), budget - self.required(order[0].name))
        }
    }

    /// The paused programs that are resumed together: the longest prefix of the fairness order
    /// that fits into all rooms taken together.
    pub open spec fn resumable(self, rooms: Seq<Room>) -> Set<Seq<char>> {
        let order = self.order_by(fairness());
        names_of(order.take(self.affordable(order, total_room(rooms)) as int))
    }

    /// Usage per worker when usage during tool work decays.
    pub open spec fn decayed_usage(
        self,
        decays: Map<Seq<char>, usize>,
        decayed: Map<WorkerWithDpRank, usize>,
        order: Seq<Rank>,
    ) -> Map<WorkerWithDpRank, usize>
        decreases order.len(),
    {
        if order.len() == 0 {
            decayed
        } else {
            let name = order[0].name;
            let program = self.programs[name];
            self.decayed_usage(
                decays,
                decayed_more(
                    decayed,
                    program.assigned_worker->0,
                    decayed_tokens(decays, name, program),
                    self.buffer,
                ),
                order.drop_first(),
            )
        }
    }
}

impl ProgramLedger {
    /// The worker that a new program goes to.
    pub fn find_admission_worker(&self, capacities: &WorkerCapacitySnapshot, required: usize) -> (target:
        Option<WorkerWithDpRank>)
        requires
            capacities.wf(),
        ensures
            target == self@.admission_worker(capacities@, required),
    {
        let ghost may = admitting(self@, capacities@, required);
        let ghost better = less_used(self@, capacities@);
        let mut best: Option<usize> = None;
        proof {
            capacities.lemma_one_card_each();
        }
        let count: usize = capacities.len();
        for at in 0..count
            invariant
                capacities.wf(),
                one_card_each(capacities@.cards),
                count == capacities@.cards.len(),
                may == admitting(self@, capacities@, required),
                better == less_used(self@, capacities@),
                picked(best, at as int, may, better),
        {
            let card = capacities.card(at);
            let used: usize = self.used(&card.worker);
            proof {
                lemma_pick_next(best, at, may, better);
            }
            if capacities.is_live(&card.worker) && used <= card.capacity && card.capacity - used
                >= required {
                best = match best {
                    Some(held) => {
                        let other = capacities.card(held).worker;
                        let other_used: usize = self.used(&other);
                        if used < other_used || (used == other_used && card.worker.before(&other)) {
                            Some(at)
                        } else {
                            best
                        }
                    },
                    None => Some(at),
                };
            }
        }
        proof {
            lemma_picked(best, count as int, may, better);
        }
        match best {
            Some(at) => Some(capacities.card(at).worker),
            None => None,
        }
    }

    /// The rooms on all workers.
    pub fn find_rooms(&self, capacities: &WorkerCapacitySnapshot) -> (rooms: Vec<Room>)
        requires
            capacities.wf(),
        ensures
            rooms@ == self@.rooms(capacities@, capacities@.cards.len()),
            one_room_each(rooms@),
    {
        let mut rooms: Vec<Room> = Vec::new();
        let ghost mut from: Seq<int> = Seq::empty();
        proof {
            capacities.lemma_one_card_each();
        }
        let buffer: usize = self.headroom();
        let count: usize = capacities.len();
        for at in 0..count
            invariant
                capacities.wf(),
                one_card_each(capacities@.cards),
                count == capacities@.cards.len(),
                buffer == self@.buffer,
                rooms@ == self@.rooms(capacities@, at as nat),
                rooms@.len() == from.len(),
                forall|k: int|
                    0 <= k < from.len() ==> 0 <= #[trigger] from[k] < at && rooms@[k].worker
                        == capacities@.cards[from[k]].worker,
                forall|i: int, j: int|
                    0 <= i < j < from.len() ==> #[trigger] from[i] < #[trigger] from[j],
                one_room_each(rooms@),
        {
            let card = capacities.card(at);
            let available: usize = card.resume_limit.saturating_sub(self.used(&card.worker));
            if capacities.is_live(&card.worker) && available > buffer {
                let ghost had = rooms@;
                rooms.push(Room { worker: card.worker, available });
                proof {
                    from = from.push(at as int);
                    assert forall|i: int, j: int| 0 <= i < j < rooms@.len() implies (
                    #[trigger] rooms@[i]).worker != (#[trigger] rooms@[j]).worker by {
                        assert(from[i] < from[j]);
                        assert(capacities@.cards[from[i]].worker
                            != capacities@.cards[from[j]].worker);
                    }
                }
            }
        }
        rooms
    }

    /// The paused programs that are resumed together: the longest prefix of the fairness order
    /// that fits into all rooms taken together.
    pub fn find_affordable(&self, rooms: &Vec<Room>) -> (chosen: StringHashSet)
        requires
            self.wf(),
        ensures
            chosen@ == self@.resumable(rooms@),
    {
        let order = self.ordered(&Fairness);
        let ghost all = ranks(order@);
        let mut budget: u128 = 0;
        assert(rooms@.take(0) =~= Seq::<Room>::empty());
        for at in 0..rooms.len()
            invariant
                budget == total_room(rooms@.take(at as int)),
                budget <= at * usize::MAX,
        {
            assert(rooms@.take(at + 1).drop_last() =~= rooms@.take(at as int));
            assert((at + 1) * usize::MAX == at * usize::MAX + usize::MAX) by (nonlinear_arith);
            assert((at + 1) * usize::MAX <= 0xffff_ffff_ffff_ffff * 0xffff_ffff_ffff_ffff)
                by (nonlinear_arith)
                requires
                    at + 1 <= 0xffff_ffff_ffff_ffff,
                    usize::MAX <= 0xffff_ffff_ffff_ffff,
            ;
            budget = budget + rooms[at].available as u128;
        }
        assert(rooms@.take(rooms@.len() as int) =~= rooms@);
        let ghost whole = budget as int;
        let mut chosen = StringHashSet::new();
        let mut at: usize = 0;
        let count: usize = order.len();
        let buffer: usize = self.headroom();
        assert(all.skip(0) =~= all);
        assert(chosen@ =~= names_of(all.take(0)));
        while at < count
            invariant_except_break
                at + self@.affordable(all.skip(at as int), budget as int) == self@.affordable(
                    all,
                    whole,
                ),
            invariant
                self.wf(),
                all == ranks(order@),
                all == self@.order_by(fairness()),
                forall|k: int|
                    0 <= k < all.len() ==> has_key(self@, fairness(), (#[trigger] all[k]).name),
                count == order@.len(),
                at <= count,
                buffer == self@.buffer,
                chosen@ == names_of(all.take(at as int)),
            ensures
                at == self@.affordable(all, whole),
            decreases count - at,
        {
            let name: &str = order[at].name.as_str();
            assert(all.skip(at as int)[0] == order@[at as int]@);
            assert(all.skip(at as int).drop_first() =~= all.skip(at + 1));
            assert(has_key(self@, fairness(), all[at as int].name));
            let required: usize = match self.get(name) {
                Some(program) => program.token_total.saturating_add(buffer),
                None => 0,
            };
            if required as u128 > budget {
                break ;
            }
            budget = budget - required as u128;
            chosen.insert(name.to_owned());
            proof {
                let had = all.take(at as int);
                let has = all.take(at + 1);
                assert(has =~= had.push(all[at as int]));
                assert forall|n: Seq<char>|
                    names_of(has).contains(n) <==> names_of(had).contains(n) || n
                        == all[at as int].name by {
                    if names_of(had).contains(n) {
                        let k = choose|k: int| 0 <= k < had.len() && (#[trigger] had[k]).name == n;
                        assert(has[k].name == n);
                    }
                    assert(has[at as int].name == all[at as int].name);
                }
                assert(chosen@ =~= names_of(has));
            }
            at = at + 1;
        }
        chosen
    }

    /// The chosen programs, the largest first.
    pub fn pack_order(&self, chosen: &StringHashSet) -> (sorted: VecDeque<Ranked>)
        requires
            self.wf(),
        ensures
            ranks(sorted@) == self@.order_by(largest_first(chosen@)),
    {
        self.ordered(&LargestFirst { chosen })
    }

    /// Paused programs that have waited for the given time.
    pub fn timed_out_order(&self, now: u64, timeout: u64) -> (sorted: VecDeque<Ranked>)
        requires
            self.wf(),
        ensures
            ranks(sorted@) == self@.order_by(timed_out(now, timeout)),
    {
        self.ordered(&TimedOut { now, timeout })
    }

    /// Programs between turns, with their tokens and since when.
    pub fn acting_order(&self) -> (sorted: VecDeque<Ranked>)
        requires
            self.wf(),
        ensures
            ranks(sorted@) == self@.order_by(acting()),
    {
        self.ordered(&Acting)
    }

    /// Usage per worker when usage during tool work decays.
    pub fn find_decayed_usage(&self, decays: &Table<usize>) -> (decayed: WorkerMap<usize>)
        requires
            self.wf(),
            decays.wf(),
        ensures
            decayed@ == self@.decayed_usage(decays@, Map::empty(), self@.order_by(running())),
    {
        let order = self.ordered(&Running);
        let ghost all = ranks(order@);
        let mut decayed: WorkerMap<usize> = WorkerMap::new();
        let buffer: usize = self.headroom();
        let count: usize = order.len();
        assert(all.skip(0) =~= all);
        for at in 0..count
            invariant
                self.wf(),
                decays.wf(),
                all == ranks(order@),
                all == self@.order_by(running()),
                forall|k: int|
                    0 <= k < all.len() ==> has_key(self@, running(), (#[trigger] all[k]).name),
                count == order@.len(),
                buffer == self@.buffer,
                self@.decayed_usage(decays@, decayed@, all.skip(at as int))
                    == self@.decayed_usage(decays@, Map::empty(), all),
        {
            assert(all.skip(at as int).drop_first() =~= all.skip(at + 1));
            assert(all.skip(at as int)[0] == order@[at as int]@);
            assert(has_key(self@, running(), all[at as int].name));
            let name: &str = order[at].name.as_str();
            if let Some(program) = self.get(name) {
                if let Some(worker) = program.assigned_worker {
                    add_decayed(
                        &mut decayed,
                        worker,
                        tokens_after_decay(decays, name, &program),
                        buffer,
                    );
                }
            }
        }
        decayed
    }
}

/// The names in a sequence of ranks.
pub open spec fn names_of(order: Seq<Rank>) -> Set<Seq<char>> {
    Set::new(|name: Seq<char>| exists|at: int| 0 <= at < order.len() && (#[trigger] order[at]).name == name)
}

} // verus!
