//! The host's view of worker capacity and liveness.
use vstd::prelude::*;

use crate::worker::{WorkerMap, WorkerWithDpRank};

verus! {

/// The capacity of one worker, with the fractions of it that decisions are made against.
///
/// `pause_limit`, `pause_goal` and `resume_limit` are the capacity times the pause threshold, the
/// pause target, and the pause threshold less the resume hysteresis. The host scales them.
#[derive(Clone, Copy, Debug, PartialEq, Eq, Structural)]
pub struct CapacityCard {
    pub worker: WorkerWithDpRank,
    pub capacity: usize,
    pub pause_limit: usize,
    pub pause_goal: usize,
    pub resume_limit: usize,
}

/// A worker as the host reports it.
#[derive(Clone, Copy, Debug, PartialEq, Eq, Structural)]
pub struct HostWorker {
    pub worker: WorkerWithDpRank,
    pub total_kv_blocks: Option<u64>,
}

/// The program-retention budget of a worker: its cache blocks times the block size, or the
/// largest representable budget where that is larger.
pub open spec fn retention_budget(total_kv_blocks: u64, block_size: u32) -> usize {
    if total_kv_blocks * block_size > usize::MAX {
        usize::MAX
    } else {
        (total_kv_blocks * block_size) as usize
    }
}

/// Derive a worker's program-retention budget.
pub fn worker_budget(total_kv_blocks: u64, block_size: u32) -> (budget: usize)
    ensures
        budget == retention_budget(total_kv_blocks, block_size),
{
    assert(total_kv_blocks * block_size <= 0xffff_ffff_ffff_ffff * 0xffff_ffff) by (nonlinear_arith)
        requires
            total_kv_blocks <= 0xffff_ffff_ffff_ffff,
            block_size <= 0xffff_ffff,
    ;
    assert(0 <= total_kv_blocks * block_size) by (nonlinear_arith);
    let budget: u128 = (total_kv_blocks as u128) * (block_size as u128);
    if budget > usize::MAX as u128 {
        usize::MAX
    } else {
        budget as usize
    }
}

/// The budgets of the workers that report their cache blocks, in the host's order.
pub open spec fn budgets(workers: Seq<HostWorker>, block_size: u32) -> Seq<(WorkerWithDpRank, usize)>
    decreases workers.len(),
{
    if workers.len() == 0 {
        Seq::empty()
    } else {
        let earlier = budgets(workers.drop_last(), block_size);
        match workers.last().total_kv_blocks {
            Some(blocks) => earlier.push(
                (workers.last().worker, retention_budget(blocks, block_size)),
            ),
            None => earlier,
        }
    }
}

/// Derive the budgets of all workers that report their cache blocks.
pub fn worker_budgets(workers: &Vec<HostWorker>, block_size: u32) -> (found: Vec<
    (WorkerWithDpRank, usize),
>)
    ensures
        found@ == budgets(workers@, block_size),
{
    let mut found: Vec<(WorkerWithDpRank, usize)> = Vec::new();
    assert(workers@.take(0) =~= Seq::<HostWorker>::empty());
    for at in 0..workers.len()
        invariant
            found@ == budgets(workers@.take(at as int), block_size),
    {
        assert(workers@.take(at + 1).drop_last() =~= workers@.take(at as int));
        if let Some(blocks) = workers[at].total_kv_blocks {
            found.push((workers[at].worker, worker_budget(blocks, block_size)));
        }
    }
    assert(workers@.take(workers@.len() as int) =~= workers@);
    found
}

/// What a snapshot says.
#[verifier::ext_equal]
pub struct Capacities {
    pub id: u64,
    pub cards: Seq<CapacityCard>,
    pub live: Option<Set<WorkerWithDpRank>>,
}

/// The last card of each worker, in the order in which the workers first appear.
pub open spec fn latest_cards(cards: Seq<CapacityCard>) -> Seq<CapacityCard>
    decreases cards.len(),
{
    if cards.len() == 0 {
        Seq::empty()
    } else {
        let earlier = latest_cards(cards.drop_last());
        let card = cards.last();
        if has_card(earlier, card.worker) {
            earlier.update(card_at(earlier, card.worker), card)
        } else {
            earlier.push(card)
        }
    }
}

/// Whether a worker has a card.
pub open spec fn has_card(cards: Seq<CapacityCard>, worker: WorkerWithDpRank) -> bool {
    exists|at: int| 0 <= at < cards.len() && (#[trigger] cards[at]).worker == worker
}

/// Where the card of a worker is.
pub open spec fn card_at(cards: Seq<CapacityCard>, worker: WorkerWithDpRank) -> int {
    choose|at: int| 0 <= at < cards.len() && (#[trigger] cards[at]).worker == worker
}

/// No worker has two cards.
pub open spec fn one_card_each(cards: Seq<CapacityCard>) -> bool {
    forall|i: int, j: int|
        0 <= i < j < cards.len() ==> (#[trigger] cards[i]).worker != (#[trigger] cards[j]).worker
}

impl Capacities {
    /// Liveness is the host's where it reports any; otherwise a worker with a card is live.
    pub open spec fn is_live(self, worker: WorkerWithDpRank) -> bool {
        match self.live {
            Some(live) => live.contains(worker),
            None => has_card(self.cards, worker),
        }
    }

    /// Whether some live worker has a card.
    pub open spec fn has_usable_capacity(self) -> bool {
        exists|at: int|
            0 <= at < self.cards.len() && self.is_live((#[trigger] self.cards[at]).worker)
    }

    /// Whether some worker is live.
    pub open spec fn has_live_worker(self) -> bool {
        exists|worker: WorkerWithDpRank| self.is_live(worker)
    }
}

/// Worker capacities and liveness at one moment.
pub struct WorkerCapacitySnapshot {
    id: u64,
    cards: Vec<CapacityCard>,
    places: WorkerMap<usize>,
    live: Option<WorkerMap<bool>>,
    any_live: bool,
}

impl View for WorkerCapacitySnapshot {
    type V = Capacities;

    closed spec fn view(&self) -> Capacities {
        Capacities {
            id: self.id,
            cards: self.cards@,
            live: match self.live {
                Some(live) => Some(live@.dom()),
                None => None,
            },
        }
    }
}

impl WorkerCapacitySnapshot {
    pub closed spec fn wf(&self) -> bool {
        &&& one_card_each(self.cards@)
        &&& self.places_match()
        &&& self.live matches Some(live) ==> self.any_live == (exists|worker: WorkerWithDpRank|
            live@.contains_key(worker))
    }

    spec fn places_match(&self) -> bool {
        &&& forall|worker: WorkerWithDpRank| #[trigger]
            self.places@.contains_key(worker) ==> self.places@[worker] < self.cards@.len()
                && self.cards@[self.places@[worker] as int].worker == worker
        &&& forall|at: int|
            0 <= at < self.cards@.len() ==> self.places@.contains_key(
                (#[trigger] self.cards@[at]).worker,
            ) && self.places@[self.cards@[at].worker] == at
    }

    /// A snapshot has one card per worker.
    pub proof fn lemma_one_card_each(&self)
        requires
            self.wf(),
        ensures
            one_card_each(self@.cards),
    {
    }

    /// A snapshot of the given cards. Of two cards for one worker the later one counts.
    pub fn new(id: u64, cards: Vec<CapacityCard>) -> (snapshot: Self)
        ensures
            snapshot.wf(),
            snapshot@ == (Capacities { id, cards: latest_cards(cards@), live: None }),
            one_card_each(snapshot@.cards),
    {
        let mut snapshot = WorkerCapacitySnapshot {
            id,
            cards: Vec::new(),
            places: WorkerMap::new(),
            live: None,
            any_live: false,
        };
        assert(cards@.take(0) =~= Seq::<CapacityCard>::empty());
        for at in 0..cards.len()
            invariant
                snapshot.id == id,
                snapshot.live is None,
                snapshot.cards@ == latest_cards(cards@.take(at as int)),
                snapshot.places_match(),
                one_card_each(snapshot.cards@),
        {
            let ghost had = snapshot.cards@;
            assert(cards@.take(at + 1).drop_last() =~= cards@.take(at as int));
            let card: CapacityCard = cards[at];
            match snapshot.places.get(&card.worker) {
                Some(place) => {
                    assert(had[place as int].worker == card.worker);
                    assert(card_at(had, card.worker) == place);
                    snapshot.cards.set(place, card);
                    assert(snapshot.places_match()) by {
                        assert forall|k: int| 0 <= k < snapshot.cards@.len() implies snapshot.places@.contains_key(
                            (#[trigger] snapshot.cards@[k]).worker,
                        ) && snapshot.places@[snapshot.cards@[k].worker] == k by {
                            assert(snapshot.cards@[k].worker == had[k].worker);
                        }
                    }
                    assert forall|i: int, j: int|
                        0 <= i < j < snapshot.cards@.len() implies (
                    #[trigger] snapshot.cards@[i]).worker != (
                    #[trigger] snapshot.cards@[j]).worker by {
                        assert(had[i].worker != had[j].worker);
                    }
                },
                None => {
                    assert(!has_card(had, card.worker)) by {
                        if has_card(had, card.worker) {
                            let k = card_at(had, card.worker);
                            assert(snapshot.places@.contains_key(had[k].worker));
                        }
                    }
                    let place: usize = snapshot.cards.len();
                    snapshot.cards.push(card);
                    snapshot.places.insert(card.worker, place);
                    assert(snapshot.places_match()) by {
                        assert forall|k: int| 0 <= k < snapshot.cards@.len() implies snapshot.places@.contains_key(
                            (#[trigger] snapshot.cards@[k]).worker,
                        ) && snapshot.places@[snapshot.cards@[k].worker] == k by {
                            if k < had.len() {
                                assert(snapshot.cards@[k] == had[k]);
                            }
                        }
                    }
                },
            }
        }
        assert(cards@.take(cards@.len() as int) =~= cards@);
        snapshot
    }

    /// The snapshot with the host's liveness.
    pub fn with_live_workers(self, workers: Vec<WorkerWithDpRank>) -> (snapshot: Self)
        requires
            self.wf(),
        ensures
            snapshot.wf(),
            snapshot@ == (Capacities { live: Some(workers@.to_set()), ..self@ }),
    {
        let mut live: WorkerMap<bool> = WorkerMap::new();
        for at in 0..workers.len()
            invariant
                live@.dom() =~= workers@.take(at as int).to_set(),
        {
            let ghost had = live@.dom();
            live.insert(workers[at], true);
            assert(live@.dom() =~= workers@.take(at + 1).to_set()) by {
                let has = workers@.take(at + 1);
                assert(has =~= workers@.take(at as int).push(workers@[at as int]));
                assert forall|worker: WorkerWithDpRank| had.insert(workers@[at as int]).contains(
                    worker,
                ) <==> has.to_set().contains(worker) by {
                    if workers@.take(at as int).contains(worker) {
                        let k = choose|k: int|
                            0 <= k < at && workers@.take(at as int)[k] == worker;
                        assert(has[k] == worker);
                    }
                    assert(has[at as int] == workers@[at as int]);
                }
            }
        }
        assert(workers@.take(workers@.len() as int) =~= workers@);
        let any_live: bool = workers.len() > 0;
        assert(any_live == exists|worker: WorkerWithDpRank| live@.contains_key(worker)) by {
            if any_live {
                assert(workers@.contains(workers@[0]));
                assert(live@.dom().contains(workers@[0]));
            } else {
                assert forall|worker: WorkerWithDpRank| !live@.contains_key(worker) by {
                    assert(!workers@.to_set().contains(worker));
                }
            }
        }
        WorkerCapacitySnapshot { live: Some(live), any_live, ..self }
    }

    pub fn id(&self) -> (id: u64)
        ensures
            id == self@.id,
    {
        self.id
    }

    /// The number of cards.
    pub fn len(&self) -> (count: usize)
        ensures
            count == self@.cards.len(),
    {
        self.cards.len()
    }

    pub fn is_empty(&self) -> (empty: bool)
        ensures
            empty == (self@.cards.len() == 0),
    {
        self.cards.len() == 0
    }

    pub fn card(&self, at: usize) -> (card: CapacityCard)
        requires
            at < self@.cards.len(),
        ensures
            card == self@.cards[at as int],
    {
        self.cards[at]
    }

    pub fn has_liveness(&self) -> (reported: bool)
        ensures
            reported == (self@.live is Some),
    {
        self.live.is_some()
    }

    pub fn is_live(&self, worker: &WorkerWithDpRank) -> (live: bool)
        requires
            self.wf(),
        ensures
            live == self@.is_live(*worker),
    {
        match &self.live {
            Some(live) => live.get(worker).is_some(),
            None => {
                let place = self.places.get(worker);
                proof {
                    if place is Some {
                        assert(self.cards@[place->0 as int].worker == *worker);
                    }
                    if has_card(self.cards@, *worker) {
                        let k = card_at(self.cards@, *worker);
                        assert(self.places@.contains_key(self.cards@[k].worker));
                    }
                }
                place.is_some()
            },
        }
    }

    pub fn has_usable_capacity(&self) -> (usable: bool)
        requires
            self.wf(),
        ensures
            usable == self@.has_usable_capacity(),
    {
        for at in 0..self.cards.len()
            invariant
                self.wf(),
                forall|k: int| 0 <= k < at ==> !self@.is_live((#[trigger] self@.cards[k]).worker),
        {
            let worker: WorkerWithDpRank = self.cards[at].worker;
            if self.is_live(&worker) {
                assert(self@.is_live(self@.cards[at as int].worker));
                return true;
            }
        }
        false
    }

    pub fn has_live_worker(&self) -> (any: bool)
        requires
            self.wf(),
        ensures
            any == self@.has_live_worker(),
    {
        match &self.live {
            Some(live) => {
                proof {
                    if self.any_live {
                        let worker = choose|worker: WorkerWithDpRank| live@.contains_key(worker);
                        assert(self@.is_live(worker));
                    } else {
                        assert forall|worker: WorkerWithDpRank| !self@.is_live(worker) by {
                            assert(!live@.contains_key(worker));
                        }
                    }
                }
                self.any_live
            },
            None => {
                proof {
                    if self.cards@.len() > 0 {
                        let worker = self.cards@[0].worker;
                        assert(has_card(self.cards@, worker));
                        assert(self@.is_live(worker));
                    }
                }
                self.cards.len() > 0
            },
        }
    }
}

} // verus!
