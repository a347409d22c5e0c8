//! Worker identity and maps keyed by it.
use std::collections::HashMap;
use vstd::prelude::*;

verus! {

broadcast use vstd::std_specs::hash::group_hash_axioms;

/// One data-parallel rank of one worker.
#[derive(Clone, Copy, Debug, PartialEq, Eq, PartialOrd, Ord, Hash, Structural)]
pub struct WorkerWithDpRank {
    pub worker_id: u64,
    pub dp_rank: u32,
}

/// A worker that a request should go to; without a rank, any rank of it will do.
#[derive(Clone, Copy, Debug, PartialEq, Eq, Structural)]
pub struct WorkerAffinityTarget {
    pub worker_id: u64,
    pub dp_rank: Option<u32>,
}

impl WorkerWithDpRank {
    pub fn new(worker_id: u64, dp_rank: u32) -> (worker: Self)
        ensures
            worker.worker_id == worker_id,
            worker.dp_rank == dp_rank,
    {
        WorkerWithDpRank { worker_id, dp_rank }
    }

    /// Rank zero of a worker.
    pub fn from_worker_id(worker_id: u64) -> (worker: Self)
        ensures
            worker.worker_id == worker_id,
            worker.dp_rank == 0,
    {
        WorkerWithDpRank { worker_id, dp_rank: 0 }
    }

    /// The stable worker order: by worker id, then by rank.
    pub open spec fn is_before(self, other: Self) -> bool {
        self.worker_id < other.worker_id || (self.worker_id == other.worker_id && self.dp_rank
            < other.dp_rank)
    }

    pub fn before(&self, other: &Self) -> (earlier: bool)
        ensures
            earlier == self.is_before(*other),
    {
        self.worker_id < other.worker_id || (self.worker_id == other.worker_id && self.dp_rank
            < other.dp_rank)
    }

    /// One integer per worker, in the stable worker order.
    pub closed spec fn spec_key(self) -> u128 {
        (self.worker_id * 0x1_0000_0000 + self.dp_rank) as u128
    }

    fn key(&self) -> (key: u128)
        ensures
            key == self.spec_key(),
    {
        (self.worker_id as u128) * 0x1_0000_0000u128 + (self.dp_rank as u128)
    }

    proof fn lemma_key_injective(self, other: Self)
        requires
            self.spec_key() == other.spec_key(),
        ensures
            self == other,
    {
    }
}

impl WorkerAffinityTarget {
    /// Whether `worker` is one that this target names.
    pub open spec fn covers(self, worker: WorkerWithDpRank) -> bool {
        worker.worker_id == self.worker_id && (self.dp_rank matches Some(rank) ==> worker.dp_rank
            == rank)
    }

    pub fn matches(&self, worker: &WorkerWithDpRank) -> (covered: bool)
        ensures
            covered == self.covers(*worker),
    {
        worker.worker_id == self.worker_id && match self.dp_rank {
            Some(rank) => worker.dp_rank == rank,
            None => true,
        }
    }
}

/// A map from workers to copyable values.
#[verifier::reject_recursive_types(V)]
pub struct WorkerMap<V> {
    slots: HashMap<u128, V>,
}

impl<V> View for WorkerMap<V> {
    type V = Map<WorkerWithDpRank, V>;

    closed spec fn view(&self) -> Map<WorkerWithDpRank, V> {
        Map::new(
            |worker: WorkerWithDpRank| self.slots@.contains_key(worker.spec_key()),
            |worker: WorkerWithDpRank| self.slots@[worker.spec_key()],
        )
    }
}

impl<V: Copy> WorkerMap<V> {
    pub fn new() -> (map: Self)
        ensures
            map@ == Map::<WorkerWithDpRank, V>::empty(),
    {
        let map = WorkerMap { slots: HashMap::new() };
        assert(map@ =~= Map::<WorkerWithDpRank, V>::empty());
        map
    }

    pub fn get(&self, worker: &WorkerWithDpRank) -> (value: Option<V>)
        ensures
            value == (if self@.contains_key(*worker) {
                Some(self@[*worker])
            } else {
                None
            }),
    {
        let key = worker.key();
        match self.slots.get(&key) {
            Some(value) => Some(*value),
            None => None,
        }
    }

    pub fn insert(&mut self, worker: WorkerWithDpRank, value: V)
        ensures
            final(self)@ == old(self)@.insert(worker, value),
    {
        let key = worker.key();
        self.slots.insert(key, value);
        proof {
            assert forall|other: WorkerWithDpRank| other.spec_key() == key implies other
                == worker by {
                other.lemma_key_injective(worker);
            }
            assert(self@ =~= old(self)@.insert(worker, value));
        }
    }

    pub fn remove(&mut self, worker: &WorkerWithDpRank)
        ensures
            final(self)@ == old(self)@.remove(*worker),
    {
        let key = worker.key();
        self.slots.remove(&key);
        proof {
            assert forall|other: WorkerWithDpRank| other.spec_key() == key implies other
                == *worker by {
                other.lemma_key_injective(*worker);
            }
            assert(self@ =~= old(self)@.remove(*worker));
        }
    }
}

/// A lower worker id comes first whatever the ranks are; of one worker the lower rank.
pub proof fn lemma_worker_order(a: WorkerWithDpRank, b: WorkerWithDpRank)
    ensures
        a.worker_id < b.worker_id ==> a.is_before(b) && !b.is_before(a),
        a.worker_id == b.worker_id ==> (a.is_before(b) <==> a.dp_rank < b.dp_rank),
{
}

/// A target without a rank names every rank of its worker, and one with a rank that rank alone.
pub proof fn lemma_target_names(target: WorkerAffinityTarget, worker: WorkerWithDpRank)
    ensures
        target.worker_id != worker.worker_id ==> !target.covers(worker),
        target.worker_id == worker.worker_id && target.dp_rank is None ==> target.covers(worker),
        target.worker_id == worker.worker_id && target.dp_rank is Some ==> (target.covers(worker)
            <==> target.dp_rank == Some(worker.dp_rank)),
{
}

} // verus!
