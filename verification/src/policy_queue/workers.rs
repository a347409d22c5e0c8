//! The workers that the queue reports.
use vstd::prelude::*;

use crate::policy_queue::model::{
    is_known, known_once, latest_reports, worker_at, PolicyQueueWorker,
};
use crate::worker::{WorkerMap, WorkerWithDpRank};

verus! {

/// The last report of each worker.
pub struct WorkerTable {
    reports: Vec<PolicyQueueWorker>,
    places: WorkerMap<usize>,
}

impl View for WorkerTable {
    type V = Seq<PolicyQueueWorker>;

    closed spec fn view(&self) -> Seq<PolicyQueueWorker> {
        self.reports@
    }
}

impl WorkerTable {
    pub closed spec fn wf(&self) -> bool {
        &&& known_once(self.reports@)
        &&& forall|worker: WorkerWithDpRank| #[trigger]
            self.places@.contains_key(worker) ==> self.places@[worker] < self.reports@.len()
                && self.reports@[self.places@[worker] as int].worker == worker
        &&& forall|at: int|
            0 <= at < self.reports@.len() ==> self.places@.contains_key(
                (#[trigger] self.reports@[at]).worker,
            ) && self.places@[self.reports@[at].worker] == at
    }

    /// A table has one report per worker.
    pub proof fn lemma_known_once(&self)
        requires
            self.wf(),
        ensures
            known_once(self@),
    {
    }

    /// A table of reports. Of two reports of one worker the later one counts.
    pub fn new(reports: &Vec<PolicyQueueWorker>) -> (table: Self)
        ensures
            table.wf(),
            table@ == latest_reports(reports@),
    {
        let mut table = WorkerTable { reports: Vec::new(), places: WorkerMap::new() };
        assert(reports@.take(0) =~= Seq::<PolicyQueueWorker>::empty());
        for at in 0..reports.len()
            invariant
                table.wf(),
                table@ == latest_reports(reports@.take(at as int)),
        {
            let ghost had = table.reports@;
            assert(reports@.take(at + 1).drop_last() =~= reports@.take(at as int));
            let report: PolicyQueueWorker = reports[at];
            match table.places.get(&report.worker) {
                Some(place) => {
                    assert(had[place as int].worker == report.worker);
                    assert(worker_at(had, report.worker) == place);
                    table.reports.set(place, report);
                    assert forall|k: int| 0 <= k < table.reports@.len() implies table.places@.contains_key(
                        (#[trigger] table.reports@[k]).worker,
                    ) && table.places@[table.reports@[k].worker] == k by {
                        assert(table.reports@[k].worker == had[k].worker);
                    }
                    assert forall|i: int, j: int| 0 <= i < j < table.reports@.len() implies (
                    #[trigger] table.reports@[i]).worker != (#[trigger] table.reports@[j]).worker by {
                        assert(had[i].worker != had[j].worker);
                    }
                },
                None => {
                    assert(!is_known(had, report.worker)) by {
                        if is_known(had, report.worker) {
                            let k = worker_at(had, report.worker);
                            assert(table.places@.contains_key(had[k].worker));
                        }
                    }
                    let place: usize = table.reports.len();
                    table.reports.push(report);
                    table.places.insert(report.worker, place);
                    assert forall|k: int| 0 <= k < table.reports@.len() implies table.places@.contains_key(
                        (#[trigger] table.reports@[k]).worker,
                    ) && table.places@[table.reports@[k].worker] == k by {
                        if k < had.len() {
                            assert(table.reports@[k] == had[k]);
                        }
                    }
                },
            }
        }
        assert(reports@.take(reports@.len() as int) =~= reports@);
        table
    }

    pub fn len(&self) -> (count: usize)
        ensures
            count == self@.len(),
    {
        self.reports.len()
    }

    pub fn at(&self, at: usize) -> (report: PolicyQueueWorker)
        requires
            at < self@.len(),
        ensures
            report == self@[at as int],
    {
        self.reports[at]
    }

    /// The report of a worker.
    pub fn get(&self, worker: &WorkerWithDpRank) -> (report: Option<PolicyQueueWorker>)
        requires
            self.wf(),
        ensures
            report == (if is_known(self@, *worker) {
                Some(self@[worker_at(self@, *worker)])
            } else {
                None
            }),
    {
        let place = self.places.get(worker);
        proof {
            if place is Some {
                assert(self.reports@[place->0 as int].worker == *worker);
            }
            if is_known(self.reports@, *worker) {
                let k = worker_at(self.reports@, *worker);
                assert(self.places@.contains_key(self.reports@[k].worker));
            }
        }
        match place {
            Some(place) => Some(self.reports[place]),
            None => None,
        }
    }
}

} // verus!
