//! Pausing programs on overloaded workers, and dropping assignments to removed ones.
use std::collections::VecDeque;
use vstd::prelude::*;

use crate::ranking::{ranks, Rank, Ranked};
use crate::thunderagent::capacity::{Capacities, CapacityCard, WorkerCapacitySnapshot};
use crate::thunderagent::ledger::{used_on, Ledger, ProgramLedger};
use crate::thunderagent::order::{Keys, ProgramOrder};
use crate::thunderagent::program::{Program, ProgramLifecycle, ProgramStatus};
use crate::worker::WorkerWithDpRank;

verus! {

/// Programs of one status that run on a worker and are not marked yet, the smallest first.
pub open spec fn on_worker(worker: WorkerWithDpRank, status: ProgramStatus) -> Keys {
    |name: Seq<char>, program: Program|
        if program.lifecycle == ProgramLifecycle::Active && program.status == status
            && program.assigned_worker == Some(worker) && !program.marked_for_pause {
            Some((program.token_total as u64, 0))
        } else {
            None
        }
}

/// Programs assigned to a worker that is not live.
pub open spec fn on_removed_worker(capacities: Capacities) -> Keys {
    |name: Seq<char>, program: Program|
        match program.assigned_worker {
            Some(worker) if !capacities.is_live(worker) => Some((0, 0)),
            _ => None,
        }
}

/// Programs of one status that run on a worker.
pub struct OnWorker {
    pub worker: WorkerWithDpRank,
    pub status: ProgramStatus,
}

impl ProgramOrder for OnWorker {
    open spec fn keys(&self) -> Keys {
        on_worker(self.worker, self.status)
    }

    open spec fn ready(&self) -> bool {
        true
    }

    fn key(&self, name: &str, program: &Program) -> (key: Option<(u64, u64)>) {
        if program.lifecycle == ProgramLifecycle::Active && program.status == self.status
            && program.assigned_worker == Some(self.worker) && !program.marked_for_pause {
            Some((program.token_total as u64, 0))
        } else {
            None
        }
    }
}

struct OnRemovedWorker<'a> {
    capacities: &'a WorkerCapacitySnapshot,
}

impl<'a> ProgramOrder for OnRemovedWorker<'a> {
    closed spec fn keys(&self) -> Keys {
        on_removed_worker(self.capacities@)
    }

    closed spec fn ready(&self) -> bool {
        self.capacities.wf()
    }

    fn key(&self, name: &str, program: &Program) -> (key: Option<(u64, u64)>) {
        match program.assigned_worker {
            Some(worker) => if self.capacities.is_live(&worker) {
                None
            } else {
                Some((0, 0))
            },
            None => None,
        }
    }
}

impl Ledger {
    /// Pause acting programs in the given order until the worker's usage reaches the goal. Also
    /// whether any was paused.
    pub open spec fn drained(
        self,
        worker: WorkerWithDpRank,
        goal: usize,
        order: Seq<Rank>,
    ) -> (Ledger, bool)
        decreases order.len(),
    {
        if order.len() == 0 || used_on(self.usage, worker) <= goal {
            (self, false)
        } else {
            let name = order[0].name;
            let after = self.with_paused(name).drained(worker, goal, order.drop_first());
            (after.0, self.can_pause(name) || after.1)
        }
    }

    /// Whether a session's program can still be marked to pause after its turn.
    pub open spec fn can_mark(self, session: Seq<char>) -> bool {
        self.programs.contains_key(session) && !self.programs[session].marked_for_pause
    }

    /// The ledger with a program marked to pause after its turn.
    pub open spec fn with_mark(self, session: Seq<char>) -> Ledger {
        if self.can_mark(session) {
            self.with(session, Program { marked_for_pause: true, ..self.programs[session] })
        } else {
            self
        }
    }

    /// Mark programs. Also whether any was not marked before.
    pub open spec fn marked(self, order: Seq<Rank>) -> (Ledger, bool)
        decreases order.len(),
    {
        if order.len() == 0 {
            (self, false)
        } else {
            let name = order[0].name;
            let after = self.with_mark(name).marked(order.drop_first());
            (after.0, self.can_mark(name) || after.1)
        }
    }

    /// Relieve one worker. Above its pause limit, acting programs are paused, the smallest first,
    /// until its usage reaches the pause goal; where that is not enough, reasoning programs are
    /// marked to pause after their turn.
    pub open spec fn relieved(self, card: CapacityCard) -> (Ledger, bool) {
        if used_on(self.usage, card.worker) <= card.pause_limit {
            (self, false)
        } else {
            let acting = self.order_by(on_worker(card.worker, ProgramStatus::Acting));
            let reasoning = self.order_by(on_worker(card.worker, ProgramStatus::Reasoning));
            let (drained, paused) = self.drained(card.worker, card.pause_goal, acting);
            if used_on(drained.usage, card.worker) <= card.pause_goal {
                (drained, paused)
            } else {
                let (marked, marks) = drained.marked(reasoning);
                (marked, paused || marks)
            }
        }
    }

    /// Relieve workers one after the other.
    pub open spec fn all_relieved(self, cards: Seq<CapacityCard>) -> (Ledger, bool)
        decreases cards.len(),
    {
        if cards.len() == 0 {
            (self, false)
        } else {
            let (here, changed) = self.relieved(cards[0]);
            let after = here.all_relieved(cards.drop_first());
            (after.0, changed || after.1)
        }
    }

    /// Take programs off their workers.
    pub open spec fn unassigned(self, order: Seq<Rank>) -> Ledger
        decreases order.len(),
    {
        if order.len() == 0 {
            self
        } else {
            self.assigned(order[0].name, None).unassigned(order.drop_first())
        }
    }

    /// Take programs out.
    pub open spec fn without_all(self, order: Seq<Rank>) -> Ledger
        decreases order.len(),
    {
        if order.len() == 0 {
            self
        } else {
            self.without(order[0].name).without_all(order.drop_first())
        }
    }
}

impl ProgramLedger {
    /// The programs of one status that run on a worker, the smallest first.
    fn programs_for_worker(&self, worker: WorkerWithDpRank, status: ProgramStatus) -> (sorted:
        VecDeque<Ranked>)
        requires
            self.wf(),
        ensures
            ranks(sorted@) == self@.order_by(on_worker(worker, status)),
    {
        self.ordered(&OnWorker { worker, status })
    }

    fn drain(&mut self, worker: WorkerWithDpRank, goal: usize, order: &VecDeque<Ranked>) -> (changed:
        bool)
        requires
            old(self).wf(),
        ensures
            final(self).wf(),
            (final(self)@, changed) == old(self)@.drained(worker, goal, ranks(order@)),
    {
        let ghost all = ranks(order@);
        let ghost start = self@;
        let mut changed: bool = false;
        let mut at: usize = 0;
        assert(all.skip(0) =~= all);
        while at < order.len() && self.used(&worker) > goal
            invariant
                self.wf(),
                at <= order@.len(),
                all == ranks(order@),
                ({
                    let rest = self@.drained(worker, goal, all.skip(at as int));
                    start.drained(worker, goal, all) == (rest.0, changed || rest.1)
                }),
            decreases order@.len() - at,
        {
            assert(all.skip(at as int).drop_first() =~= all.skip(at + 1));
            assert(all.skip(at as int)[0] == order@[at as int]@);
            if self.pause_acting(order[at].name.as_str()) {
                changed = true;
            }
            at = at + 1;
        }
        changed
    }

    fn mark(&mut self, order: &VecDeque<Ranked>) -> (changed: bool)
        requires
            old(self).wf(),
        ensures
            final(self).wf(),
            (final(self)@, changed) == old(self)@.marked(ranks(order@)),
    {
        let ghost all = ranks(order@);
        let ghost start = self@;
        let mut changed: bool = false;
        let count: usize = order.len();
        assert(all.skip(0) =~= all);
        for at in 0..count
            invariant
                self.wf(),
                count == order@.len(),
                all == ranks(order@),
                ({
                    let rest = self@.marked(all.skip(at as int));
                    start.marked(all) == (rest.0, changed || rest.1)
                }),
        {
            assert(all.skip(at as int).drop_first() =~= all.skip(at + 1));
            assert(all.skip(at as int)[0] == order@[at as int]@);
            let name: &str = order[at].name.as_str();
            if let Some(program) = self.get(name) {
                if !program.marked_for_pause {
                    self.update_program(name, Program { marked_for_pause: true, ..program });
                    changed = true;
                }
            }
        }
        changed
    }

    /// Relieve one worker.
    fn relieve(&mut self, card: CapacityCard) -> (changed: bool)
        requires
            old(self).wf(),
        ensures
            final(self).wf(),
            (final(self)@, changed) == old(self)@.relieved(card),
    {
        if self.used(&card.worker) <= card.pause_limit {
            return false;
        }
        let acting = self.programs_for_worker(card.worker, ProgramStatus::Acting);
        let reasoning = self.programs_for_worker(card.worker, ProgramStatus::Reasoning);
        let paused: bool = self.drain(card.worker, card.pause_goal, &acting);
        if self.used(&card.worker) <= card.pause_goal {
            return paused;
        }
        let marks: bool = self.mark(&reasoning);
        paused || marks
    }

    /// Relieve every worker that is above its pause limit.
    pub fn pause_until_safe(&mut self, capacities: &WorkerCapacitySnapshot) -> (changed: bool)
        requires
            old(self).wf(),
        ensures
            final(self).wf(),
            (final(self)@, changed) == old(self)@.all_relieved(capacities@.cards),
    {
        let ghost all = capacities@.cards;
        let ghost start = self@;
        let mut changed: bool = false;
        let count: usize = capacities.len();
        assert(all.skip(0) =~= all);
        for at in 0..count
            invariant
                self.wf(),
                all == capacities@.cards,
                count == all.len(),
                ({
                    let rest = self@.all_relieved(all.skip(at as int));
                    start.all_relieved(all) == (rest.0, changed || rest.1)
                }),
        {
            assert(all.skip(at as int).drop_first() =~= all.skip(at + 1));
            let hit: bool = self.relieve(capacities.card(at));
            changed = changed || hit;
        }
        changed
    }

    /// Take every program off a worker that is not live. Also whether there was one.
    pub fn clear_removed(&mut self, capacities: &WorkerCapacitySnapshot) -> (changed: bool)
        requires
            old(self).wf(),
            capacities.wf(),
        ensures
            final(self).wf(),
            final(self)@ == old(self)@.unassigned(
                old(self)@.order_by(on_removed_worker(capacities@)),
            ),
            changed == (old(self)@.order_by(on_removed_worker(capacities@)).len() > 0),
    {
        let order = self.ordered(&OnRemovedWorker { capacities });
        let ghost all = ranks(order@);
        let ghost start = self@;
        let count: usize = order.len();
        assert(all.skip(0) =~= all);
        for at in 0..count
            invariant
                self.wf(),
                all == ranks(order@),
                count == order@.len(),
                self@.unassigned(all.skip(at as int)) == start.unassigned(all),
        {
            assert(all.skip(at as int).drop_first() =~= all.skip(at + 1));
            assert(all.skip(at as int)[0] == order@[at as int]@);
            self.set_assignment(order[at].name.as_str(), None);
        }
        count > 0
    }

    /// Take programs out.
    pub fn remove_programs(&mut self, order: &VecDeque<Ranked>)
        requires
            old(self).wf(),
        ensures
            final(self).wf(),
            final(self)@ == old(self)@.without_all(ranks(order@)),
    {
        let ghost all = ranks(order@);
        let ghost start = self@;
        let count: usize = order.len();
        assert(all.skip(0) =~= all);
        for at in 0..count
            invariant
                self.wf(),
                all == ranks(order@),
                count == order@.len(),
                self@.without_all(all.skip(at as int)) == start.without_all(all),
        {
            assert(all.skip(at as int).drop_first() =~= all.skip(at + 1));
            assert(all.skip(at as int)[0] == order@[at as int]@);
            self.remove_program(order[at].name.as_str());
        }
    }
}

} // verus!
