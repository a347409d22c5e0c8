//! The program table with the accounting that is kept in step with it.
use vstd::hash_set::StringHashSet;
use vstd::prelude::*;

use crate::table::Table;
use crate::thunderagent::program::{Program, ProgramLifecycle, ProgramStatus};
use crate::worker::{WorkerMap, WorkerWithDpRank};

verus! {

/// The workers that sessions are assigned to.
pub struct SessionAssignments {
    workers: Table<WorkerWithDpRank>,
}

impl View for WorkerWithDpRank {
    type V = WorkerWithDpRank;

    open spec fn view(&self) -> WorkerWithDpRank {
        *self
    }
}

impl View for SessionAssignments {
    type V = Map<Seq<char>, WorkerWithDpRank>;

    closed spec fn view(&self) -> Map<Seq<char>, WorkerWithDpRank> {
        self.workers@
    }
}

impl SessionAssignments {
    pub closed spec fn wf(&self) -> bool {
        self.workers.wf()
    }

    pub fn new() -> (assignments: Self)
        ensures
            assignments.wf(),
            assignments@ == Map::<Seq<char>, WorkerWithDpRank>::empty(),
    {
        SessionAssignments { workers: Table::new() }
    }

    /// Assign a session to a worker, or to none.
    pub fn set(&mut self, session_id: &str, worker: Option<WorkerWithDpRank>)
        requires
            old(self).wf(),
        ensures
            final(self).wf(),
            final(self)@ == match worker {
                Some(worker) => old(self)@.insert(session_id@, worker),
                None => old(self)@.remove(session_id@),
            },
    {
        match worker {
            Some(worker) => self.workers.insert(session_id.to_owned(), worker),
            None => {
                self.workers.remove(session_id);
            },
        }
    }

    pub fn get(&self, session_id: &str) -> (worker: Option<WorkerWithDpRank>)
        requires
            self.wf(),
        ensures
            worker == (if self@.contains_key(session_id@) {
                Some(self@[session_id@])
            } else {
                None
            }),
    {
        match self.workers.get(session_id) {
            Some(worker) => Some(*worker),
            None => None,
        }
    }
}

/// What a program holds: a worker and the tokens charged to it.
pub type Charge = Option<(WorkerWithDpRank, usize)>;

/// The program table and the tokens charged to each worker.
#[verifier::ext_equal]
pub struct Ledger {
    pub buffer: usize,
    pub programs: Map<Seq<char>, Program>,
    pub usage: Map<WorkerWithDpRank, usize>,
}

/// Usage after a charge is given back. A worker without usage leaves the map.
pub open spec fn usage_less(
    usage: Map<WorkerWithDpRank, usize>,
    charge: Charge,
) -> Map<WorkerWithDpRank, usize> {
    match charge {
        Some((worker, tokens)) => if !usage.contains_key(worker) {
            usage
        } else if usage[worker] <= tokens {
            usage.remove(worker)
        } else {
            usage.insert(worker, (usage[worker] - tokens) as usize)
        },
        None => usage,
    }
}

/// Usage after a charge is taken.
pub open spec fn usage_more(
    usage: Map<WorkerWithDpRank, usize>,
    charge: Charge,
) -> Map<WorkerWithDpRank, usize> {
    match charge {
        Some((worker, tokens)) => usage.insert(
            worker,
            used_on(usage, worker).saturating_add(tokens),
        ),
        None => usage,
    }
}

/// The usage of a worker; none is zero.
pub open spec fn used_on(usage: Map<WorkerWithDpRank, usize>, worker: WorkerWithDpRank) -> usize {
    if usage.contains_key(worker) {
        usage[worker]
    } else {
        0
    }
}

impl Ledger {
    /// An active program holds its charged tokens and its headroom on its worker; a paused or
    /// unassigned program holds nothing.
    pub open spec fn charge(self, program: Program) -> Charge {
        if program.lifecycle != ProgramLifecycle::Active {
            None
        } else {
            match program.assigned_worker {
                Some(worker) => Some(
                    (worker, program.charged_tokens().saturating_add(self.buffer)),
                ),
                None => None,
            }
        }
    }

    /// The ledger without a session's program.
    pub open spec fn without(self, session: Seq<char>) -> Ledger {
        if self.programs.contains_key(session) {
            Ledger {
                buffer: self.buffer,
                programs: self.programs.remove(session),
                usage: usage_less(self.usage, self.charge(self.programs[session])),
            }
        } else {
            self
        }
    }

    /// The ledger with a session's program set, whatever it was before.
    pub open spec fn with(self, session: Seq<char>, program: Program) -> Ledger {
        let cleared = self.without(session);
        Ledger {
            buffer: self.buffer,
            programs: cleared.programs.insert(session, program),
            usage: usage_more(cleared.usage, self.charge(program)),
        }
    }

    /// The sessions whose program is paused.
    pub open spec fn paused(self) -> Set<Seq<char>> {
        Set::new(
            |session: Seq<char>|
                self.programs.contains_key(session) && self.programs[session].lifecycle
                    == ProgramLifecycle::Paused,
        )
    }

    /// The workers that programs are assigned to, by session.
    pub open spec fn assignments(self) -> Map<Seq<char>, WorkerWithDpRank> {
        Map::new(
            |session: Seq<char>|
                self.programs.contains_key(session)
                    && self.programs[session].assigned_worker is Some,
            |session: Seq<char>| self.programs[session].assigned_worker->0,
        )
    }

    /// The ledger with a session's program assigned to a worker, or to none; nothing happens
    /// without a program.
    pub open spec fn assigned(self, session: Seq<char>, worker: Option<WorkerWithDpRank>) -> Ledger {
        if self.programs.contains_key(session) {
            self.with(session, Program { assigned_worker: worker, ..self.programs[session] })
        } else {
            self
        }
    }

    /// Whether a session's program can be paused at once.
    pub open spec fn can_pause(self, session: Seq<char>) -> bool {
        self.programs.contains_key(session) && self.programs[session].lifecycle
            == ProgramLifecycle::Active && self.programs[session].status == ProgramStatus::Acting
    }

    /// The ledger with an acting program paused. Pausing clears the assignment.
    pub open spec fn with_paused(self, session: Seq<char>) -> Ledger {
        if self.can_pause(session) {
            self.with(
                session,
                Program {
                    lifecycle: ProgramLifecycle::Paused,
                    assigned_worker: None,
                    ..self.programs[session]
                },
            )
        } else {
            self
        }
    }
}

/// The program table, with the set of paused sessions, the assignments and the usage per worker
/// that follow from it.
pub struct ProgramLedger {
    buffer: usize,
    programs: Table<Program>,
    paused_programs: StringHashSet,
    normal_usage: WorkerMap<usize>,
    assignments: SessionAssignments,
}

impl View for ProgramLedger {
    type V = Ledger;

    closed spec fn view(&self) -> Ledger {
        Ledger { buffer: self.buffer, programs: self.programs@, usage: self.normal_usage@ }
    }
}

impl ProgramLedger {
    pub closed spec fn wf(&self) -> bool {
        &&& self.programs.wf()
        &&& self.assignments.wf()
        &&& self.paused_programs@ == self@.paused()
        &&& self.assignments@ == self@.assignments()
    }

    pub fn new(buffer: usize) -> (ledger: Self)
        ensures
            ledger.wf(),
            ledger@ == (Ledger { buffer, programs: Map::empty(), usage: Map::empty() }),
    {
        let ledger = ProgramLedger {
            buffer,
            programs: Table::new(),
            paused_programs: StringHashSet::new(),
            normal_usage: WorkerMap::new(),
            assignments: SessionAssignments::new(),
        };
        assert(ledger.paused_programs@ =~= ledger@.paused());
        assert(ledger.assignments@ =~= ledger@.assignments());
        ledger
    }

    fn program_charge(&self, program: &Program) -> (charge: Charge)
        ensures
            charge == self@.charge(*program),
    {
        if program.lifecycle != ProgramLifecycle::Active {
            return None;
        }
        match program.assigned_worker {
            Some(worker) => Some((worker, program.tokens().saturating_add(self.buffer))),
            None => None,
        }
    }

    fn subtract_charge(&mut self, charge: Charge)
        ensures
            final(self).normal_usage@ == usage_less(old(self).normal_usage@, charge),
            final(self).buffer == old(self).buffer,
            final(self).programs == old(self).programs,
            final(self).paused_programs == old(self).paused_programs,
            final(self).assignments == old(self).assignments,
    {
        if let Some((worker, tokens)) = charge {
            if let Some(used) = self.normal_usage.get(&worker) {
                if used <= tokens {
                    self.normal_usage.remove(&worker);
                } else {
                    self.normal_usage.insert(worker, used - tokens);
                }
            }
        }
    }

    fn add_charge(&mut self, charge: Charge)
        ensures
            final(self).normal_usage@ == usage_more(old(self).normal_usage@, charge),
            final(self).buffer == old(self).buffer,
            final(self).programs == old(self).programs,
            final(self).paused_programs == old(self).paused_programs,
            final(self).assignments == old(self).assignments,
    {
        if let Some((worker, tokens)) = charge {
            let used: usize = match self.normal_usage.get(&worker) {
                Some(used) => used,
                None => 0,
            };
            self.normal_usage.insert(worker, used.saturating_add(tokens));
        }
    }

    /// Take a session's program out of the table.
    pub fn remove_program(&mut self, session_id: &str) -> (program: Option<Program>)
        requires
            old(self).wf(),
        ensures
            final(self).wf(),
            final(self)@ == old(self)@.without(session_id@),
            program == (if old(self)@.programs.contains_key(session_id@) {
                Some(old(self)@.programs[session_id@])
            } else {
                None
            }),
    {
        let program = match self.programs.remove(session_id) {
            Some(program) => program,
            None => {
                assert(self@.programs =~= old(self)@.programs);
                return None;
            },
        };
        let charge = self.program_charge(&program);
        self.subtract_charge(charge);
        self.paused_programs.remove(session_id);
        self.assignments.set(session_id, None);
        proof {
            assert(self@ =~= old(self)@.without(session_id@));
            assert(self.paused_programs@ =~= self@.paused());
            assert(self.assignments@ =~= self@.assignments());
        }
        Some(program)
    }

    /// Set a session's program, which may be new.
    pub fn update_program(&mut self, session_id: &str, program: Program)
        requires
            old(self).wf(),
        ensures
            final(self).wf(),
            final(self)@ == old(self)@.with(session_id@, program),
    {
        let before: Charge = match self.programs.get(session_id) {
            Some(current) => self.program_charge(current),
            None => None,
        };
        self.subtract_charge(before);
        let after = self.program_charge(&program);
        self.programs.insert(session_id.to_owned(), program);
        self.add_charge(after);
        if program.lifecycle == ProgramLifecycle::Paused {
            self.paused_programs.insert(session_id.to_owned());
        } else {
            self.paused_programs.remove(session_id);
        }
        self.assignments.set(session_id, program.assigned_worker);
        proof {
            assert(self@ =~= old(self)@.with(session_id@, program));
            assert(self.paused_programs@ =~= self@.paused());
            assert(self.assignments@ =~= self@.assignments());
        }
    }

    /// Put a session's earlier program back in place of the current one.
    pub fn replace_program(&mut self, session_id: &str, program: Program)
        requires
            old(self).wf(),
        ensures
            final(self).wf(),
            final(self)@ == old(self)@.with(session_id@, program),
    {
        self.remove_program(session_id);
        self.update_program(session_id, program);
        assert(self@ =~= old(self)@.with(session_id@, program));
    }

    pub fn set_assignment(&mut self, session_id: &str, worker: Option<WorkerWithDpRank>)
        requires
            old(self).wf(),
        ensures
            final(self).wf(),
            final(self)@ == old(self)@.assigned(session_id@, worker),
    {
        if let Some(program) = self.get(session_id) {
            self.update_program(session_id, Program { assigned_worker: worker, ..program });
        }
    }

    /// Pause a session's program if it is active and acting.
    pub fn pause_acting(&mut self, session_id: &str) -> (paused: bool)
        requires
            old(self).wf(),
        ensures
            final(self).wf(),
            final(self)@ == old(self)@.with_paused(session_id@),
            paused == old(self)@.can_pause(session_id@),
    {
        let program = match self.get(session_id) {
            Some(program) => program,
            None => {
                return false;
            },
        };
        if program.lifecycle != ProgramLifecycle::Active || program.status
            != ProgramStatus::Acting {
            return false;
        }
        self.update_program(
            session_id,
            Program { lifecycle: ProgramLifecycle::Paused, assigned_worker: None, ..program },
        );
        true
    }

    pub fn get(&self, session_id: &str) -> (program: Option<Program>)
        requires
            self.wf(),
        ensures
            program == (if self@.programs.contains_key(session_id@) {
                Some(self@.programs[session_id@])
            } else {
                None
            }),
    {
        match self.programs.get(session_id) {
            Some(program) => Some(*program),
            None => None,
        }
    }

    pub fn contains(&self, session_id: &str) -> (present: bool)
        ensures
            present == self@.programs.contains_key(session_id@),
    {
        self.programs.contains_key(session_id)
    }

    pub fn len(&self) -> (count: usize)
        requires
            self.wf(),
        ensures
            count == self@.programs.len(),
            count == self.walk().len(),
    {
        self.programs.len()
    }

    pub fn has_paused(&self) -> (some: bool)
        requires
            self.wf(),
        ensures
            some == !self@.paused().is_empty(),
    {
        !self.paused_programs.is_empty()
    }

    /// The headroom per program.
    pub fn headroom(&self) -> (buffer: usize)
        ensures
            buffer == self@.buffer,
    {
        self.buffer
    }

    /// The tokens charged to a worker.
    pub fn used(&self, worker: &WorkerWithDpRank) -> (used: usize)
        ensures
            used == used_on(self@.usage, *worker),
    {
        match self.normal_usage.get(worker) {
            Some(used) => used,
            None => 0,
        }
    }

    /// The worker that a session's program is assigned to.
    pub fn assignment(&self, session_id: &str) -> (worker: Option<WorkerWithDpRank>)
        requires
            self.wf(),
        ensures
            worker == (if self@.assignments().contains_key(session_id@) {
                Some(self@.assignments()[session_id@])
            } else {
                None
            }),
    {
        self.assignments.get(session_id)
    }

    /// The sessions in walking order.
    pub closed spec fn walk(&self) -> Seq<Seq<char>> {
        self.programs.walk()
    }

    /// The walk meets every session with a program once.
    pub proof fn lemma_walk(&self)
        requires
            self.wf(),
        ensures
            self.walk().no_duplicates(),
            self.walk().to_set() == self@.programs.dom(),
    {
        self.programs.lemma_walk();
    }

    /// The session at a position of the walk, and its program.
    pub fn entry_at(&self, at: usize) -> (entry: (&String, Program))
        requires
            self.wf(),
            at < self.walk().len(),
        ensures
            entry.0@ == self.walk()[at as int],
            self@.programs.contains_key(entry.0@),
            entry.1 == self@.programs[entry.0@],
    {
        (self.programs.name_at(at), *self.programs.value_at(at))
    }
}

} // verus!
