//! Programs: the retained state of sessions.
use vstd::prelude::*;

use crate::worker::WorkerWithDpRank;

verus! {

/// What a program is doing: running a model turn, or tool work between turns.
#[derive(Clone, Copy, Debug, PartialEq, Eq, Structural)]
pub enum ProgramStatus {
    Reasoning,
    Acting,
}

/// Whether a program may run.
#[derive(Clone, Copy, Debug, PartialEq, Eq, Structural)]
pub enum ProgramLifecycle {
    Active,
    Paused,
}

/// One session's program.
///
/// Times are nanoseconds on the host's monotonic clock. `acting_tokens` is what the program is
/// charged while it is acting: the host weights the retained context when a turn completes.
#[derive(Clone, Copy, Debug, PartialEq, Eq, Structural)]
pub struct Program {
    pub status: ProgramStatus,
    pub lifecycle: ProgramLifecycle,
    pub assigned_worker: Option<WorkerWithDpRank>,
    pub token_total: usize,
    pub acting_tokens: usize,
    pub step_count: usize,
    pub marked_for_pause: bool,
    pub acting_since: Option<u64>,
    pub deferred_since: Option<u64>,
}

impl View for Program {
    type V = Program;

    open spec fn view(&self) -> Program {
        *self
    }
}

impl Program {
    /// The program of a session's first request.
    pub open spec fn first_turn(input_tokens: usize) -> Program {
        Program {
            status: ProgramStatus::Reasoning,
            lifecycle: ProgramLifecycle::Active,
            assigned_worker: None,
            token_total: input_tokens,
            acting_tokens: 0,
            step_count: 1,
            marked_for_pause: false,
            acting_since: None,
            deferred_since: None,
        }
    }

    /// The program when its session's next request begins. A request of unknown size keeps the
    /// retained size.
    pub open spec fn next_turn(self, input_tokens: usize) -> Program {
        Program {
            status: ProgramStatus::Reasoning,
            token_total: if input_tokens > 0 {
                input_tokens
            } else {
                self.token_total
            },
            step_count: self.step_count.saturating_add(1),
            acting_since: None,
            ..self
        }
    }

    /// The program when its turn has completed with the given context.
    pub open spec fn turn_done(self, token_total: usize, acting_tokens: usize, now: u64) -> Program {
        Program {
            status: ProgramStatus::Acting,
            token_total,
            acting_tokens,
            acting_since: Some(now),
            deferred_since: None,
            marked_for_pause: false,
            ..self
        }
    }

    /// The tokens that the program is charged.
    pub open spec fn charged_tokens(self) -> usize {
        if self.status == ProgramStatus::Acting {
            self.acting_tokens
        } else {
            self.token_total
        }
    }

    pub fn new(input_tokens: usize) -> (program: Self)
        ensures
            program == Program::first_turn(input_tokens),
    {
        Program {
            status: ProgramStatus::Reasoning,
            lifecycle: ProgramLifecycle::Active,
            assigned_worker: None,
            token_total: input_tokens,
            acting_tokens: 0,
            step_count: 1,
            marked_for_pause: false,
            acting_since: None,
            deferred_since: None,
        }
    }

    /// The tokens that the program holds on its worker.
    pub fn tokens(&self) -> (tokens: usize)
        ensures
            tokens == self.charged_tokens(),
    {
        if self.status == ProgramStatus::Acting {
            self.acting_tokens
        } else {
            self.token_total
        }
    }
}

} // verus!
