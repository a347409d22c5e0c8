//! Program-aware flow control as a request classifier.
//!
//! The host owns the lock, the clock and the waiting; what is decided under the lock is here.
use std::collections::VecDeque;
use vstd::prelude::*;

use crate::ranking::{ranks, Ranked};
use crate::table::Table;
use crate::thunderagent::capacity::{Capacities, WorkerCapacitySnapshot};
use crate::thunderagent::config::{ConfigError, ThunderAgentConfig};
use crate::thunderagent::error::{Refusal, ThunderAgentError};
use crate::thunderagent::model::{Model, Outcome, WaitStatus};
use crate::thunderagent::placement::acting;
use crate::thunderagent::program::Program;
use crate::thunderagent::retention::{
    lemma_finished_is_watched, lemma_fresh_is_watched, lemma_reconciled_is_watched,
    lemma_registered_is_watched, lemma_sent_is_watched, lemma_woken_is_watched,
};
use crate::thunderagent::scheduler::{RequestEvent, State};
use crate::worker::WorkerWithDpRank;

verus! {

/// A request's session as the host knows it.
pub struct SessionContext {
    pub session_id: String,
    pub session_final: Option<bool>,
}

/// A request to classify.
pub struct ClassifyRequest {
    pub request_id: Option<String>,
    pub session: Option<SessionContext>,
    pub input_tokens: usize,
}

/// What becomes of a request.
pub enum Classification {
    /// It has no session and passes unchanged.
    Unchanged,
    /// It passes once it is released.
    Pending(PendingClassification),
}

/// A classification that waits for its request's release. One that is dropped while it is armed
/// takes its request along.
pub struct PendingClassification {
    pub request_id: String,
    pub armed: bool,
}

impl PendingClassification {
    pub fn new(request_id: String) -> (pending: Self)
        ensures
            pending.request_id == request_id,
            pending.armed,
    {
        PendingClassification { request_id, armed: true }
    }

    /// Leave the request alone from now on.
    pub fn disarm(&mut self)
        ensures
            final(self).request_id == old(self).request_id,
            !final(self).armed,
    {
        self.armed = false;
    }
}

proof fn lemma_event_is_watched(model: Model, event: RequestEvent, capacities: Capacities, now: u64)
    requires
        model.sound(),
        model.watched(),
    ensures
        model.after_event(event, capacities, now).0.watched(),
{
    match event {
        RequestEvent::Sent { request_id, worker } => lemma_sent_is_watched(
            model,
            request_id@,
            worker,
            now,
        ),
        RequestEvent::Completed { request_id, context_tokens, acting_tokens } =>
            lemma_finished_is_watched(
            model,
            request_id@,
            Outcome::Completed { context_tokens, acting_tokens },
            capacities,
            now,
        ),
        RequestEvent::Aborted { request_id } => lemma_finished_is_watched(
            model,
            request_id@,
            Outcome::Aborted,
            capacities,
            now,
        ),
        RequestEvent::Other => {},
    }
}

/// Program-aware flow control on a request-classifier seam.
pub struct ThunderAgentClassifier {
    state: State,
    scheduler_started: bool,
}

impl View for ThunderAgentClassifier {
    type V = Model;

    closed spec fn view(&self) -> Model {
        self.state@
    }
}

impl ThunderAgentClassifier {
    pub closed spec fn wf(&self) -> bool {
        self.state.wf() && self.state@.sound() && self.state@.watched()
    }

    /// Whether the periodic step has a task of its own.
    pub closed spec fn started(&self) -> bool {
        self.scheduler_started
    }

    /// The state of a classifier is consistent, and every idle program leaves it in time.
    pub proof fn lemma_sound(&self)
        requires
            self.wf(),
        ensures
            self@.sound(),
            self@.watched(),
    {
    }

    pub fn new(config: ThunderAgentConfig, now: u64) -> (made: Result<Self, ConfigError>)
        ensures
            match made {
                Ok(classifier) => config.weights_ok() && config.half_life_ok() && classifier.wf()
                    && classifier@ == Model::fresh(config, now) && !classifier.started(),
                Err(error) => error == (if !config.weights_ok() {
                    ConfigError::Fraction
                } else {
                    ConfigError::DecayHalfLife
                }) && !(config.weights_ok() && config.half_life_ok()),
            },
    {
        proof {
            lemma_fresh_is_watched(config, now);
        }
        match config.validate() {
            Ok(()) => Ok(
                ThunderAgentClassifier { state: State::new(config, now), scheduler_started: false },
            ),
            Err(error) => Err(error),
        }
    }

    /// Take up a new request, and admit it if its turn has come.
    pub fn register(
        &mut self,
        request_id: &str,
        session_id: &str,
        input_tokens: usize,
        session_final: bool,
        capacities: &WorkerCapacitySnapshot,
        now: u64,
    ) -> (taken: Result<(), ThunderAgentError>)
        requires
            old(self).wf(),
            capacities.wf(),
        ensures
            final(self).wf(),
            final(self).started() == old(self).started(),
            match taken {
                Ok(()) => old(self)@.refusal(request_id@, session_id@, now) is None && final(self)@
                    == old(self)@.registered(
                    request_id@,
                    session_id@,
                    input_tokens,
                    session_final,
                    capacities@,
                    now,
                ),
                Err(error) => old(self)@.refusal(request_id@, session_id@, now) == Some(error@)
                    && final(self)@ == (if error is ProgramLimitExceeded {
                    old(self)@.programs_expired(now).0
                } else {
                    old(self)@
                }),
            },
    {
        proof {
            lemma_registered_is_watched(
                self.state@,
                request_id@,
                session_id@,
                input_tokens,
                session_final,
                capacities@,
                now,
            );
        }
        self.state.register(request_id, session_id, input_tokens, session_final, capacities, now)
    }

    /// Classify a request: one without a session passes, one with a session is taken up.
    pub fn classify(
        &mut self,
        request: &ClassifyRequest,
        capacities: &WorkerCapacitySnapshot,
        now: u64,
    ) -> (classified: Result<Classification, ThunderAgentError>)
        requires
            old(self).wf(),
            capacities.wf(),
        ensures
            final(self).wf(),
            final(self).started() == old(self).started(),
            match request.session {
                None => classified matches Ok(Classification::Unchanged) && final(self)@
                    == old(self)@,
                Some(session) => match request.request_id {
                    None => classified matches Err(error) && error@ == Refusal::MissingRequestId
                        && final(self)@ == old(self)@,
                    Some(request_id) => match old(self)@.refusal(
                        request_id@,
                        session.session_id@,
                        now,
                    ) {
                        Some(refusal) => classified matches Err(error) && error@ == refusal
                            && final(self)@ == (if refusal is ProgramLimitExceeded {
                            old(self)@.programs_expired(now).0
                        } else {
                            old(self)@
                        }),
                        None => classified matches Ok(Classification::Pending(pending))
                            && pending.request_id@ == request_id@ && pending.armed && final(self)@
                            == old(self)@.registered(
                            request_id@,
                            session.session_id@,
                            request.input_tokens,
                            session.session_final == Some(true),
                            capacities@,
                            now,
                        ),
                    },
                },
            },
    {
        let session = match &request.session {
            Some(session) => session,
            None => {
                return Ok(Classification::Unchanged);
            },
        };
        let request_id = match &request.request_id {
            Some(request_id) => request_id,
            None => {
                return Err(ThunderAgentError::MissingRequestId);
            },
        };
        let session_final: bool = match session.session_final {
            Some(session_final) => session_final,
            None => false,
        };
        match self.register(
            request_id.as_str(),
            session.session_id.as_str(),
            request.input_tokens,
            session_final,
            capacities,
            now,
        ) {
            Ok(()) => Ok(
                Classification::Pending(PendingClassification::new(request_id.clone())),
            ),
            Err(error) => Err(error),
        }
    }

    /// Look whether a pending request is released: with its worker target once it is, an error
    /// once it has ended, and nothing while it waits.
    pub fn poll_release(&self, pending: &mut PendingClassification) -> (outcome: Option<
        Result<Option<WorkerWithDpRank>, ThunderAgentError>,
    >)
        requires
            self.wf(),
        ensures
            final(pending).request_id == old(pending).request_id,
            final(pending).armed == (old(pending).armed && self@.wait_status(
                old(pending).request_id@,
            ) == WaitStatus::Waiting),
            match self@.wait_status(old(pending).request_id@) {
                WaitStatus::Released => outcome == Some(
                    Ok::<_, ThunderAgentError>(
                        self@.requests[old(pending).request_id@].target,
                    ),
                ),
                WaitStatus::Missing => outcome matches Some(Err(error)) && error@
                    == Refusal::RequestEnded(old(pending).request_id@),
                WaitStatus::Waiting => outcome is None,
            },
    {
        match self.state.wait_status(pending.request_id.as_str()) {
            WaitStatus::Released => {
                let target = self.state.request_target(pending.request_id.as_str());
                pending.disarm();
                Some(Ok(target))
            },
            WaitStatus::Missing => {
                let request_id: String = pending.request_id.clone();
                pending.disarm();
                Some(Err(ThunderAgentError::RequestEnded(request_id)))
            },
            WaitStatus::Waiting => None,
        }
    }

    /// Drop a pending classification: an armed one takes its request along.
    pub fn abandon(
        &mut self,
        pending: &PendingClassification,
        capacities: &WorkerCapacitySnapshot,
        now: u64,
    )
        requires
            old(self).wf(),
            capacities.wf(),
        ensures
            final(self).wf(),
            final(self).started() == old(self).started(),
            final(self)@ == (if pending.armed {
                old(self)@.finished(pending.request_id@, Outcome::Aborted, capacities@, now).0
            } else {
                old(self)@
            }),
    {
        proof {
            lemma_finished_is_watched(
                self.state@,
                pending.request_id@,
                Outcome::Aborted,
                capacities@,
                now,
            );
        }
        if pending.armed {
            self.state.cancel_request(pending.request_id.as_str(), capacities, now);
        }
    }

    /// Start the periodic step once: the first call gets its cadence in nanoseconds.
    pub fn start_scheduler(&mut self) -> (interval: Option<u64>)
        requires
            old(self).wf(),
        ensures
            final(self).wf(),
            final(self)@ == old(self)@,
            final(self).started(),
            interval == (if old(self).started() {
                None
            } else {
                Some(old(self)@.config.scheduler_interval)
            }),
    {
        if self.scheduler_started {
            return None;
        }
        self.scheduler_started = true;
        Some(self.state.scheduler_interval())
    }

    /// Whether the periodic step has anything to do.
    pub fn needs_reconcile(&self) -> (needed: bool)
        requires
            self.wf(),
        ensures
            needed == (self@.ledger.programs.len() > 0),
    {
        self.state.needs_reconcile()
    }

    /// The periodic step; without programs it does nothing.
    pub fn reconcile(
        &mut self,
        capacities: &WorkerCapacitySnapshot,
        decays: &Table<usize>,
        now: u64,
    )
        requires
            old(self).wf(),
            capacities.wf(),
            decays.wf(),
        ensures
            final(self).wf(),
            final(self).started() == old(self).started(),
            final(self)@ == (if old(self)@.ledger.programs.len() > 0 {
                old(self)@.reconciled(capacities@, decays@, now).0
            } else {
                old(self)@
            }),
    {
        proof {
            lemma_reconciled_is_watched(self.state@, capacities@, decays@, now);
        }
        if self.state.needs_reconcile() {
            self.state.reconcile(capacities, decays, now);
        }
    }

    /// Take note of what became of a request.
    pub fn on_event(&mut self, event: RequestEvent, capacities: &WorkerCapacitySnapshot, now: u64)
        requires
            old(self).wf(),
            capacities.wf(),
        ensures
            final(self).wf(),
            final(self).started() == old(self).started(),
            final(self)@ == old(self)@.after_event(event, capacities@, now).0,
    {
        proof {
            lemma_event_is_watched(self.state@, event, capacities@, now);
        }
        self.state.on_event(event, capacities, now);
    }

    /// What a waiter finds when it looks for its request.
    pub fn wait_status(&self, request_id: &str) -> (status: WaitStatus)
        requires
            self.wf(),
        ensures
            status == self@.wait_status(request_id@),
    {
        self.state.wait_status(request_id)
    }

    /// A session's program.
    pub fn program(&self, session_id: &str) -> (program: Option<Program>)
        requires
            self.wf(),
        ensures
            program == (if self@.ledger.programs.contains_key(session_id@) {
                Some(self@.ledger.programs[session_id@])
            } else {
                None
            }),
    {
        self.state.program(session_id)
    }

    /// The worker that a session is assigned to.
    pub fn assignment(&self, session_id: &str) -> (worker: Option<WorkerWithDpRank>)
        requires
            self.wf(),
        ensures
            worker == (if self@.ledger.assignments().contains_key(session_id@) {
                Some(self@.ledger.assignments()[session_id@])
            } else {
                None
            }),
    {
        self.state.assignment(session_id)
    }

    pub fn program_count(&self) -> (count: usize)
        requires
            self.wf(),
        ensures
            count == self@.ledger.programs.len(),
    {
        self.state.program_count()
    }

    pub fn request_count(&self) -> (count: usize)
        requires
            self.wf(),
        ensures
            count == self@.requests.len(),
    {
        self.state.request_count()
    }

    /// The length of the arrival order.
    pub fn arrival_count(&self) -> (count: usize)
        ensures
            count == self@.arrivals.len(),
    {
        self.state.arrival_count()
    }

    /// The tokens that a request's program will have if it completes with the given context: what
    /// the host weights for tool work.
    pub fn completion_tokens(&self, request_id: &str, context_tokens: Option<usize>) -> (total:
        Option<usize>)
        requires
            self.wf(),
        ensures
            total == (if !self@.requests.contains_key(request_id@) {
                None
            } else if context_tokens is Some {
                context_tokens
            } else {
                Some(self@.requests[request_id@].input_tokens)
            }),
    {
        self.state.completion_tokens(request_id, context_tokens)
    }

    /// The programs between turns: name, tokens (`major`) and since when (`minor`). What the host
    /// computes decayed usage from.
    pub fn acting_programs(&self) -> (found: VecDeque<Ranked>)
        requires
            self.wf(),
        ensures
            ranks(found@) == self@.ledger.order_by(acting()),
    {
        self.state.acting_programs()
    }

    /// The next request whose waiter is to look again.
    pub fn next_wakeup(&mut self) -> (id: Option<String>)
        requires
            old(self).wf(),
        ensures
            final(self).wf(),
            final(self).started() == old(self).started(),
            match id {
                Some(id) => old(self)@.wakeups.len() > 0 && id@ == old(self)@.wakeups[0]
                    && final(self)@ == (Model {
                    wakeups: old(self)@.wakeups.drop_first(),
                    ..old(self)@
                }),
                None => old(self)@.wakeups.len() == 0 && final(self)@ == old(self)@,
            },
    {
        let ghost start = self.state@;
        let id = self.state.next_wakeup();
        proof {
            lemma_woken_is_watched(start, self.state@);
        }
        id
    }
}

} // verus!
