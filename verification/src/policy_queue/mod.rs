//! Session-aware admission on a policy queue: programs keep their order of arrival, and requests
//! are ready, deferred or let through.
pub mod choices;
pub mod effects;
pub mod indexed;
pub mod laws;
pub mod model;
pub mod policy;
pub mod precedence;
pub mod programs;
pub mod soundness;
pub mod stages;
pub mod workers;
