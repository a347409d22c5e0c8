//! Session affinity: a session stays on the worker that served its previous turn while that worker
//! is not much more loaded than the others.
pub mod config;
pub mod laws;
pub mod picker;
pub mod placements;
pub mod recency;
