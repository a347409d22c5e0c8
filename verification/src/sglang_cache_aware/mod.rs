//! Load-gated cache affinity: a balanced pool prefers the largest cached prefix, an unbalanced one
//! the least loaded worker.
pub mod config;
pub mod laws;
pub mod picker;
