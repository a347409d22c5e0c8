//! Token-aware cache affinity: a warm worker is kept until a cold one is less loaded by more than
//! a margin.
pub mod config;
pub mod laws;
pub mod picker;
