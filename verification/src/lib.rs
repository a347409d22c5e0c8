//! Worker-selection policies and program-aware admission for a model-serving router.
//!
//! Every item here is executable Rust whose behaviour is stated in contracts and proved.
//! Floating-point arithmetic, clocks, locks and the router host live outside the library: they
//! hand plain values in and take plain values back.
pub mod choice;
pub mod ieee;
pub mod names;
pub mod policy_queue;
pub mod ranking;
pub mod selection;
pub mod session_affinity;
pub mod sgl_router_cache_aware;
pub mod sglang_cache_aware;
pub mod sticky_until_saturated;
pub mod table;
pub mod text;
pub mod thunderagent;
pub mod worker;
