//! Program-aware flow control: sessions are programs whose retained tokens are accounted against
//! worker capacity.
pub mod accounting;
pub mod capacity;
pub mod choices;
pub mod classifier;
pub mod config;
pub mod deadline;
pub mod effects;
pub mod error;
pub mod headroom;
pub mod laws;
pub mod ledger;
pub mod model;
pub mod order;
pub mod placement;
pub mod precedence;
pub mod program;
pub mod relief;
pub mod retention;
pub mod scheduler;
pub mod selection;
pub mod soundness;
pub mod stages;
pub mod turns;
pub mod usage;
pub mod waking;
