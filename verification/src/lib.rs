//! Production planning on a single shared resource over a discrete horizon.
//!
//! Every period the resource produces one unit of one item type, or stays
//! idle. Each demand unit has to be produced no later than its period;
//! switching between item types costs a changeover, and a unit produced ahead
//! of its demand costs stocking for every period it waits.
//!
//! The crate holds the dynamic-programming model of that problem, the
//! relaxation that keeps width-bounded decision diagrams sound, the ranking of
//! states, and the compression of an instance into a smaller one over
//! clusters of item types.

pub mod bound;
pub mod compression;
pub mod demand;
pub mod error;
pub mod feasibility;
pub mod generate;
pub mod heuristic;
pub mod instance;
pub mod model;
pub mod projection;
pub mod ranking;
pub mod relax;
pub mod solve;
pub mod validity;
pub mod round_trip;
pub mod soundness;
