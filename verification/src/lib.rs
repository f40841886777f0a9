//! Engine for a forest-fire cellular automaton on a fixed two-dimensional
//! grid: bit-packed tree occupancy, stochastic ignition and regrowth event
//! counts, a debouncing edge latch for gating transient UI state, and the
//! step function that ages and propagates burning cells.

pub mod arrival;
pub mod grid;
pub mod latch;
pub mod rng;
pub mod sim;
