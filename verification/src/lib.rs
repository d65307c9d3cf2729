//! A fixed-priority, dual-criticality (adaptive mixed criticality) real-time
//! scheduler: a discrete-event simulation engine together with the
//! response-time analysis that decides, offline and online, whether a task set
//! keeps its deadline guarantees.
//!
//! The engine (`simulator`, `handlers`) is proved to follow the transition
//! function in `model` step by step, so a whole run is a function of the
//! initial state; the analysis (`validation`, `schedulability`) is proved
//! against the integer fixed-point recurrences it implements, including the
//! conservativeness of the approximate online variant.

pub mod agent;
pub mod handlers;
pub mod model;
pub mod schedulability;
pub mod simulator;
pub mod task;
pub mod validation;
