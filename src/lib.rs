//! Simple Temporal Network solver: interval arithmetic on duration bounds,
//! construction of the STN distance graph, and All-Pairs-Shortest-Paths
//! propagation with negative-cycle detection.
//!
//! Durations are whole numbers of a time unit that the caller picks
//! (minutes, seconds, tenths of a minute, ...).
use vstd::prelude::*;

pub mod apsp;
pub mod graph;
pub mod interval;
pub mod network;
pub mod text;

pub use apsp::StnError;
pub use interval::Interval;
pub use network::{
    build_distance_graph, default_execution_uncertainty, payload_fits, perform_apsp, Edge, RegistrationEnum,
    RegistrationOptions, RegistrationPayload, STN, UNCERTAINTY_SCALE,
};

verus! {

} // verus!
