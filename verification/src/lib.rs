//! Verified core of a message-diffusion simulator on social graphs.
//!
//! The library holds the integer and graph logic of the simulator: the graph
//! model, breadth-first shortest distances, the propagation state machine that
//! drives one diffusion of a message, the decision latches of a user, and the
//! enumeration of message sequences.

pub mod config;
pub mod decision;
pub mod diffusion;
pub mod graph;
pub mod jobs;
pub mod message;
pub mod sampling;

use vstd::prelude::*;

verus! {

/// The version string of this library.
pub fn get_version() -> (v: &'static str)
    ensures
        v@ == "0.1.0"@,
{
    "0.1.0"
}

} // verus!
