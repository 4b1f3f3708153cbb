//! A distributed micro-instruction execution engine.
//!
//! A program is a graph of small commands; threads of control walk the graph,
//! a dispatcher drives each thread's state machine, a multi-queue scheduler
//! hands interpolated commands to registered workers, and a small commit
//! virtual machine applies each worker's result to the shared state.

use vstd::prelude::*;

pub mod daemon;
pub mod net;
pub mod obj;
pub mod prog;
pub mod pubsub;
pub mod table;

verus! {

} // verus!
