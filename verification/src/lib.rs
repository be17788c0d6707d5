//! A verified core for a tick-based, multi-worker entity simulation.
//!
//! Worker processes share a partially replicated view of an entity
//! population.  Each tick, a worker folds a batch of incremental
//! operations into its local [`view::ReplicatedView`], honouring atomic
//! critical-section grouping, and then runs a fixed list of behaviours
//! that read the view, a spatial membership index and a command
//! correlation tracker, and emit outgoing operations.

pub mod behaviors;
pub mod data;
pub mod idmap;
pub mod manager;
pub mod rng;
pub mod spatial;
pub mod tracker;
pub mod utils;
pub mod view;

use vstd::prelude::*;

verus! {

/// Callback used while a connection is queued: always keep waiting.
pub fn queue_status_callback(queue_status: &Result<u32, String>) -> (r: bool)
    ensures
        r,
{
    let _ = queue_status;
    true
}

} // verus!
