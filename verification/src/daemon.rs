//! The maintenance daemon's decision kernel.
//!
//! The background worker itself lives outside the verified core — it sleeps,
//! holds locks and spawns a thread — but what it decides at each tick is a
//! pure function of the elapsed time, the configured interval and the
//! cooperative termination flag.

use vstd::prelude::*;

verus! {

/// What the worker does at a tick.
#[derive(Debug, PartialEq, Eq, Structural, Clone, Copy)]
pub enum Tick {
    /// Run the maintenance pass and reset the elapsed timer.
    Run,
    /// Sleep another slice.
    Sleep,
    /// Exit the worker.
    Exit,
}

/// Decides one tick: termination wins, a full interval runs maintenance,
/// anything else sleeps on.
pub fn next_tick(elapsed_ms: u64, interval_ms: u64, terminated: bool) -> (r: Tick)
    ensures
        terminated ==> r is Exit,
        !terminated && elapsed_ms >= interval_ms ==> r is Run,
        !terminated && elapsed_ms < interval_ms ==> r is Sleep,
{
    if terminated {
        Tick::Exit
    } else if elapsed_ms >= interval_ms {
        Tick::Run
    } else {
        Tick::Sleep
    }
}

} // verus!
