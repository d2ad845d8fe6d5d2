//! Progress reporting: derived figures over the sweep counters.
//!
//! The reporter only observes: it reads the counters, compares them with its
//! previous observation, and derives completion and throughput figures.  The
//! caller formats and prints them on its own clock and stops reporting once
//! the sample says the sweep is finished.

use crate::sweep::SweepState;
use vstd::prelude::*;

verus! {

/// One observation of the sweep counters.
pub struct ProgressSample {
    /// Probes completed so far, including records resumed from the file.
    pub done: u64,
    /// Probes currently in flight.
    pub running: u64,
    /// Total number of addresses in the sweep.
    pub total: u64,
    /// Probes completed since the previous observation.
    pub delta: u64,
    /// Completed fraction, in tenths of a percent; an empty sweep counts as
    /// complete.
    pub permille: u64,
    /// Whether every address has completed.
    pub finished: bool,
}

/// Derive one progress report from the counters and the previous
/// observation's completion count.  Purely observational.
pub fn sample(state: &SweepState, last_done: u64) -> (r: ProgressSample)
    requires
        state.inv(),
        last_done <= state.completed,
    ensures
        r.done == state.completed,
        r.running == state.running(),
        r.total == state.total,
        r.delta == state.completed - last_done,
        state.total > 0 ==> r.permille == state.completed * 1000 / (state.total as int),
        state.total == 0 ==> r.permille == 1000,
        r.finished == (state.completed == state.total),
{
    let permille: u64 = if state.total == 0 {
        1000
    } else {
        state.completed * 1000 / state.total
    };
    ProgressSample {
        done: state.completed,
        running: state.submitted - state.completed,
        total: state.total,
        delta: state.completed - last_done,
        permille,
        finished: state.completed == state.total,
    }
}

} // verus!
