//! The decision a walker worker takes on each turn of its loop.
//!
//! Walkers share a FIFO queue of pending directories and a counter of
//! active (non-idle) walkers. A worker that finds the queue empty goes
//! idle once, and exits exactly when it is idle and no walker is active
//! any more: that is the "indexing complete" condition.

use vstd::prelude::*;

verus! {

pub enum WalkerAction {
    /// A directory was obtained: enumerate it. `leave_idle` says the worker
    /// was idle and must count itself active again first.
    Work { leave_idle: bool },
    /// The queue was empty and the worker was active: go idle, counting
    /// itself out of the active walkers.
    EnterIdle,
    /// The queue was empty, the worker idle, and no walker active: done.
    Exit,
    /// The queue was empty and the worker already idle, but others are
    /// still active and may yet enqueue work: try again.
    Wait,
}

/// One turn of the walker loop. A worker exits exactly when it got no
/// work, was already idle, and the active count has reached zero.
pub fn walker_step(got_job: bool, idle: bool, active_walkers: u32) -> (r: WalkerAction)
    ensures
        got_job ==> r == (WalkerAction::Work { leave_idle: idle }),
        !got_job && !idle ==> r == WalkerAction::EnterIdle,
        !got_job && idle && active_walkers == 0 ==> r == WalkerAction::Exit,
        !got_job && idle && active_walkers != 0 ==> r == WalkerAction::Wait,
{
    if got_job {
        WalkerAction::Work { leave_idle: idle }
    } else if !idle {
        WalkerAction::EnterIdle
    } else if active_walkers == 0 {
        WalkerAction::Exit
    } else {
        WalkerAction::Wait
    }
}

} // verus!
