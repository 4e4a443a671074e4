//! Ending the threads of a program.

use vstd::prelude::*;

verus! {

/// How long a thread is waited for, in milliseconds.
pub const JOIN_TIMEOUT_MS: u64 = 5_000;

/// What to do with a thread that was told to end.
#[derive(Debug, Clone, Copy, PartialEq, Eq, Structural)]
pub enum JoinAction {
    /// It has ended: join it.
    Join,
    /// Look again a little later.
    Sleep,
    /// It takes too long: let it go.
    Detach,
}

/// What to do with a thread that has been waited for so long.
pub fn after_wait(finished: bool, elapsed_ms: u64) -> (r: JoinAction)
    ensures
        finished ==> r is Join,
        !finished && elapsed_ms < JOIN_TIMEOUT_MS ==> r is Sleep,
        !finished && elapsed_ms >= JOIN_TIMEOUT_MS ==> r is Detach,
        !finished ==> (r is Detach <==> elapsed_ms >= 5 * 1000),
{
    if finished {
        JoinAction::Join
    } else if elapsed_ms < JOIN_TIMEOUT_MS {
        JoinAction::Sleep
    } else {
        JoinAction::Detach
    }
}

} // verus!
