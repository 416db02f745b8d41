//! Shutting Aider processes down gracefully: interrupt (as Ctrl+C does),
//! wait for a clean exit for up to two seconds, then kill.

use vstd::prelude::*;

verus! {

/// How long a process may take to exit after the interrupt.
pub const GRACE_PERIOD_MS: u64 = 2000;

/// How long to wait between two checks whether the process has exited.
pub const POLL_INTERVAL_MS: u64 = 100;

/// Where the shutdown of one process stands.
#[derive(Clone, Copy, PartialEq, Eq, Debug)]
pub struct Shutdown {
    /// The interrupt has been sent.
    pub interrupted: bool,
    /// Time waited since the interrupt.
    pub waited_ms: u64,
    /// Nothing is left to do: the process exited or was killed.
    pub finished: bool,
}

/// What to do next for the process.
#[derive(Clone, Copy, PartialEq, Eq, Debug)]
pub enum ShutdownAction {
    /// Send the interrupt signal.
    Interrupt,
    /// Wait this many milliseconds, then check again.
    Wait(u64),
    /// Kill the process.
    Kill,
    /// Nothing more.
    Finished,
}

/// The state before anything was done.
pub open spec fn initial_shutdown() -> Shutdown {
    Shutdown { interrupted: false, waited_ms: 0, finished: false }
}

/// One step: given whether the process has exited, the next state and
/// action. A process that exited is left alone; otherwise it is
/// interrupted once, then waited for while the grace period lasts, then
/// killed.
pub open spec fn next_step(s: Shutdown, exited: bool) -> (Shutdown, ShutdownAction) {
    if s.finished || exited {
        (Shutdown { finished: true, ..s }, ShutdownAction::Finished)
    } else if !s.interrupted {
        (Shutdown { interrupted: true, ..s }, ShutdownAction::Interrupt)
    } else if s.waited_ms >= GRACE_PERIOD_MS {
        (Shutdown { finished: true, ..s }, ShutdownAction::Kill)
    } else {
        (
            Shutdown { waited_ms: (s.waited_ms + POLL_INTERVAL_MS) as u64, ..s },
            ShutdownAction::Wait(POLL_INTERVAL_MS),
        )
    }
}

/// The state in which a shutdown begins.
pub fn start_shutdown() -> (res: Shutdown)
    ensures
        res == initial_shutdown(),
{
    Shutdown { interrupted: false, waited_ms: 0, finished: false }
}

/// The next state and action of a shutdown.
pub fn shutdown_step(s: Shutdown, exited: bool) -> (res: (Shutdown, ShutdownAction))
    ensures
        res == next_step(s, exited),
{
    if s.finished || exited {
        (Shutdown { finished: true, ..s }, ShutdownAction::Finished)
    } else if !s.interrupted {
        (Shutdown { interrupted: true, ..s }, ShutdownAction::Interrupt)
    } else if s.waited_ms >= GRACE_PERIOD_MS {
        (Shutdown { finished: true, ..s }, ShutdownAction::Kill)
    } else {
        (
            Shutdown { waited_ms: s.waited_ms + POLL_INTERVAL_MS, ..s },
            ShutdownAction::Wait(POLL_INTERVAL_MS),
        )
    }
}

/// The state after `n` steps for a process that does not exit.
pub open spec fn steps_alive(n: nat) -> Shutdown
    decreases n,
{
    if n == 0 {
        initial_shutdown()
    } else {
        next_step(steps_alive((n - 1) as nat), false).0
    }
}

/// The action of step `n` (counted from 0) for a process that does not exit.
pub open spec fn action_alive(n: nat) -> ShutdownAction {
    next_step(steps_alive(n), false).1
}

proof fn lemma_steps_alive(n: nat)
    ensures
        n == 0 ==> steps_alive(n) == initial_shutdown(),
        1 <= n <= 21 ==> steps_alive(n) == (Shutdown {
            interrupted: true,
            waited_ms: ((n - 1) * 100) as u64,
            finished: false,
        }),
        n >= 22 ==> steps_alive(n).finished,
    decreases n,
{
    if n > 0 {
        lemma_steps_alive((n - 1) as nat);
    }
}

/// A process that does not exit is interrupted first, then waited for in
/// twenty steps of 100 ms (the two-second grace period), then killed, and
/// nothing is done to it afterwards.
pub proof fn lemma_shutdown_of_stuck_process(n: nat)
    ensures
        n == 0 ==> action_alive(n) == ShutdownAction::Interrupt,
        1 <= n <= 20 ==> action_alive(n) == ShutdownAction::Wait(POLL_INTERVAL_MS),
        n == 21 ==> action_alive(n) == ShutdownAction::Kill,
        n >= 22 ==> action_alive(n) == ShutdownAction::Finished,
{
    lemma_steps_alive(n);
}

/// A process that has exited is never interrupted or killed.
pub proof fn lemma_exited_process_is_left_alone(s: Shutdown)
    ensures
        next_step(s, true).1 == ShutdownAction::Finished,
        next_step(s, true).0.finished,
{
}

} // verus!
