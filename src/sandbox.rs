//! Decisions of the case runner. The worker forks, traces and waits on the child;
//! after each wait it asks these functions what the child's state means.
use vstd::prelude::*;

use crate::models::Status;

verus! {

/// The signals that the runner tells apart.
#[derive(Clone, Copy, Debug, PartialEq, Eq, Structural)]
pub enum Signal {
    /// CPU time limit exceeded.
    CpuLimit,
    /// Invalid memory reference.
    Segfault,
    /// Trace trap: a syscall stop.
    Trap,
    /// A child of the child changed state.
    Child,
    Other,
}

/// What one wait on the traced child reported.
#[derive(Clone, Copy, Debug, PartialEq, Eq, Structural)]
pub enum ChildEvent {
    /// The child exited with this code.
    Exited(i32),
    /// The child was terminated by a signal.
    Killed(Signal),
    /// The child was stopped by a signal.
    Stopped(Signal),
}

/// What the runner does next.
#[derive(Clone, Copy, Debug, PartialEq, Eq, Structural)]
pub enum RunDecision {
    /// The child is gone; the run's outcome, `Accepted` for a clean exit.
    Finish(Status),
    /// Kill the child; the run's outcome.
    Kill(Status),
    /// A syscall stop: look at the syscall number.
    CheckSyscall,
    /// Let the child go on to its next stop.
    Resume,
}

/// The syscalls a judged program may not make.
pub const BANNED_SYSCALLS: [u64; 1] = [435];

/// Outcome of a run ended by `sig`.
pub open spec fn signal_status(sig: Signal, memory_used: u64, memory_limit: u64) -> Status {
    if sig == Signal::CpuLimit {
        Status::TimeLimitExceeded
    } else if sig == Signal::Segfault && memory_limit > 0 && memory_used > memory_limit {
        Status::MemoryLimitExceeded
    } else {
        Status::RuntimeError
    }
}

/// What a wait's report means, given the peak memory so far and the case's limit
/// (0 for none).
pub open spec fn decision_of(event: ChildEvent, memory_used: u64, memory_limit: u64) -> RunDecision {
    match event {
        ChildEvent::Exited(code) => RunDecision::Finish(
            if code == 0 {
                Status::Accepted
            } else {
                Status::RuntimeError
            },
        ),
        ChildEvent::Killed(sig) => RunDecision::Kill(signal_status(sig, memory_used, memory_limit)),
        ChildEvent::Stopped(sig) => if sig != Signal::Trap && sig != Signal::Child {
            RunDecision::Kill(signal_status(sig, memory_used, memory_limit))
        } else if memory_limit > 0 && memory_used > memory_limit {
            RunDecision::Kill(Status::MemoryLimitExceeded)
        } else {
            RunDecision::CheckSyscall
        },
    }
}

fn signal_outcome(sig: Signal, memory_used: u64, memory_limit: u64) -> (r: Status)
    ensures
        r == signal_status(sig, memory_used, memory_limit),
{
    if sig == Signal::CpuLimit {
        Status::TimeLimitExceeded
    } else if sig == Signal::Segfault && memory_limit > 0 && memory_used > memory_limit {
        Status::MemoryLimitExceeded
    } else {
        Status::RuntimeError
    }
}

/// Decides what to do after a wait on the child.
pub fn after_wait(event: ChildEvent, memory_used: u64, memory_limit: u64) -> (r: RunDecision)
    ensures
        r == decision_of(event, memory_used, memory_limit),
{
    match event {
        ChildEvent::Exited(code) => RunDecision::Finish(
            if code == 0 {
                Status::Accepted
            } else {
                Status::RuntimeError
            },
        ),
        ChildEvent::Killed(sig) => RunDecision::Kill(signal_outcome(sig, memory_used, memory_limit)),
        ChildEvent::Stopped(sig) => {
            if sig != Signal::Trap && sig != Signal::Child {
                RunDecision::Kill(signal_outcome(sig, memory_used, memory_limit))
            } else if memory_limit > 0 && memory_used > memory_limit {
                RunDecision::Kill(Status::MemoryLimitExceeded)
            } else {
                RunDecision::CheckSyscall
            }
        },
    }
}

/// Whether the syscall numbered `nr` is banned.
pub fn syscall_banned(nr: u64) -> (r: bool)
    ensures
        r == (nr == 435),
{
    let banned = BANNED_SYSCALLS;
    let mut i: usize = 0;
    while i < 1
        invariant
            banned@ == seq![435u64],
            i <= 1,
            forall|j: int| 0 <= j < i ==> banned@[j] != nr,
        decreases 1 - i,
    {
        if banned[i] == nr {
            return true;
        }
        i = i + 1;
    }
    false
}

/// What a syscall stop means: a banned syscall kills the child, which has then made a
/// runtime error; any other lets it go on.
pub open spec fn syscall_decision(nr: u64) -> RunDecision {
    if nr == 435 {
        RunDecision::Kill(Status::RuntimeError)
    } else {
        RunDecision::Resume
    }
}

/// Decides what to do at a syscall stop, given the syscall number.
pub fn after_syscall(nr: u64) -> (r: RunDecision)
    ensures
        r == syscall_decision(nr),
{
    if syscall_banned(nr) {
        RunDecision::Kill(Status::RuntimeError)
    } else {
        RunDecision::Resume
    }
}

/// The run's outcome: a time limit exceeded if the monitor fired or the wall clock
/// passed the limit (0 for none), else `Ok` for a clean exit, else the status found.
pub open spec fn outcome_of(status: Status, timed_out: bool, time_limit: u64, elapsed: u64) -> Result<(), Status> {
    if timed_out || (time_limit > 0 && elapsed > time_limit) {
        Err(Status::TimeLimitExceeded)
    } else if status == Status::Accepted {
        Ok(())
    } else {
        Err(status)
    }
}

/// Settles a run's outcome once the child is gone.
pub fn run_outcome(status: Status, timed_out: bool, time_limit: u64, elapsed: u64) -> (r: Result<(), Status>)
    ensures
        r == outcome_of(status, timed_out, time_limit, elapsed),
{
    if timed_out || (time_limit > 0 && elapsed > time_limit) {
        Err(Status::TimeLimitExceeded)
    } else if status == Status::Accepted {
        Ok(())
    } else {
        Err(status)
    }
}

} // verus!
