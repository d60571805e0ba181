//! States of the tracer and the actions it asks of a traced thread.

use vstd::prelude::*;

pub mod linux;
pub mod timeline;

use crate::ptrace_control::Pid;

verus! {

/// A traced thread and the signal, if any, to deliver when it resumes.
#[derive(Debug, Clone, Copy, PartialEq, Eq, Structural)]
pub struct ProcessInfo {
    pub pid: Pid,
    pub signal: Option<i32>,
}

impl ProcessInfo {
    pub fn new(pid: Pid, signal: Option<i32>) -> (r: Self)
        ensures
            r.pid == pid,
            r.signal == signal,
    {
        Self { pid, signal }
    }
}

/// The next thing to do to a traced thread.
#[derive(Debug, Clone, Copy, PartialEq, Eq, Structural)]
pub enum TracerAction {
    /// Resume, ignoring failure (the thread may be gone).
    TryContinue(ProcessInfo),
    /// Resume.
    Continue(ProcessInfo),
    /// Execute one instruction, then trap.
    Step(ProcessInfo),
    /// Stop tracing.
    Detach(ProcessInfo),
    /// Leave the thread alone.
    Nothing,
}

/// Resume `pid` with no signal.
pub open spec fn continue_of(pid: Pid) -> TracerAction {
    TracerAction::Continue(ProcessInfo { pid, signal: None })
}

/// The states the tracer moves through.
#[derive(Debug, Clone, Copy, PartialEq, Eq, Structural)]
pub enum TestState {
    /// Waiting for the first stop of the freshly launched child.
    Start,
    /// Installing breakpoints and issuing the first continue.
    Initialise,
    /// The tracee runs; the tracer polls for notifications.
    Waiting,
    /// Notifications are queued for dispatch.
    Stopped,
    /// The tracee's main process exited with this code.
    End(i32),
}

impl TestState {
    pub fn start_state() -> (r: TestState)
        ensures
            r == TestState::Start,
    {
        TestState::Start
    }

    pub fn wait_state() -> (r: TestState)
        ensures
            r == TestState::Waiting,
    {
        TestState::Waiting
    }

    pub fn is_finished(&self) -> (r: bool)
        ensures
            r == (*self is End),
    {
        match self {
            TestState::End(_) => true,
            _ => false,
        }
    }
}

} // verus!
