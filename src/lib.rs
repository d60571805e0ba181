//! A small coverage-tracing debugger core: software breakpoints, the tracer
//! state machine that drives a traced process, and the event timeline.

use vstd::prelude::*;

pub mod breakpoint;
pub mod launch;
pub mod ptrace_control;
pub mod statemachine;
pub mod timeline;

use crate::ptrace_control::TraceError;

verus! {

/// Run configuration: the test executable and the addresses to count.
pub struct Config {
    pub breakpoints: Vec<u64>,
    pub binary: String,
}

/// One instrumented address and how often it was hit.
#[derive(Debug, Clone, Copy, Hash, PartialEq, Eq, Structural, PartialOrd)]
pub struct Trace {
    /// Optional address showing location in the test artefact
    pub address: Option<u64>,
    pub count: usize,
}

impl Trace {
    pub fn new(addr: u64) -> (r: Trace)
        ensures
            r.address == Some(addr),
            r.count == 0,
    {
        Trace { address: Some(addr), count: 0 }
    }
}

/// A fresh trace, counting from zero, for each configured address.
pub fn traces_for(breakpoints: &Vec<u64>) -> (r: Vec<Trace>)
    ensures
        r@.len() == breakpoints@.len(),
        forall|i: int|
            0 <= i < r@.len() ==> #[trigger] r@[i] == (Trace { address: Some(breakpoints@[i]), count: 0 }),
{
    let mut r: Vec<Trace> = Vec::new();
    let mut i: usize = 0;
    while i < breakpoints.len()
        invariant
            0 <= i <= breakpoints@.len(),
            r@.len() == i,
            forall|k: int|
                0 <= k < i ==> #[trigger] r@[k] == (Trace { address: Some(breakpoints@[k]), count: 0 }),
        decreases breakpoints@.len() - i,
    {
        r.push(Trace::new(breakpoints[i]));
        i = i + 1;
    }
    r
}

/// Why a run failed.
#[derive(Debug)]
pub enum Error {
    /// The test executable does not exist.
    TestDoesntExist,
    /// The kernel refused to fork.
    ForkFail,
    Internal,
    TestFail,
    Trace(String),
    /// The tracee did something the tracer cannot go on from.
    TestRuntime(String),
    BadToml(String),
    Sys,
    /// A transition the state machine does not expect.
    StateMachine(String),
    /// A debug-control primitive failed.
    NixError(TraceError),
    IO(String),
    /// A breakpoint could not be installed.
    BreakpointInstall(String),
}

} // verus!
