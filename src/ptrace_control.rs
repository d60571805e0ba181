//! The debug-control primitives the tracer needs from the kernel.
//!
//! The tracer core never talks to the kernel itself: every primitive goes
//! through [`TraceControl`], whose results are arbitrary as far as the proofs
//! are concerned. Everything proved about the core therefore holds for any
//! backend, whatever the kernel reports.

use vstd::prelude::*;

verus! {

/// A thread or process id.
pub type Pid = i32;

pub const SIGILL: i32 = 4;
pub const SIGTRAP: i32 = 5;
pub const SIGSEGV: i32 = 11;
pub const SIGSTOP: i32 = 19;

pub const PTRACE_EVENT_FORK: i32 = 1;
pub const PTRACE_EVENT_VFORK: i32 = 2;
pub const PTRACE_EVENT_CLONE: i32 = 3;
pub const PTRACE_EVENT_EXEC: i32 = 4;
pub const PTRACE_EVENT_EXIT: i32 = 6;

/// Why a debug-control primitive failed.
#[derive(Debug, Clone, Copy, PartialEq, Eq, Structural)]
pub enum TraceError {
    /// `ESRCH`: the thread is already gone.
    NoSuchProcess,
    /// `EIO`: the address could not be read or written.
    Io,
    /// Any other errno value.
    Other(i32),
}

/// A state reported by the kernel for a traced thread.
#[derive(Debug, Clone, Copy, PartialEq, Eq, Structural)]
pub enum WaitStatus {
    /// No pending event.
    StillAlive,
    /// The thread stopped on delivery of a signal.
    Stopped(Pid, i32),
    /// A tracing event (clone, fork, vfork, exec, exit) with its signal.
    PtraceEvent(Pid, i32, i32),
    /// A syscall stop.
    PtraceSyscall(Pid),
    /// Killed by a signal; the flag says whether core was dumped.
    Signaled(Pid, i32, bool),
    /// Normal termination with an exit code.
    Exited(Pid, i32),
    /// Resumed by `SIGCONT`.
    Continued(Pid),
}

/// The kernel's debug-tracing facility, one operation per primitive.
///
/// No operation carries a postcondition: the tracer is proved correct for
/// every value an implementation may return.
pub trait TraceControl {
    /// Ask for clone, fork, vfork, exec and exit events of `pid`.
    fn trace_children(&mut self, pid: Pid) -> Result<(), TraceError>;

    /// Resume `pid`, delivering `signal` if there is one.
    fn continue_exec(&mut self, pid: Pid, signal: Option<i32>) -> Result<(), TraceError>;

    /// Execute one instruction of `pid`, then trap.
    fn single_step(&mut self, pid: Pid) -> Result<(), TraceError>;

    /// Stop tracing `pid`.
    fn detach_child(&mut self, pid: Pid) -> Result<(), TraceError>;

    /// Read the word at `address` in the text of `pid`.
    fn read_address(&mut self, pid: Pid, address: u64) -> Result<u64, TraceError>;

    /// Write `data` as the word at `address` in the text of `pid`.
    fn write_to_address(&mut self, pid: Pid, address: u64, data: u64) -> Result<(), TraceError>;

    /// The instruction pointer of `pid`.
    fn current_instruction_pointer(&mut self, pid: Pid) -> Result<u64, TraceError>;

    /// Set the instruction pointer of `pid`.
    fn set_instruction_pointer(&mut self, pid: Pid, pc: u64) -> Result<(), TraceError>;

    /// The auxiliary data of the last event of `pid` (a new thread's id).
    fn get_event_data(&mut self, pid: Pid) -> Result<u64, TraceError>;

    /// Poll `pid` for a state change without blocking.
    fn wait_pid(&mut self, pid: Pid) -> Result<WaitStatus, TraceError>;

    /// Poll every traced thread for a state change without blocking.
    fn wait_any(&mut self) -> Result<WaitStatus, TraceError>;
}

} // verus!
