//! One software breakpoint: a trap byte patched into a tracee's text.

use vstd::prelude::*;

use crate::ptrace_control::{Pid, TraceControl, TraceError};
use crate::statemachine::{continue_of, ProcessInfo, TracerAction};

verus! {

/// The x86 `int3` opcode.
pub const TRAP: u8 = 0xCC;

/// The byte at the lowest address of a little-endian word.
pub open spec fn low_byte(word: u64) -> u8 {
    (word % 256) as u8
}

/// `word` with its lowest-addressed byte replaced by `byte`.
pub open spec fn with_low_byte(word: u64, byte: u8) -> u64 {
    (word - word % 256 + byte) as u64
}

/// Replace the lowest-addressed byte of `word`, keeping the other seven.
pub fn patch_word(word: u64, byte: u8) -> (r: u64)
    ensures
        r == with_low_byte(word, byte),
        low_byte(r) == byte,
        r / 256 == word / 256,
{
    word - word % 256 + byte as u64
}

/// Why a breakpoint could not be installed.
#[derive(Debug, Clone, Copy, PartialEq, Eq, Structural)]
pub enum BreakpointError {
    /// The text could not be read or written (`EIO`): the address is not
    /// mapped, as happens with a position-independent executable.
    AddressUnreachable,
    /// A trap is already in place at the address.
    Duplicate,
    /// Any other failure of the tracing facility.
    Trace(TraceError),
}

/// The installation error for a failed read or write of the text.
pub open spec fn install_error_spec(e: TraceError) -> BreakpointError {
    if e == TraceError::Io {
        BreakpointError::AddressUnreachable
    } else {
        BreakpointError::Trace(e)
    }
}

fn install_error(e: TraceError) -> (r: BreakpointError)
    ensures
        r == install_error_spec(e),
{
    match e {
        TraceError::Io => BreakpointError::AddressUnreachable,
        _ => BreakpointError::Trace(e),
    }
}

/// A software breakpoint.
///
/// `armed` records whether the tracer's last write to the site put the trap
/// byte there. `pending` holds the thread, if any, that is stepping over the
/// original instruction; `retired` marks a site left disarmed for the rest
/// of the run.
#[derive(Debug)]
pub struct Breakpoint {
    pub pid: Pid,
    pub address: u64,
    pub original_byte: u8,
    pub armed: bool,
    pub pending: Vec<Pid>,
    pub retired: bool,
}

impl Breakpoint {
    /// The trap byte is absent only while exactly one thread steps over the
    /// original instruction, or once the site has been given up for the run.
    pub open spec fn wf(&self) -> bool {
        &&& self.pending@.len() <= 1
        &&& self.armed ==> self.pending@.len() == 0 && !self.retired
        &&& !self.armed ==> self.retired || self.pending@.len() == 1
    }

    /// An armed breakpoint built from the word read at `address`, and the
    /// word to write back with the trap in place.
    pub fn arm(pid: Pid, address: u64, word: u64) -> (r: Result<(Breakpoint, u64), BreakpointError>)
        ensures
            low_byte(word) == TRAP <==> r == Err::<(Breakpoint, u64), _>(BreakpointError::Duplicate),
            low_byte(word) != TRAP ==> r is Ok,
            r matches Ok((bp, w)) ==> {
                &&& bp.wf()
                &&& bp.pid == pid
                &&& bp.address == address
                &&& bp.original_byte == low_byte(word)
                &&& bp.armed
                &&& !bp.retired
                &&& w == with_low_byte(word, TRAP)
            },
    {
        let original_byte = (word % 256) as u8;
        if original_byte == TRAP {
            Err(BreakpointError::Duplicate)
        } else {
            let bp = Breakpoint {
                pid,
                address,
                original_byte,
                armed: true,
                pending: Vec::new(),
                retired: false,
            };
            Ok((bp, patch_word(word, TRAP)))
        }
    }

    /// Read the word at `address`, save its first byte and write the trap in
    /// its place.
    pub fn new<B: TraceControl>(b: &mut B, pid: Pid, address: u64) -> (r: Result<
        Breakpoint,
        BreakpointError,
    >)
        ensures
            r matches Ok(bp) ==> {
                &&& bp.wf()
                &&& bp.pid == pid
                &&& bp.address == address
                &&& bp.original_byte != TRAP
                &&& bp.armed
                &&& !bp.retired
            },
            r matches Err(e) ==> e != BreakpointError::Trace(TraceError::Io),
    {
        let word = match b.read_address(pid, address) {
            Ok(w) => w,
            Err(e) => return Err(install_error(e)),
        };
        match Breakpoint::arm(pid, address, word) {
            Err(e) => Err(e),
            Ok((bp, patched)) => match b.write_to_address(pid, address, patched) {
                Ok(()) => Ok(bp),
                Err(e) => Err(install_error(e)),
            },
        }
    }

    /// Service a trap at this armed site for thread `pid`: put the original
    /// byte back and move the thread's instruction pointer back onto it.
    /// With `re_arm` the thread is to single-step over it and the site is
    /// re-armed afterwards ([`Breakpoint::finish_step`]); without it the site
    /// stays disarmed for the rest of the run.
    pub fn process<B: TraceControl>(&mut self, b: &mut B, pid: Pid, re_arm: bool) -> (r: Result<
        (bool, TracerAction),
        TraceError,
    >)
        requires
            old(self).wf(),
            old(self).armed,
        ensures
            final(self).wf(),
            final(self).pid == old(self).pid,
            final(self).address == old(self).address,
            final(self).original_byte == old(self).original_byte,
            r is Ok ==> {
                &&& !final(self).armed
                &&& re_arm ==> {
                    &&& r == Ok::<_, TraceError>((true, TracerAction::Step(ProcessInfo { pid, signal: None })))
                    &&& final(self).pending@ == seq![pid]
                    &&& !final(self).retired
                }
                &&& !re_arm ==> {
                    &&& r == Ok::<_, TraceError>((true, continue_of(pid)))
                    &&& final(self).pending@.len() == 0
                    &&& final(self).retired
                }
            },
            r is Err ==> final(self).armed == old(self).armed && final(self).pending@ == old(self).pending@
                || !final(self).armed && final(self).retired,
    {
        let word = match b.read_address(pid, self.address) {
            Ok(w) => w,
            Err(e) => return Err(e),
        };
        match b.write_to_address(pid, self.address, patch_word(word, self.original_byte)) {
            Ok(()) => {},
            Err(e) => return Err(e),
        }
        self.armed = false;
        match b.set_instruction_pointer(pid, self.address) {
            Ok(()) => {},
            Err(e) => {
                self.retired = true;
                return Err(e);
            },
        }
        if re_arm {
            self.pending.push(pid);
            Ok((true, TracerAction::Step(ProcessInfo::new(pid, None))))
        } else {
            self.retired = true;
            Ok((true, TracerAction::Continue(ProcessInfo::new(pid, None))))
        }
    }

    /// The single-step of `pid` over this site is done: write the trap back.
    pub fn finish_step<B: TraceControl>(&mut self, b: &mut B, pid: Pid) -> (r: Result<
        TracerAction,
        TraceError,
    >)
        requires
            old(self).wf(),
            !old(self).armed,
            !old(self).retired,
            old(self).pending@ == seq![pid],
        ensures
            final(self).wf(),
            final(self).pid == old(self).pid,
            final(self).address == old(self).address,
            final(self).original_byte == old(self).original_byte,
            final(self).pending@.len() == 0,
            r is Ok ==> final(self).armed && r == Ok::<_, TraceError>(continue_of(pid)),
            r is Err ==> !final(self).armed && final(self).retired,
    {
        self.pending.clear();
        let word = match b.read_address(pid, self.address) {
            Ok(w) => w,
            Err(e) => {
                self.retired = true;
                return Err(e);
            },
        };
        match b.write_to_address(pid, self.address, patch_word(word, TRAP)) {
            Ok(()) => {
                self.armed = true;
                Ok(TracerAction::Continue(ProcessInfo::new(pid, None)))
            },
            Err(e) => {
                self.retired = true;
                Err(e)
            },
        }
    }

    /// Another thread reached this already-disarmed site: move its
    /// instruction pointer back onto the original instruction.
    pub fn jump_to<B: TraceControl>(&self, b: &mut B, pid: Pid) -> (r: Result<(), TraceError>) {
        b.set_instruction_pointer(pid, self.address)
    }

    /// Thread `pid` is gone: drop it from the step-over bookkeeping. A site
    /// whose stepping thread died is left disarmed for the run.
    pub fn thread_killed(&mut self, pid: Pid)
        requires
            old(self).wf(),
        ensures
            final(self).wf(),
            final(self).pid == old(self).pid,
            final(self).address == old(self).address,
            final(self).original_byte == old(self).original_byte,
            final(self).armed == old(self).armed,
            old(self).pending@ == seq![pid] ==> final(self).pending@.len() == 0 && final(self).retired,
            old(self).pending@ != seq![pid] ==> final(self).pending@ == old(self).pending@
                && final(self).retired == old(self).retired,
    {
        if self.pending.len() == 1 && self.pending[0] == pid {
            self.pending.clear();
            self.retired = true;
            assert(old(self).pending@ =~= seq![pid]);
        } else {
            assert(old(self).pending@ != seq![pid]) by {
                if old(self).pending@ == seq![pid] {
                    assert(old(self).pending@[0] == pid);
                }
            }
        }
    }
}

} // verus!
