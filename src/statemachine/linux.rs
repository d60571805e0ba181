//! The tracer state machine for Linux tracees.

use vstd::prelude::*;

use crate::breakpoint::{Breakpoint, BreakpointError, TRAP};
use crate::ptrace_control::{
    Pid, TraceControl, TraceError, WaitStatus, PTRACE_EVENT_CLONE, PTRACE_EVENT_EXEC, PTRACE_EVENT_EXIT,
    PTRACE_EVENT_FORK, PTRACE_EVENT_VFORK, SIGILL, SIGSEGV, SIGSTOP, SIGTRAP,
};
use crate::statemachine::timeline::{Event, Timeline};
use crate::statemachine::{continue_of, ProcessInfo, TestState, TracerAction};
use crate::{Error, Trace};

verus! {

/// How many entries of `s` are `a`.
pub open spec fn count_in(s: Seq<u64>, a: u64) -> nat
    decreases s.len(),
{
    if s.len() == 0 {
        0
    } else {
        count_in(s.drop_last(), a) + if s.last() == a {
            1nat
        } else {
            0nat
        }
    }
}

pub proof fn lemma_count_in_push(s: Seq<u64>, x: u64, a: u64)
    ensures
        count_in(s.push(x), a) == count_in(s, a) + if x == a {
            1nat
        } else {
            0nat
        },
{
    assert(s.push(x).drop_last() =~= s);
}

/// Some breakpoint of `bps` sits at `a`.
pub open spec fn has_breakpoint(bps: Seq<Breakpoint>, a: u64) -> bool {
    exists|i: int| 0 <= i < bps.len() && #[trigger] bps[i].address == a
}

/// An armed breakpoint of `bps` sits at `a`.
pub open spec fn armed_at(bps: Seq<Breakpoint>, a: u64) -> bool {
    exists|i: int| 0 <= i < bps.len() && #[trigger] bps[i].address == a && bps[i].armed
}

/// `new_hits` is `old_hits`, or one more hit: at a breakpoint of `bps` that
/// was armed and whose address is not among the `visited` ones.
pub open spec fn one_hit_at_most(
    old_hits: Seq<u64>,
    new_hits: Seq<u64>,
    bps: Seq<Breakpoint>,
    visited: Seq<u64>,
) -> bool {
    ||| new_hits == old_hits
    ||| {
        &&& new_hits.len() == old_hits.len() + 1
        &&& new_hits.drop_last() == old_hits
        &&& armed_at(bps, new_hits.last())
        &&& !visited.contains(new_hits.last())
    }
}

/// How the message of a failed poll begins.
pub open spec fn wait_error_prefix() -> Seq<char> {
    "An error occurred while waiting for response from test: "@
}

/// The name of a failure of the tracing facility.
pub fn describe(e: TraceError) -> (r: String)
    ensures
        e == TraceError::NoSuchProcess ==> r@ == "ESRCH"@,
        e == TraceError::Io ==> r@ == "EIO"@,
        e is Other ==> "errno "@.is_prefix_of(r@),
{
    match e {
        TraceError::NoSuchProcess => "ESRCH".to_string(),
        TraceError::Io => "EIO".to_string(),
        TraceError::Other(n) => {
            let r = "errno ".to_string().concat(n.to_string().as_str());
            assert(r@.subrange(0, "errno "@.len() as int) =~= "errno "@);
            r
        },
    }
}

fn contains_pid(v: &Vec<Pid>, p: Pid) -> (r: bool)
    ensures
        r == v@.contains(p),
{
    let mut i: usize = 0;
    while i < v.len()
        invariant
            0 <= i <= v@.len(),
            forall|j: int| 0 <= j < i ==> v@[j] != p,
        decreases v@.len() - i,
    {
        if v[i] == p {
            return true;
        }
        i = i + 1;
    }
    false
}

fn contains_addr(v: &Vec<u64>, a: u64) -> (r: bool)
    ensures
        r == v@.contains(a),
{
    let mut i: usize = 0;
    while i < v.len()
        invariant
            0 <= i <= v@.len(),
            forall|j: int| 0 <= j < i ==> v@[j] != a,
        decreases v@.len() - i,
    {
        if v[i] == a {
            return true;
        }
        i = i + 1;
    }
    false
}

/// An address absent from `s` is counted zero times.
pub proof fn lemma_count_in_absent(s: Seq<u64>, a: u64)
    requires
        !s.contains(a),
    ensures
        count_in(s, a) == 0,
    decreases s.len(),
{
    if s.len() > 0 {
        assert(!s.drop_last().contains(a)) by {
            if s.drop_last().contains(a) {
                let k = choose|k: int| 0 <= k < s.drop_last().len() && s.drop_last()[k] == a;
                assert(s[k] == a);
            }
        }
        assert(s.last() != a) by {
            if s.last() == a {
                assert(s[s.len() - 1] == a);
            }
        }
        lemma_count_in_absent(s.drop_last(), a);
    }
}

/// `new` counts one more hit than `old` for every trace of address `a`,
/// and is otherwise the same.
pub open spec fn bumped(old: Seq<Trace>, new: Seq<Trace>, a: u64) -> bool {
    &&& new.len() == old.len()
    &&& forall|j: int|
        0 <= j < new.len() ==> (#[trigger] new[j]).address == old[j].address && new[j].count == old[j].count
            + if old[j].address == Some(a) {
            1int
        } else {
            0int
        }
}

/// A breakpoint of `bps` at `a` is disarmed for the rest of the run.
pub open spec fn retired_at(bps: Seq<Breakpoint>, a: u64) -> bool {
    exists|i: int| 0 <= i < bps.len() && #[trigger] bps[i].address == a && !bps[i].armed && bps[i].retired
}

/// The address a trap reported with instruction pointer `pc` points at,
/// when `pc` could be read and is not zero.
pub open spec fn trap_address(pc: Result<u64, TraceError>) -> Option<u64> {
    match pc {
        Ok(p) => if p >= 1 {
            Some((p - 1) as u64)
        } else {
            None
        },
        Err(_) => None,
    }
}

/// A trap at instruction pointer `pc` points at an armed breakpoint of
/// `bps` not among the `visited` addresses.
pub open spec fn fresh_trap(pc: Result<u64, TraceError>, bps: Seq<Breakpoint>, visited: Seq<u64>) -> bool {
    trap_address(pc) matches Some(a) && armed_at(bps, a) && !visited.contains(a)
}

/// Adding a breakpoint keeps the sites there were and adds its own.
pub proof fn lemma_has_breakpoint_push(bps: Seq<Breakpoint>, bp: Breakpoint, a: u64)
    ensures
        has_breakpoint(bps, a) ==> has_breakpoint(bps.push(bp), a),
        has_breakpoint(bps.push(bp), bp.address),
{
    if has_breakpoint(bps, a) {
        let j = choose|j: int| 0 <= j < bps.len() && #[trigger] bps[j].address == a;
        assert(bps.push(bp)[j].address == a);
    }
    assert(bps.push(bp)[bps.len() as int].address == bp.address);
}

/// Every configured address has a breakpoint in `bps` or is in `skipped`.
pub open spec fn all_installed(traces: Seq<Trace>, bps: Seq<Breakpoint>, skipped: Seq<u64>) -> bool {
    forall|i: int|
        0 <= i < traces.len() && (#[trigger] traces[i]).address is Some ==> has_breakpoint(
            bps,
            traces[i].address->0,
        ) || skipped.contains(traces[i].address->0)
}

/// The hint given when code addresses cannot be reached.
pub open spec fn pie_hint() -> Seq<char> {
    "cannot find code addresses, check that pie is disabled for your linker. If linking with gcc try adding -C link-args=-no-pie to your rust flags"@
}

/// The pid a site request is made through.
pub open spec fn request_pid(r: Request) -> Pid {
    match r {
        Request::Options(p) => p,
        Request::Install(p, _) => p,
        Request::Service(p, _) => p,
        Request::JumpTo(p, _) => p,
        Request::Continue(p, _) => p,
        Request::Step(p) => p,
        Request::Detach(p) => p,
    }
}

/// `new` is `old`, or `old` and one request of thread `pid` to service a
/// trap or to move the thread back onto a site.
pub open spec fn site_step(old: Seq<Request>, new: Seq<Request>, pid: Pid) -> bool {
    ||| new == old
    ||| {
        &&& new.len() == old.len() + 1
        &&& new.drop_last() == old
        &&& (new.last() is Service || new.last() is JumpTo)
        &&& request_pid(new.last()) == pid
    }
}

/// A trap at instruction pointer `pc` points at a breakpoint of `bps`.
pub open spec fn trap_site(pc: Result<u64, TraceError>, bps: Seq<Breakpoint>) -> bool {
    trap_address(pc) matches Some(a) && has_breakpoint(bps, a)
}

/// A notification that writes a timeline entry of its own.
pub open spec fn notes(status: WaitStatus) -> bool {
    match status {
        WaitStatus::Stopped(_, s) => s == SIGTRAP || s == SIGSTOP || s == SIGSEGV || s == SIGILL,
        WaitStatus::PtraceEvent(_, s, e) => s == SIGTRAP && (e == PTRACE_EVENT_FORK || e
            == PTRACE_EVENT_VFORK || e == PTRACE_EVENT_EXEC || e == PTRACE_EVENT_EXIT),
        WaitStatus::Exited(_, _) => true,
        _ => false,
    }
}

/// The thread a notification concerns.
pub open spec fn note_pid(status: WaitStatus) -> Pid {
    match status {
        WaitStatus::Stopped(c, _) => c,
        WaitStatus::PtraceEvent(c, _, _) => c,
        WaitStatus::Exited(c, _) => c,
        WaitStatus::Signaled(c, _, _) => c,
        WaitStatus::PtraceSyscall(c) => c,
        WaitStatus::Continued(c) => c,
        WaitStatus::StillAlive => 0,
    }
}

/// How the timeline entry of a notification begins: the signal's name, the
/// event's name, or `EXITED ` followed by the exit code.
pub open spec fn note_text(status: WaitStatus) -> Seq<char> {
    match status {
        WaitStatus::Stopped(_, s) => if s == SIGTRAP {
            "SIGTRAP"@
        } else if s == SIGSTOP {
            "SIGSTOP"@
        } else if s == SIGSEGV {
            "SIGSEGV"@
        } else {
            "SIGILL"@
        },
        WaitStatus::PtraceEvent(_, _, e) => event_text(e),
        _ => "EXITED "@,
    }
}

/// Some entry of `events` is of thread `p` and its text begins with `t`.
pub open spec fn noted(events: Seq<Event>, p: Pid, t: Seq<char>) -> bool {
    exists|j: int| 0 <= j < events.len() && #[trigger] events[j].pid == p && t.is_prefix_of(events[j].descr@)
}

pub proof fn lemma_noted_last(events: Seq<Event>, p: Pid, t: Seq<char>)
    requires
        events.len() > 0,
        events.last().pid == p,
        t.is_prefix_of(events.last().descr@),
    ensures
        noted(events, p, t),
{
    assert(events[events.len() - 1].pid == p);
}

/// An entry stays noted when the timeline grows.
pub proof fn lemma_noted_grow(e1: Seq<Event>, e2: Seq<Event>, p: Pid, t: Seq<char>)
    requires
        noted(e1, p, t),
        e1.is_prefix_of(e2),
    ensures
        noted(e2, p, t),
{
    let j = choose|j: int| 0 <= j < e1.len() && #[trigger] e1[j].pid == p && t.is_prefix_of(e1[j].descr@);
    assert(e2[j] == e1[j]);
}

pub proof fn lemma_prefix_refl(t: Seq<char>)
    ensures
        t.is_prefix_of(t),
{
    assert(t.subrange(0, t.len() as int) =~= t);
}

/// The message of a segfault of the tracee.
pub open spec fn segfault_message() -> Seq<char> {
    "A segfault occurred while executing tests"@
}

/// How many notifications of `q` are `SIGTRAP` stops.
pub open spec fn trap_count(q: Seq<WaitStatus>) -> nat
    decreases q.len(),
{
    if q.len() == 0 {
        0
    } else {
        trap_count(q.drop_last()) + if is_trap_stop(q.last()) {
            1nat
        } else {
            0nat
        }
    }
}

/// Some notification of `q` is the exit event of thread `x`.
pub open spec fn exited_in(q: Seq<WaitStatus>, x: Pid) -> bool {
    exists|k: int| 0 <= k < q.len() && #[trigger] q[k] == WaitStatus::PtraceEvent(x, SIGTRAP, PTRACE_EVENT_EXIT)
}

/// The request that carrying out action `a` makes, if any.
pub open spec fn request_of(a: TracerAction) -> Seq<Request> {
    match a {
        TracerAction::TryContinue(t) => seq![Request::Continue(t.pid, t.signal)],
        TracerAction::Continue(t) => seq![Request::Continue(t.pid, t.signal)],
        TracerAction::Step(t) => seq![Request::Step(t.pid)],
        TracerAction::Detach(t) => seq![Request::Detach(t.pid)],
        TracerAction::Nothing => Seq::empty(),
    }
}

/// The requests that carrying out `actions` in order makes.
pub open spec fn requests_of(actions: Seq<TracerAction>) -> Seq<Request>
    decreases actions.len(),
{
    if actions.len() == 0 {
        Seq::empty()
    } else {
        requests_of(actions.drop_last()) + request_of(actions.last())
    }
}

/// The thread an action is for.
pub open spec fn action_pid(a: TracerAction) -> Pid {
    match a {
        TracerAction::TryContinue(t) => t.pid,
        TracerAction::Continue(t) => t.pid,
        TracerAction::Step(t) => t.pid,
        TracerAction::Detach(t) => t.pid,
        TracerAction::Nothing => 0,
    }
}

/// The timeline entry written when action `a` is carried out.
pub open spec fn action_text(a: TracerAction) -> Seq<char> {
    match a {
        TracerAction::TryContinue(_) => "TryContinue"@,
        TracerAction::Continue(_) => "Continue"@,
        TracerAction::Step(_) => "Step"@,
        TracerAction::Detach(_) => "Detach"@,
        TracerAction::Nothing => Seq::empty(),
    }
}

/// An action whose failure can end the run.
pub open spec fn may_end_run(a: TracerAction) -> bool {
    a is Continue || a is Step || a is Detach
}

/// The actions owed for the notifications of `q`.
pub open spec fn expected_actions(parent: Pid, q: Seq<WaitStatus>) -> Seq<TracerAction> {
    Seq::new(q.len(), |k: int| expected_action(parent, q[k]))
}

/// The resume made when `actions` resume, step or release no thread: the
/// test process, with no signal.
pub open spec fn fallback(parent: Pid, actions: Seq<TracerAction>) -> Seq<Request> {
    if exists|k: int| 0 <= k < actions.len() && !(#[trigger] actions[k] is Nothing) {
        Seq::empty()
    } else {
        seq![Request::Continue(parent, None)]
    }
}

/// The address a site request concerns.
pub open spec fn request_addr(r: Request) -> u64 {
    match r {
        Request::Install(_, a) => a,
        Request::Service(_, a) => a,
        Request::JumpTo(_, a) => a,
        _ => 0,
    }
}

/// How a failed request for lifecycle events ends the run.
pub fn on_options(res: Result<(), TraceError>) -> (r: Option<Error>)
    ensures
        res is Ok <==> r is None,
        res matches Err(e) ==> r == Some(Error::NixError(e)),
{
    match res {
        Ok(()) => None,
        Err(e) => Some(Error::NixError(e)),
    }
}

/// The hits recorded in `hits` for the address of `t`.
pub open spec fn trace_hits(hits: Seq<u64>, t: Trace) -> nat {
    match t.address {
        Some(a) => count_in(hits, a),
        None => 0,
    }
}

/// The stop that a freshly launched child makes on its trace request.
pub open spec fn is_initial_stop(status: Result<WaitStatus, TraceError>) -> bool {
    status matches Ok(WaitStatus::Stopped(_, s)) && s == SIGTRAP
}

/// The thread a stop notification is about.
pub open spec fn stopped_pid(status: Result<WaitStatus, TraceError>) -> Pid {
    match status {
        Ok(WaitStatus::Stopped(c, _)) => c,
        _ => 0,
    }
}

/// A notification after which the tracer stops polling and dispatches.
pub open spec fn ends_drain(s: WaitStatus) -> bool {
    s is Exited || s is PtraceEvent
}

/// Some entry of `traces` is for address `a`.
pub open spec fn is_configured(traces: Seq<Trace>, a: u64) -> bool {
    exists|i: int| 0 <= i < traces.len() && #[trigger] traces[i].address == Some(a)
}

/// `pid` with no signal to deliver.
pub open spec fn info(pid: Pid) -> ProcessInfo {
    ProcessInfo { pid, signal: None }
}

/// The next state and action owed for a notification, or `None` for one
/// that ends the run with an error.
pub open spec fn expected_outcome(parent: Pid, status: WaitStatus) -> Option<(TestState, TracerAction)> {
    match status {
        WaitStatus::PtraceEvent(c, s, e) => if s != SIGTRAP {
            None
        } else if e == PTRACE_EVENT_CLONE || e == PTRACE_EVENT_FORK || e == PTRACE_EVENT_VFORK {
            Some((TestState::Waiting, continue_of(c)))
        } else if e == PTRACE_EVENT_EXEC {
            Some((TestState::Waiting, TracerAction::Detach(info(c))))
        } else if e == PTRACE_EVENT_EXIT {
            Some((TestState::Waiting, TracerAction::TryContinue(info(c))))
        } else {
            None
        },
        WaitStatus::Stopped(c, s) => if s == SIGTRAP || s == SIGSTOP {
            Some((TestState::Waiting, continue_of(c)))
        } else if s == SIGSEGV || s == SIGILL {
            None
        } else {
            Some((TestState::Waiting, TracerAction::TryContinue(ProcessInfo { pid: c, signal: Some(s) })))
        },
        WaitStatus::Signaled(c, s, core_dumped) => if s == SIGTRAP && core_dumped {
            Some((TestState::Waiting, continue_of(c)))
        } else {
            None
        },
        WaitStatus::Exited(c, code) => if c == parent {
            Some((TestState::End(code), TracerAction::Nothing))
        } else {
            Some((TestState::Waiting, TracerAction::TryContinue(info(parent))))
        },
        _ => None,
    }
}

/// The action owed for a notification that does not fail.
pub open spec fn expected_action(parent: Pid, status: WaitStatus) -> TracerAction {
    match expected_outcome(parent, status) {
        Some((_, a)) => a,
        None => TracerAction::Nothing,
    }
}

/// A thread-creation event, whose outcome depends on reading the new
/// thread's id.
pub open spec fn is_clone_event(status: WaitStatus) -> bool {
    status matches WaitStatus::PtraceEvent(_, s, e) && s == SIGTRAP && e == PTRACE_EVENT_CLONE
}

/// How handling `status` changes the counted threads `old_live` into
/// `new_live`: an exit removes the thread, a clone adds at most one,
/// anything else changes nothing.
pub open spec fn threads_after(old_live: Seq<Pid>, new_live: Seq<Pid>, status: WaitStatus) -> bool {
    match status {
        WaitStatus::PtraceEvent(c, s, e) => if s == SIGTRAP && e == PTRACE_EVENT_EXIT {
            &&& forall|x: Pid| #[trigger] new_live.contains(x) <==> old_live.contains(x) && x != c
            &&& new_live.len() == old_live.len() - if old_live.contains(c) {
                1int
            } else {
                0int
            }
        } else if s == SIGTRAP && e == PTRACE_EVENT_CLONE {
            old_live.is_prefix_of(new_live) && new_live.len() <= old_live.len() + 1
        } else {
            new_live == old_live
        },
        _ => new_live == old_live,
    }
}

/// The timeline entry written for a fork, exec or exit event.
pub open spec fn event_text(e: i32) -> Seq<char> {
    if e == PTRACE_EVENT_EXEC {
        "Exec Event"@
    } else if e == PTRACE_EVENT_EXIT {
        "EXIT"@
    } else {
        "Fork Event"@
    }
}

/// For a fork, exec or exit event, exactly one entry of the thread with
/// its text is appended to `old_events`.
pub open spec fn event_logged(old_events: Seq<Event>, new_events: Seq<Event>, status: WaitStatus) -> bool {
    match status {
        WaitStatus::PtraceEvent(c, s, e) => (s == SIGTRAP && (e == PTRACE_EVENT_FORK || e
            == PTRACE_EVENT_VFORK || e == PTRACE_EVENT_EXEC || e == PTRACE_EVENT_EXIT)) ==> {
            &&& new_events.len() == old_events.len() + 1
            &&& new_events.drop_last() == old_events
            &&& new_events.last().pid == c
            &&& new_events.last().descr@ == event_text(e)
        },
        _ => true,
    }
}

/// A breakpoint trap or step-over completion.
pub open spec fn is_trap_stop(status: WaitStatus) -> bool {
    status matches WaitStatus::Stopped(_, s) && s == SIGTRAP
}

/// The result a batch of notifications leads to, `None` being failure:
/// that of the last notification whose outcome is not `Waiting`, or
/// `Waiting` when there is none.
pub open spec fn batch_result(parent: Pid, q: Seq<WaitStatus>) -> Option<TestState>
    decreases q.len(),
{
    if q.len() == 0 {
        Some(TestState::Waiting)
    } else {
        match expected_outcome(parent, q.last()) {
            Some((s, _)) => if s != TestState::Waiting {
                Some(s)
            } else {
                batch_result(parent, q.drop_last())
            },
            None => None,
        }
    }
}

/// A batch leads back to `Waiting`, to the end of the run, or to failure.
pub proof fn lemma_batch_result_kind(parent: Pid, q: Seq<WaitStatus>)
    ensures
        batch_result(parent, q) matches Some(s) ==> s == TestState::Waiting || s is End,
    decreases q.len(),
{
    if q.len() > 0 {
        lemma_batch_result_kind(parent, q.drop_last());
    }
}

/// No notification of `q` reports a new thread.
pub open spec fn no_clone(q: Seq<WaitStatus>) -> bool {
    forall|k: int| 0 <= k < q.len() ==> !is_clone_event(#[trigger] q[k])
}

/// Every notification of `q` is handled without failure, whatever the
/// kernel answers.
pub open spec fn settled(parent: Pid, q: Seq<WaitStatus>) -> bool {
    forall|k: int|
        0 <= k < q.len() ==> !is_clone_event(#[trigger] q[k]) && expected_outcome(parent, q[k]) is Some
}

/// Every notification of `q` is handled without failure, and only asks to
/// leave a thread alone or to resume it ignoring errors.
pub open spec fn quiet(parent: Pid, q: Seq<WaitStatus>) -> bool {
    &&& settled(parent, q)
    &&& forall|k: int|
        0 <= k < q.len() ==> (#[trigger] expected_action(parent, q[k]) is Nothing || expected_action(
            parent,
            q[k],
        ) is TryContinue)
}

/// Whether the result `res` of carrying out action `a` ends the run: a
/// failed `TryContinue` and a thread that is already gone never do.
pub open spec fn action_fails(a: TracerAction, res: Result<(), TraceError>) -> bool {
    !(res is Ok || a is TryContinue || res == Err::<(), TraceError>(TraceError::NoSuchProcess))
}

pub fn action_failure(a: TracerAction, res: Result<(), TraceError>) -> (fatal: bool)
    ensures
        fatal == action_fails(a, res),
{
    match res {
        Ok(()) => false,
        Err(e) => match a {
            TracerAction::TryContinue(_) => false,
            _ => e != TraceError::NoSuchProcess,
        },
    }
}

/// The states that one step of the tracer may lead to from `from`.
pub open spec fn can_follow(from: TestState, to: TestState) -> bool {
    match from {
        TestState::Start => to == TestState::Start || to == TestState::Initialise,
        TestState::Initialise => to == TestState::Waiting,
        TestState::Waiting => to == TestState::Waiting || to == TestState::Stopped,
        TestState::Stopped => to == TestState::Waiting || to is End,
        TestState::End(c) => to == TestState::End(c),
    }
}

/// A request that the tracer makes of the tracee, as recorded in the
/// request logs just before the call that carries it out.
pub enum Request {
    /// Ask for clone, fork, vfork, exec and exit events of a thread.
    Options(Pid),
    /// Install a breakpoint at an address, through a thread.
    Install(Pid, u64),
    /// Service a trap of a thread at a breakpoint, leaving the site disarmed.
    Service(Pid, u64),
    /// Move a thread back onto the original instruction at a site.
    JumpTo(Pid, u64),
    /// Resume a thread, delivering a signal if there is one.
    Continue(Pid, Option<i32>),
    /// Single-step a thread.
    Step(Pid),
    /// Stop tracing a thread.
    Detach(Pid),
}

/// Start tracing the launched test process `test`, counting into `traces`.
pub fn create_state_machine(test: Pid, traces: Vec<Trace>) -> (r: (TestState, LinuxData))
    requires
        forall|i: int| 0 <= i < traces@.len() ==> #[trigger] traces@[i].count == 0,
    ensures
        r.0 == TestState::Start,
        r.1.wf(),
        r.1.parent() == test,
        r.1.current() == test,
        r.1.traces() == traces@,
        r.1.queue().len() == 0,
        r.1.breakpoints().len() == 0,
        r.1.thread_count() == 0,
        r.1.hits().len() == 0,
        r.1.events().len() == 0,
        r.1.skipped().len() == 0,
{
    let mut data = LinuxData::new(traces);
    data.parent = test;
    data.current = test;
    (TestState::start_state(), data)
}

/// The state machine's working set for one run.
pub struct LinuxData {
    /// Recent results from waitpid to be handled by the state machine
    wait_queue: Vec<WaitStatus>,
    /// Current Pid to process
    current: Pid,
    /// Parent PID of test process
    parent: Pid,
    /// Breakpoints, at distinct addresses
    breakpoints: Vec<Breakpoint>,
    /// Instrumentation points in code with associated coverage data
    traces: Vec<Trace>,
    /// Threads reported by a clone event that have not reported their exit
    live: Vec<Pid>,
    /// Configured addresses skipped because a trap was already in place
    skipped: Ghost<Seq<u64>>,
    /// Requests made of the tracee's breakpoint sites, in order
    site_log: Ghost<Seq<Request>>,
    /// Requests made to resume, step or release a thread, in order
    resume_log: Ghost<Seq<Request>>,
    /// Used for plotting a signal timeline
    timeline: Timeline,
    /// The address of each serviced trap of an armed breakpoint, in order
    hit_log: Ghost<Seq<u64>>,
}

impl LinuxData {
    pub closed spec fn queue(&self) -> Seq<WaitStatus> {
        self.wait_queue@
    }

    pub closed spec fn current(&self) -> Pid {
        self.current
    }

    pub closed spec fn parent(&self) -> Pid {
        self.parent
    }

    pub closed spec fn breakpoints(&self) -> Seq<Breakpoint> {
        self.breakpoints@
    }

    pub closed spec fn traces(&self) -> Seq<Trace> {
        self.traces@
    }

    pub closed spec fn thread_count(&self) -> int {
        self.live@.len() as int
    }

    /// The requests made of breakpoint sites: asking for lifecycle events,
    /// installing, servicing a trap, moving a thread back onto a site.
    pub closed spec fn site_requests(&self) -> Seq<Request> {
        self.site_log@
    }

    /// The requests made to resume, single-step or release a thread.
    pub closed spec fn resumes(&self) -> Seq<Request> {
        self.resume_log@
    }

    /// Both request logs are as in `o`.
    pub open spec fn logs_same(&self, o: LinuxData) -> bool {
        self.site_requests() == o.site_requests() && self.resumes() == o.resumes()
    }

    /// The configured addresses skipped because a trap was already there.
    pub closed spec fn skipped(&self) -> Seq<u64> {
        self.skipped@
    }

    /// The threads created by a clone event that have not exited yet.
    pub closed spec fn live_threads(&self) -> Seq<Pid> {
        self.live@
    }

    pub closed spec fn events(&self) -> Seq<Event> {
        self.timeline.events()
    }

    /// The address of each trap of an armed breakpoint that was serviced.
    pub closed spec fn hits(&self) -> Seq<u64> {
        self.hit_log@
    }

    pub closed spec fn wf(&self) -> bool {
        &&& self.timeline.wf()
        &&& forall|i: int| 0 <= i < self.breakpoints@.len() ==> #[trigger] self.breakpoints@[i].wf()
        &&& forall|i: int, j: int|
            0 <= i < j < self.breakpoints@.len() ==> #[trigger] self.breakpoints@[i].address
                != #[trigger] self.breakpoints@[j].address
        &&& forall|i: int|
            0 <= i < self.traces@.len() ==> #[trigger] self.traces@[i].count == trace_hits(
                self.hit_log@,
                self.traces@[i],
            )
        &&& forall|a: u64| #[trigger] count_in(self.hit_log@, a) <= 1
        &&& forall|i: int|
            0 <= i < self.breakpoints@.len() && #[trigger] self.breakpoints@[i].armed ==> count_in(
                self.hit_log@,
                self.breakpoints@[i].address,
            ) == 0
        &&& forall|a: u64| #[trigger]
            count_in(self.hit_log@, a) > 0 ==> has_breakpoint(self.breakpoints@, a)
        &&& self.live@.no_duplicates()
    }

    pub fn new(traces: Vec<Trace>) -> (r: LinuxData)
        requires
            forall|i: int| 0 <= i < traces@.len() ==> #[trigger] traces@[i].count == 0,
        ensures
            r.wf(),
            r.parent() == 0,
            r.current() == 0,
            r.traces() == traces@,
            r.queue().len() == 0,
            r.breakpoints().len() == 0,
            r.thread_count() == 0,
            r.hits().len() == 0,
            r.events().len() == 0,
            r.skipped().len() == 0,
    {
        let r = LinuxData {
            wait_queue: Vec::new(),
            current: 0,
            parent: 0,
            breakpoints: Vec::new(),
            traces,
            live: Vec::new(),
            skipped: Ghost(Seq::empty()),
            site_log: Ghost(Seq::empty()),
            resume_log: Ghost(Seq::empty()),
            timeline: Timeline::new(),
            hit_log: Ghost(Seq::empty()),
        };
        assert forall|i: int| 0 <= i < r.traces@.len() implies #[trigger] r.traces@[i].count
            == trace_hits(r.hit_log@, r.traces@[i]) by {
            match r.traces@[i].address {
                Some(a) => assert(count_in(r.hit_log@, a) == 0),
                None => {},
            }
        }
        r
    }

    /// The coverage table.
    pub fn traces_ref(&self) -> (r: &Vec<Trace>)
        ensures
            r@ == self.traces(),
    {
        &self.traces
    }

    /// Give the coverage table back at the end of a run.
    pub fn into_traces(self) -> (r: Vec<Trace>)
        ensures
            r@ == self.traces(),
    {
        self.traces
    }

    /// Threads created less threads exited so far.
    pub fn threads(&self) -> (r: usize)
        ensures
            r as int == self.thread_count(),
    {
        self.live.len()
    }

    /// The installed breakpoints.
    pub fn breakpoint_list(&self) -> (r: &Vec<Breakpoint>)
        ensures
            r@ == self.breakpoints(),
    {
        &self.breakpoints
    }

    /// The signal timeline.
    pub fn timeline(&self) -> (r: &Timeline)
        ensures
            r.events() == self.events(),
            self.wf() ==> r.wf(),
    {
        &self.timeline
    }

    /// Record `descr` for `pid` in the timeline.
    pub fn record<B: TraceControl>(&mut self, b: &mut B, pid: Pid, descr: String)
        requires
            old(self).wf(),
        ensures
            final(self).wf(),
            final(self).events().len() == old(self).events().len() + 1,
            final(self).events().last().pid == pid,
            final(self).events().last().descr@ == descr@,
            final(self).unchanged_but_timeline(*old(self)),
    {
        let e = Event::new(b, pid, descr);
        self.timeline.add_event(e);
    }

    /// This working set with `c` as the thread being processed.
    pub open spec fn unchanged_but_current(&self, o: LinuxData) -> bool {
        &&& self.queue() == o.queue()
        &&& self.parent() == o.parent()
        &&& self.breakpoints() == o.breakpoints()
        &&& self.traces() == o.traces()
        &&& self.live_threads() == o.live_threads()
        &&& self.hits() == o.hits()
        &&& self.events() == o.events()
        &&& self.logs_same(o)
    }

    /// Everything but the timeline is as in `o`.
    pub open spec fn unchanged_but_timeline(&self, o: LinuxData) -> bool {
        &&& self.queue() == o.queue()
        &&& self.current() == o.current()
        &&& self.parent() == o.parent()
        &&& self.breakpoints() == o.breakpoints()
        &&& self.traces() == o.traces()
        &&& self.live_threads() == o.live_threads()
        &&& self.hits() == o.hits()
        &&& o.events().is_prefix_of(self.events())
        &&& self.logs_same(o)
    }

    /// What the first poll of the launched child means: nothing yet, the
    /// stop of its trace request, or a failure.
    pub fn on_start_status(&mut self, status: Result<WaitStatus, TraceError>) -> (r: Result<
        Option<TestState>,
        Error,
    >)
        requires
            old(self).wf(),
        ensures
            final(self).wf(),
            status == Ok::<_, TraceError>(WaitStatus::StillAlive) ==> (r matches Ok(None))
                && *final(self) == *old(self),
            is_initial_stop(status) ==> r == Ok::<_, Error>(Some(TestState::Initialise))
                && final(self).current() == stopped_pid(status) && final(self).unchanged_but_current(*old(self)),
            status != Ok::<_, TraceError>(WaitStatus::StillAlive) && !is_initial_stop(status) ==> (r matches Err(
                Error::TestRuntime(_),
            )) && *final(self) == *old(self),
    {
        match status {
            Ok(WaitStatus::StillAlive) => Ok(None),
            Ok(WaitStatus::Stopped(child, sig)) => {
                if sig == SIGTRAP {
                    self.current = child;
                    Ok(Some(TestState::Initialise))
                } else {
                    Err(Error::TestRuntime("Unexpected signal when starting test".to_string()))
                }
            },
            Ok(_) => Err(Error::TestRuntime("Unexpected signal when starting test".to_string())),
            Err(_) => Err(Error::TestRuntime("Error when starting test".to_string())),
        }
    }
    /// Poll the launched child for its first stop.
    pub fn start<B: TraceControl>(&mut self, b: &mut B) -> (r: Result<Option<TestState>, Error>)
        requires
            old(self).wf(),
        ensures
            final(self).wf(),
            r matches Ok(Some(s)) ==> s == TestState::Initialise,
            r matches Err(e) ==> e is TestRuntime,
            r matches Ok(None) ==> *final(self) == *old(self),
            r is Err ==> *final(self) == *old(self),
            r matches Ok(Some(_)) ==> final(self).unchanged_but_current(*old(self)),
    {
        let status = b.wait_pid(self.current);
        self.on_start_status(status)
    }

    /// Take in the result of one poll of every traced thread: queue a
    /// notification, and say whether the queue is ready for dispatch.
    pub fn on_wait_status(&mut self, status: Result<WaitStatus, TraceError>) -> (r: Result<
        Option<TestState>,
        Error,
    >)
        requires
            old(self).wf(),
        ensures
            final(self).wf(),
            match status {
                Ok(s) => {
                    &&& s is StillAlive ==> *final(self) == *old(self) && r == Ok::<_, Error>(
                        if old(self).queue().len() == 0 {
                            None
                        } else {
                            Some(TestState::Stopped)
                        },
                    )
                    &&& !(s is StillAlive) ==> final(self).queue() == old(self).queue().push(s)
                        && final(self).unchanged_but_queue(*old(self)) && r == Ok::<_, Error>(
                        if ends_drain(s) {
                            Some(TestState::Stopped)
                        } else {
                            None
                        },
                    )
                },
                Err(e) => (r matches Err(Error::TestRuntime(m)) && wait_error_prefix().is_prefix_of(m@) && (e
                    == TraceError::NoSuchProcess ==> m@ == wait_error_prefix() + "ESRCH"@) && (e == TraceError::Io
                    ==> m@ == wait_error_prefix() + "EIO"@)) && *final(self) == *old(self),
            },
    {
        match status {
            Ok(WaitStatus::StillAlive) => {
                if self.wait_queue.len() == 0 {
                    Ok(None)
                } else {
                    Ok(Some(TestState::Stopped))
                }
            },
            Ok(s) => {
                self.wait_queue.push(s);
                match s {
                    WaitStatus::Exited(_, _) => Ok(Some(TestState::Stopped)),
                    WaitStatus::PtraceEvent(_, _, _) => Ok(Some(TestState::Stopped)),
                    _ => Ok(None),
                }
            },
            Err(e) => {
                let d = describe(e);
                let m = "An error occurred while waiting for response from test: ".to_string().concat(d.as_str());
                assert(m@.subrange(0, wait_error_prefix().len() as int) =~= wait_error_prefix());
                Err(Error::TestRuntime(m))
            },
        }
    }

    /// Poll every traced thread once, without blocking.
    pub fn wait<B: TraceControl>(&mut self, b: &mut B) -> (r: Result<Option<TestState>, Error>)
        requires
            old(self).wf(),
        ensures
            final(self).wf(),
            r matches Ok(Some(s)) ==> s == TestState::Stopped && final(self).queue().len() > 0,
            r matches Err(e) ==> e is TestRuntime,
            final(self).queue().len() <= old(self).queue().len() + 1,
            old(self).queue().is_prefix_of(final(self).queue()),
            final(self).unchanged_but_queue(*old(self)),
    {
        let status = b.wait_any();
        self.on_wait_status(status)
    }

    /// The index of the breakpoint at `addr`, if there is one.
    fn find_breakpoint(&self, addr: u64) -> (r: Option<usize>)
        ensures
            r matches Some(i) ==> i < self.breakpoints@.len() && self.breakpoints@[i as int].address
                == addr,
            r is None <==> !has_breakpoint(self.breakpoints@, addr),
    {
        let mut i: usize = 0;
        while i < self.breakpoints.len()
            invariant
                0 <= i <= self.breakpoints@.len(),
                forall|j: int| 0 <= j < i ==> #[trigger] self.breakpoints@[j].address != addr,
            decreases self.breakpoints@.len() - i,
        {
            if self.breakpoints[i].address == addr {
                return Some(i);
            }
            i = i + 1;
        }
        None
    }

    /// Take in the result `res` of installing a breakpoint at `addr`, an
    /// address without one: keep the new breakpoint, skip an address that
    /// already holds a trap, or say how the run fails.
    pub fn on_install(&mut self, addr: u64, res: Result<Breakpoint, BreakpointError>) -> (r: Option<Error>)
        requires
            old(self).wf(),
            !has_breakpoint(old(self).breakpoints(), addr),
            res matches Ok(bp) ==> bp.wf() && bp.armed && bp.address == addr,
        ensures
            final(self).wf(),
            res matches Ok(bp) ==> r is None && final(self).breakpoints() == old(self).breakpoints().push(bp)
                && final(self).skipped() == old(self).skipped(),
            res == Err::<Breakpoint, _>(BreakpointError::Duplicate) ==> r is None && final(self).breakpoints()
                == old(self).breakpoints() && final(self).skipped() == old(self).skipped().push(addr),
            res == Err::<Breakpoint, _>(BreakpointError::AddressUnreachable) ==> (r matches Some(
                Error::BreakpointInstall(m),
            ) && m@ == pie_hint()),
            res matches Err(e) && e != BreakpointError::Duplicate ==> (r matches Some(Error::BreakpointInstall(_)))
                && final(self).breakpoints() == old(self).breakpoints() && final(self).skipped()
                == old(self).skipped(),
            final(self).unchanged_but_breakpoints(*old(self)),
    {
        match res {
            Ok(bp) => {
                self.add_breakpoint(bp);
                None
            },
            Err(BreakpointError::Duplicate) => {
                self.skipped = Ghost(self.skipped@.push(addr));
                None
            },
            Err(BreakpointError::AddressUnreachable) => Some(
                Error::BreakpointInstall(
                    "cannot find code addresses, check that pie is disabled for your linker. If linking with gcc try adding -C link-args=-no-pie to your rust flags".to_string(),
                ),
            ),
            Err(BreakpointError::Trace(_)) => Some(
                Error::BreakpointInstall("Failed to instrument test executable".to_string()),
            ),
        }
    }

    /// Ask for the tracee's lifecycle events, install a breakpoint at each
    /// configured address and let the tracee run. An address that already
    /// has a breakpoint is skipped; installed breakpoints are never touched.
    pub fn init<B: TraceControl>(&mut self, b: &mut B) -> (r: Result<TestState, Error>)
        requires
            old(self).wf(),
        ensures
            final(self).wf(),
            r is Ok ==> r == Ok::<_, Error>(TestState::Waiting),
            r is Ok ==> all_installed(final(self).traces(), final(self).breakpoints(), final(self).skipped()),
            r matches Err(e) ==> e is NixError || e is BreakpointInstall || e is TestRuntime,
            old(self).breakpoints().is_prefix_of(final(self).breakpoints()),
            forall|k: int|
                old(self).breakpoints().len() <= k < final(self).breakpoints().len() ==> {
                    &&& (#[trigger] final(self).breakpoints()[k]).armed
                    &&& final(self).breakpoints()[k].pending@.len() == 0
                    &&& !final(self).breakpoints()[k].retired
                    &&& final(self).breakpoints()[k].original_byte != TRAP
                    &&& is_configured(old(self).traces(), final(self).breakpoints()[k].address)
                },
            final(self).queue() == old(self).queue(),
            final(self).current() == old(self).current(),
            final(self).parent() == old(self).parent(),
            final(self).traces() == old(self).traces(),
            final(self).live_threads() == old(self).live_threads(),
            final(self).hits() == old(self).hits(),
            old(self).site_requests().is_prefix_of(final(self).site_requests()),
            final(self).site_requests().len() > old(self).site_requests().len(),
            final(self).site_requests()[old(self).site_requests().len() as int] == Request::Options(old(self).current()),
            forall|k: int|
                old(self).site_requests().len() < k < final(self).site_requests().len() ==> {
                    &&& (#[trigger] final(self).site_requests()[k]) is Install
                    &&& request_pid(final(self).site_requests()[k]) == old(self).current()
                    &&& is_configured(old(self).traces(), request_addr(final(self).site_requests()[k]))
                },
            r is Ok ==> forall|i: int|
                0 <= i < old(self).traces().len() && (#[trigger] old(self).traces()[i]).address is Some
                    ==> has_breakpoint(old(self).breakpoints(), old(self).traces()[i].address->0)
                    || final(self).site_requests().contains(
                    Request::Install(old(self).current(), old(self).traces()[i].address->0),
                ),
            (r is Ok || (r matches Err(Error::TestRuntime(_)))) ==> final(self).resumes() == old(self).resumes().push(
                Request::Continue(old(self).parent(), None),
            ),
            !(r is Ok || (r matches Err(Error::TestRuntime(_)))) ==> final(self).resumes() == old(self).resumes(),
            r matches Err(Error::NixError(_)) ==> final(self).site_requests() == old(self).site_requests().push(
                Request::Options(old(self).current()),
            ) && final(self).breakpoints() == old(self).breakpoints(),
    {
        self.site_log = Ghost(self.site_log@.push(Request::Options(self.current)));
        let res = b.trace_children(self.current);
        if let Some(e) = on_options(res) {
            return Err(e);
        }
        let ghost old_bps = self.breakpoints@;
        let mut i: usize = 0;
        while i < self.traces.len()
            invariant
                0 <= i <= self.traces@.len(),
                self.wf(),
                self.traces@ == old(self).traces@,
                self.wait_queue@ == old(self).wait_queue@,
                self.current == old(self).current,
                self.parent == old(self).parent,
                self.live@ == old(self).live@,
                self.hit_log@ == old(self).hit_log@,
                self.resume_log@ == old(self).resume_log@,
                old_bps == old(self).breakpoints@,
                old_bps.is_prefix_of(self.breakpoints@),
                forall|k: int|
                    old_bps.len() <= k < self.breakpoints@.len() ==> {
                        &&& (#[trigger] self.breakpoints@[k]).armed
                        &&& self.breakpoints@[k].pending@.len() == 0
                        &&& !self.breakpoints@[k].retired
                        &&& self.breakpoints@[k].original_byte != TRAP
                        &&& is_configured(self.traces@, self.breakpoints@[k].address)
                    },
                all_installed(self.traces@.take(i as int), self.breakpoints@, self.skipped@),
                self.resume_log@ == old(self).resume_log@,
                old(self).site_log@.is_prefix_of(self.site_log@),
                self.site_log@.len() > old(self).site_log@.len(),
                self.site_log@[old(self).site_log@.len() as int] == Request::Options(old(self).current),
                forall|k: int|
                    old(self).site_log@.len() < k < self.site_log@.len() ==> {
                        &&& (#[trigger] self.site_log@[k]) is Install
                        &&& request_pid(self.site_log@[k]) == old(self).current
                        &&& is_configured(old(self).traces@, request_addr(self.site_log@[k]))
                    },
                forall|k: int|
                    old_bps.len() <= k < self.breakpoints@.len() ==> self.site_log@.contains(
                        Request::Install(old(self).current, (#[trigger] self.breakpoints@[k]).address),
                    ),
                forall|k: int|
                    0 <= k < i && (#[trigger] self.traces@[k]).address is Some ==> has_breakpoint(
                        old_bps,
                        self.traces@[k].address->0,
                    ) || self.site_log@.contains(Request::Install(old(self).current, self.traces@[k].address->0)),
            decreases self.traces@.len() - i,
        {
            let ghost bps0 = self.breakpoints@;
            let ghost sk0 = self.skipped@;
            match self.traces[i].address {
                Some(addr) => {
                    let found = self.find_breakpoint(addr);
                    let ghost sl0 = self.site_log@;
                    proof {
                        if let Some(j) = found {
                            if j >= old_bps.len() {
                                assert(self.site_log@.contains(Request::Install(old(self).current, self.breakpoints@[j as int].address)));
                            } else {
                                assert(self.breakpoints@[j as int] == old_bps[j as int]);
                                assert(has_breakpoint(old_bps, addr));
                            }
                        }
                    }
                    if found.is_none() {
                        proof {
                            assert(self.traces@[i as int].address == Some(addr));
                            assert(is_configured(old(self).traces@, addr));
                        }
                        self.site_log = Ghost(self.site_log@.push(Request::Install(self.current, addr)));
                        proof {
                            assert(self.site_log@[self.site_log@.len() - 1] == Request::Install(old(self).current, addr));
                            assert forall|k: int| 0 <= k < old(self).site_log@.len() implies self.site_log@[k] == old(self).site_log@[k] by {
                                assert(self.site_log@[k] == sl0[k]);
                            }
                            assert forall|x: Request| sl0.contains(x) implies self.site_log@.contains(x) by {
                                let w = choose|w: int| 0 <= w < sl0.len() && sl0[w] == x;
                                assert(self.site_log@[w] == x);
                            }
                        }
                        let res = Breakpoint::new(b, self.current, addr);
                        let ghost res_g = res;
                        match self.on_install(addr, res) {
                            Some(err) => return Err(err),
                            None => {},
                        }
                        proof {
                            assert(self.traces@[i as int].address == Some(addr));
                            if res_g is Ok {
                                lemma_has_breakpoint_push(bps0, res_g->Ok_0, addr);
                            }
                        }
                    }
                },
                None => {},
            }
            proof {
                let t = self.traces@.take(i + 1);
                assert forall|k: int|
                    0 <= k < t.len() && (#[trigger] t[k]).address is Some implies has_breakpoint(
                        self.breakpoints@,
                        t[k].address->0,
                    ) || self.skipped@.contains(t[k].address->0) by {
                    let a = t[k].address->0;
                    if k < i {
                        assert(self.traces@.take(i as int)[k] == t[k]);
                        if has_breakpoint(bps0, a) {
                            let j = choose|j: int| 0 <= j < bps0.len() && #[trigger] bps0[j].address == a;
                            assert(self.breakpoints@[j] == bps0[j]);
                        } else {
                            assert(sk0.contains(a));
                            let j = choose|j: int| 0 <= j < sk0.len() && sk0[j] == a;
                            assert(self.skipped@[j] == a);
                        }
                    } else {
                        if !has_breakpoint(bps0, a) && !has_breakpoint(self.breakpoints@, a) {
                            assert(self.skipped@[self.skipped@.len() - 1] == a);
                        } else if has_breakpoint(bps0, a) {
                            let j = choose|j: int| 0 <= j < bps0.len() && #[trigger] bps0[j].address == a;
                            assert(self.breakpoints@[j] == bps0[j]);
                        }
                    }
                }
            }
            i = i + 1;
        }
        assert(self.traces@.take(self.traces@.len() as int) =~= self.traces@);
        self.resume_log = Ghost(self.resume_log@.push(Request::Continue(self.parent, None)));
        match b.continue_exec(self.parent, None) {
            Ok(()) => Ok(TestState::wait_state()),
            Err(_) => Err(Error::TestRuntime("Test didn't launch correctly".to_string())),
        }
    }

    /// Add a freshly armed breakpoint at an address that has none.
    fn add_breakpoint(&mut self, bp: Breakpoint)
        requires
            old(self).wf(),
            bp.wf(),
            bp.armed,
            !has_breakpoint(old(self).breakpoints@, bp.address),
        ensures
            final(self).wf(),
            final(self).breakpoints@ == old(self).breakpoints@.push(bp),
            final(self).skipped@ == old(self).skipped@,
            final(self).unchanged_but_breakpoints(*old(self)),
    {
        let ghost a = bp.address;
        let ghost old_bps = self.breakpoints@;
        assert(count_in(self.hit_log@, a) == 0);
        self.breakpoints.push(bp);
        assert forall|x: u64| #[trigger] count_in(self.hit_log@, x) > 0 implies has_breakpoint(
            self.breakpoints@,
            x,
        ) by {
            assert(has_breakpoint(old_bps, x));
            let j = choose|j: int| 0 <= j < old_bps.len() && #[trigger] old_bps[j].address == x;
            assert(self.breakpoints@[j].address == x);
        }
        assert forall|i: int, j: int| 0 <= i < j < self.breakpoints@.len() implies #[trigger] self.breakpoints@[i].address
            != #[trigger] self.breakpoints@[j].address by {
            if j == old_bps.len() {
                assert(old_bps[i].address != a);
            }
        }
    }

    /// Everything but the queue is as in `o`.
    pub open spec fn unchanged_but_queue(&self, o: LinuxData) -> bool {
        &&& self.current() == o.current()
        &&& self.parent() == o.parent()
        &&& self.breakpoints() == o.breakpoints()
        &&& self.traces() == o.traces()
        &&& self.live_threads() == o.live_threads()
        &&& self.hits() == o.hits()
        &&& self.events() == o.events()
        &&& self.logs_same(o)
    }

    /// Everything but the breakpoints is as in `o`.
    pub open spec fn unchanged_but_breakpoints(&self, o: LinuxData) -> bool {
        &&& self.queue() == o.queue()
        &&& self.current() == o.current()
        &&& self.parent() == o.parent()
        &&& self.traces() == o.traces()
        &&& self.live_threads() == o.live_threads()
        &&& self.hits() == o.hits()
        &&& self.events() == o.events()
        &&& self.logs_same(o)
    }
    /// Count a serviced trap of the armed breakpoint at `idx`, which is now
    /// disarmed: every trace for its address goes up by one.
    fn count_hit(&mut self, idx: usize)
        requires
            old(self).wf_except_breakpoint(idx as int),
            idx < old(self).breakpoints@.len(),
            !old(self).breakpoints@[idx as int].armed,
            old(self).breakpoints@[idx as int].wf(),
            count_in(old(self).hit_log@, old(self).breakpoints@[idx as int].address) == 0,
        ensures
            final(self).wf(),
            final(self).hit_log@ == old(self).hit_log@.push(old(self).breakpoints@[idx as int].address),
            final(self).traces@.len() == old(self).traces@.len(),
            forall|j: int|
                0 <= j < final(self).traces@.len() ==> (#[trigger] final(self).traces@[j]).address
                    == old(self).traces@[j].address,
            final(self).breakpoints@ == old(self).breakpoints@,
            final(self).wait_queue@ == old(self).wait_queue@,
            final(self).current == old(self).current,
            final(self).parent == old(self).parent,
            final(self).live@ == old(self).live@,
            final(self).events() == old(self).events(),
            final(self).site_log@ == old(self).site_log@,
            final(self).resume_log@ == old(self).resume_log@,
    {
        let addr = self.breakpoints[idx].address;
        let ghost old_hits = self.hit_log@;
        let ghost new_hits = old_hits.push(addr);
        proof {
            assert forall|x: u64| #[trigger] count_in(new_hits, x) == count_in(old_hits, x) + if x
                == addr {
                1nat
            } else {
                0nat
            } by {
                lemma_count_in_push(old_hits, addr, x);
            }
        }
        let mut j: usize = 0;
        while j < self.traces.len()
            invariant
                0 <= j <= self.traces@.len(),
                self.traces@.len() == old(self).traces@.len(),
                self.breakpoints@ == old(self).breakpoints@,
                self.wait_queue@ == old(self).wait_queue@,
                self.current == old(self).current,
                self.parent == old(self).parent,
                self.live@ == old(self).live@,
                self.hit_log@ == old(self).hit_log@,
                self.site_log@ == old(self).site_log@,
                self.resume_log@ == old(self).resume_log@,
                self.timeline == old(self).timeline,
                self.site_log@ == old(self).site_log@,
                self.resume_log@ == old(self).resume_log@,
                forall|k: int|
                    0 <= k < self.traces@.len() ==> (#[trigger] self.traces@[k]).address == old(
                        self,
                    ).traces@[k].address,
                forall|k: int|
                    0 <= k < j ==> #[trigger] self.traces@[k].count == trace_hits(
                        new_hits,
                        self.traces@[k],
                    ),
                forall|k: int|
                    j <= k < self.traces@.len() ==> #[trigger] self.traces@[k].count == trace_hits(
                        old_hits,
                        self.traces@[k],
                    ),
                forall|x: u64| #[trigger] count_in(old_hits, x) <= 1,
                count_in(old_hits, addr) == 0,
                forall|x: u64| #[trigger]
                    count_in(new_hits, x) == count_in(old_hits, x) + if x == addr {
                        1nat
                    } else {
                        0nat
                    },
            decreases self.traces@.len() - j,
        {
            let mut t = self.traces[j];
            if t.address == Some(addr) {
                assert(t.count == 0);
                t.count = t.count + 1;
            }
            self.traces.set(j, t);
            j = j + 1;
        }
        self.hit_log = Ghost(new_hits);
        assert forall|x: u64| #[trigger] count_in(self.hit_log@, x) > 0 implies has_breakpoint(
            self.breakpoints@,
            x,
        ) by {
            if x == addr {
                assert(self.breakpoints@[idx as int].address == x);
            }
        }
    }

    /// `wf`, except that the breakpoint at `idx` may be disarmed while its
    /// trap is not yet counted.
    closed spec fn wf_except_breakpoint(&self, idx: int) -> bool {
        &&& self.timeline.wf()
        &&& forall|i: int| 0 <= i < self.breakpoints@.len() ==> #[trigger] self.breakpoints@[i].wf()
        &&& forall|i: int, j: int|
            0 <= i < j < self.breakpoints@.len() ==> #[trigger] self.breakpoints@[i].address
                != #[trigger] self.breakpoints@[j].address
        &&& forall|i: int|
            0 <= i < self.traces@.len() ==> #[trigger] self.traces@[i].count == trace_hits(
                self.hit_log@,
                self.traces@[i],
            )
        &&& forall|a: u64| #[trigger] count_in(self.hit_log@, a) <= 1
        &&& forall|i: int|
            0 <= i < self.breakpoints@.len() && i != idx && #[trigger] self.breakpoints@[i].armed
                ==> count_in(self.hit_log@, self.breakpoints@[i].address) == 0
        &&& forall|a: u64| #[trigger]
            count_in(self.hit_log@, a) > 0 ==> has_breakpoint(self.breakpoints@, a)
        &&& self.live@.no_duplicates()
    }
    /// Service a trap of thread `pid` at the armed breakpoint `idx`, leaving
    /// the site disarmed; the hit is counted when that succeeds.
    fn service_trap<B: TraceControl>(&mut self, b: &mut B, idx: usize, pid: Pid) -> (hit: bool)
        requires
            old(self).wf(),
            idx < old(self).breakpoints@.len(),
            old(self).breakpoints@[idx as int].armed,
        ensures
            final(self).wf(),
            final(self).same_sites(*old(self)),
            hit ==> final(self).hit_log@ == old(self).hit_log@.push(
                old(self).breakpoints@[idx as int].address,
            ) && !final(self).breakpoints@[idx as int].armed && final(self).breakpoints@[idx as int].retired
                && bumped(old(self).traces@, final(self).traces@, old(self).breakpoints@[idx as int].address),
            !hit ==> final(self).hit_log@ == old(self).hit_log@ && final(self).traces@ == old(self).traces@,
            final(self).wait_queue@ == old(self).wait_queue@,
            final(self).current == old(self).current,
            final(self).parent == old(self).parent,
            final(self).live@ == old(self).live@,
            final(self).events() == old(self).events(),
            final(self).site_log@ == old(self).site_log@.push(
                Request::Service(pid, old(self).breakpoints@[idx as int].address),
            ),
            final(self).resume_log@ == old(self).resume_log@,
    {
        let ghost old_bps = self.breakpoints@;
        self.site_log = Ghost(self.site_log@.push(Request::Service(pid, self.breakpoints@[idx as int].address)));
        let mut bp = self.breakpoints.remove(idx);
        let res = bp.process(b, pid, false);
        self.breakpoints.insert(idx, bp);
        assert(self.breakpoints@ =~= old_bps.update(idx as int, bp));
        assert forall|x: u64| #[trigger] count_in(self.hit_log@, x) > 0 implies has_breakpoint(
            self.breakpoints@,
            x,
        ) by {
            assert(has_breakpoint(old_bps, x));
            let j = choose|j: int| 0 <= j < old_bps.len() && #[trigger] old_bps[j].address == x;
            assert(self.breakpoints@[j].address == x);
        }
        assert(self.wf());
        self.on_serviced(idx, res)
    }

    /// Move thread `pid` back onto the original instruction at breakpoint
    /// `idx`.
    fn jump_back<B: TraceControl>(&mut self, b: &mut B, idx: usize, pid: Pid)
        requires
            idx < old(self).breakpoints@.len(),
        ensures
            final(self).site_log@ == old(self).site_log@.push(
                Request::JumpTo(pid, old(self).breakpoints@[idx as int].address),
            ),
            *final(self) == (LinuxData { site_log: final(self).site_log, ..*old(self) }),
    {
        self.site_log = Ghost(self.site_log@.push(Request::JumpTo(pid, self.breakpoints@[idx as int].address)));
        let _ = self.breakpoints[idx].jump_to(b, pid);
    }

    /// The trap at breakpoint `idx`, which is no longer armed, was serviced
    /// with result `res`: when that succeeded, the hit is recorded and every
    /// trace of the breakpoint's address goes up by one.
    pub fn on_serviced(&mut self, idx: usize, res: Result<(bool, TracerAction), TraceError>) -> (hit: bool)
        requires
            old(self).wf(),
            idx < old(self).breakpoints().len(),
            res is Ok ==> !old(self).breakpoints()[idx as int].armed,
            count_in(old(self).hits(), old(self).breakpoints()[idx as int].address) == 0,
        ensures
            final(self).wf(),
            hit == res is Ok,
            res is Ok ==> final(self).hits() == old(self).hits().push(old(self).breakpoints()[idx as int].address)
                && bumped(old(self).traces(), final(self).traces(), old(self).breakpoints()[idx as int].address)
                && final(self).breakpoints() == old(self).breakpoints()
                && final(self).unchanged_but_counts(*old(self)),
            res is Err ==> *final(self) == *old(self),
    {
        match res {
            Ok(_) => {
                let ghost a = self.breakpoints@[idx as int].address;
                let ghost h0 = self.hit_log@;
                self.count_hit(idx);
                proof {
                    assert forall|j: int| 0 <= j < self.traces@.len() implies (#[trigger] self.traces@[j]).address
                        == old(self).traces@[j].address && self.traces@[j].count == old(self).traces@[j].count
                        + if old(self).traces@[j].address == Some(a) {
                        1int
                    } else {
                        0int
                    } by {
                        assert(old(self).traces@[j].count == trace_hits(h0, old(self).traces@[j]));
                        assert(self.traces@[j].count == trace_hits(self.hit_log@, self.traces@[j]));
                        if let Some(x) = old(self).traces@[j].address {
                            lemma_count_in_push(h0, a, x);
                        }
                    }
                }
                true
            },
            Err(_) => false,
        }
    }

    /// Everything but the hits and the counts of the traces is as in `o`.
    pub open spec fn unchanged_but_counts(&self, o: LinuxData) -> bool {
        &&& self.queue() == o.queue()
        &&& self.current() == o.current()
        &&& self.parent() == o.parent()
        &&& self.live_threads() == o.live_threads()
        &&& self.events() == o.events()
        &&& self.logs_same(o)
    }

    /// A `SIGTRAP` stop of the current thread whose instruction pointer read
    /// gave `pc`. If the trap points at an armed breakpoint not met yet in
    /// this batch, the address joins `visited_pcs` and the trap is serviced,
    /// which counts a hit when it succeeds. At a site met already or
    /// disarmed, the thread is just moved back onto the original
    /// instruction. No hit is counted otherwise, and the thread is resumed in
    /// every case.
    pub fn on_trap<B: TraceControl>(
        &mut self,
        b: &mut B,
        pc: Result<u64, TraceError>,
        visited_pcs: &mut Vec<u64>,
    ) -> (r: Result<(TestState, TracerAction), Error>)
        requires
            old(self).wf(),
        ensures
            final(self).wf(),
            r == Ok::<_, Error>((TestState::Waiting, continue_of(old(self).current()))),
            final(self).same_sites(*old(self)),
            final(self).queue() == old(self).queue(),
            final(self).current() == old(self).current(),
            final(self).parent() == old(self).parent(),
            final(self).live_threads() == old(self).live_threads(),
            final(self).events() == old(self).events(),
            final(self).resumes() == old(self).resumes(),
            fresh_trap(pc, old(self).breakpoints(), old(visited_pcs)@) ==> final(self).site_requests() == old(
                self,
            ).site_requests().push(Request::Service(old(self).current(), trap_address(pc)->0)),
            trap_site(pc, old(self).breakpoints()) && !fresh_trap(pc, old(self).breakpoints(), old(visited_pcs)@)
                ==> final(self).site_requests() == old(self).site_requests().push(
                Request::JumpTo(old(self).current(), trap_address(pc)->0),
            ),
            !trap_site(pc, old(self).breakpoints()) ==> final(self).site_requests() == old(self).site_requests(),
            !fresh_trap(pc, old(self).breakpoints(), old(visited_pcs)@) ==> final(self).breakpoints() == old(
                self,
            ).breakpoints() && final(self).traces() == old(self).traces(),
            fresh_trap(pc, old(self).breakpoints(), old(visited_pcs)@) ==> final(visited_pcs)@ == old(
                visited_pcs,
            )@.push(trap_address(pc)->0) && (final(self).hits() == old(self).hits() || (final(self).hits()
                == old(self).hits().push(trap_address(pc)->0) && bumped(
                old(self).traces(),
                final(self).traces(),
                trap_address(pc)->0,
            ) && retired_at(final(self).breakpoints(), trap_address(pc)->0))),
            !fresh_trap(pc, old(self).breakpoints(), old(visited_pcs)@) ==> final(visited_pcs)@ == old(
                visited_pcs,
            )@ && final(self).hits() == old(self).hits(),
            final(self).hits() == old(self).hits() ==> final(self).traces() == old(self).traces(),
    {
        let current = self.current;
        if let Ok(p) = pc {
            if p >= 1 {
                let rip = p - 1;
                if let Some(idx) = self.find_breakpoint(rip) {
                    if contains_addr(visited_pcs, rip) || !self.breakpoints[idx].armed {
                        proof {
                            if armed_at(old(self).breakpoints(), rip) {
                                let i = choose|i: int| 0 <= i < self.breakpoints@.len() && #[trigger] self.breakpoints@[i].address == rip && self.breakpoints@[i].armed;
                                if i != idx {
                                    assert(self.breakpoints@[i].address != self.breakpoints@[idx as int].address);
                                }
                            }
                        }
                        self.jump_back(b, idx, current);
                    } else {
                        visited_pcs.push(rip);
                        let hit = self.service_trap(b, idx, current);
                        proof {
                            assert(armed_at(old(self).breakpoints(), rip));
                            if hit {
                                assert(self.breakpoints@[idx as int].address == rip);
                                assert(retired_at(self.breakpoints(), rip));
                            }
                        }
                    }
                }
            }
        }
        Ok((TestState::wait_state(), TracerAction::Continue(ProcessInfo::new(current, None))))
    }

    /// Each breakpoint is armed exactly when it was in `o`.
    pub open spec fn same_arming(&self, o: LinuxData) -> bool {
        &&& self.breakpoints().len() == o.breakpoints().len()
        &&& forall|i: int|
            0 <= i < self.breakpoints().len() ==> (#[trigger] self.breakpoints()[i]).armed
                == o.breakpoints()[i].armed
    }

    /// The breakpoints sit where they sat in `o`, and the traces count the
    /// same addresses.
    pub open spec fn same_sites(&self, o: LinuxData) -> bool {
        &&& self.breakpoints().len() == o.breakpoints().len()
        &&& forall|i: int|
            0 <= i < self.breakpoints().len() ==> (#[trigger] self.breakpoints()[i]).address
                == o.breakpoints()[i].address
        &&& forall|i: int|
            0 <= i < self.breakpoints().len() && !o.breakpoints()[i].armed ==> !(
            #[trigger] self.breakpoints()[i]).armed
        &&& self.traces().len() == o.traces().len()
        &&& forall|i: int|
            0 <= i < self.traces().len() ==> (#[trigger] self.traces()[i]).address
                == o.traces()[i].address
    }
    /// A `SIGTRAP` stop of the current thread: if it trapped on an armed
    /// breakpoint not yet met in this batch, service the trap and count the
    /// hit; at a site met already or disarmed, just move the thread back onto
    /// the original instruction. The thread is resumed in every case.
    pub fn collect_coverage_data<B: TraceControl>(
        &mut self,
        b: &mut B,
        visited_pcs: &mut Vec<u64>,
    ) -> (r: Result<(TestState, TracerAction), Error>)
        requires
            old(self).wf(),
        ensures
            final(self).wf(),
            r == Ok::<_, Error>((TestState::Waiting, continue_of(old(self).current()))),
            final(self).same_sites(*old(self)),
            one_hit_at_most(
                old(self).hits(),
                final(self).hits(),
                old(self).breakpoints(),
                old(visited_pcs)@,
            ),
            final(self).hits() != old(self).hits() ==> final(visited_pcs)@ == old(visited_pcs)@.push(
                final(self).hits().last(),
            ),
            old(visited_pcs)@.is_prefix_of(final(visited_pcs)@),
            final(visited_pcs)@.len() <= old(visited_pcs)@.len() + 1,
            final(self).queue() == old(self).queue(),
            final(self).current() == old(self).current(),
            final(self).parent() == old(self).parent(),
            final(self).live_threads() == old(self).live_threads(),
            final(self).events() == old(self).events(),
            site_step(old(self).site_requests(), final(self).site_requests(), old(self).current()),
            final(self).resumes() == old(self).resumes(),
            final(self).hits() == old(self).hits() ==> final(self).traces() == old(self).traces(),
    {
        let pc = b.current_instruction_pointer(self.current);
        let r = self.on_trap(b, pc, visited_pcs);
        proof {
            if self.site_requests() != old(self).site_requests() {
                assert(self.site_requests().drop_last() =~= old(self).site_requests());
            }
            if self.hits() != old(self).hits() {
                assert(self.hits().drop_last() =~= old(self).hits());
            }
        }
        r
    }
    /// A new thread was reported by `child`, with `data` the result of
    /// reading the event's message (the new thread's id): count the thread
    /// unless it is counted already, and record it in the timeline.
    pub fn on_clone(&mut self, child: Pid, rip: Option<u64>, data: Result<u64, TraceError>) -> (r: Result<
        (TestState, TracerAction),
        Error,
    >)
        requires
            old(self).wf(),
        ensures
            final(self).wf(),
            match data {
                Ok(t) => {
                    &&& r == Ok::<_, Error>((TestState::Waiting, continue_of(child)))
                    &&& final(self).live_threads() == if old(self).live_threads().contains(t as Pid) {
                        old(self).live_threads()
                    } else {
                        old(self).live_threads().push(t as Pid)
                    }
                    &&& final(self).events().len() == old(self).events().len() + 1
                    &&& final(self).events().drop_last() == old(self).events()
                    &&& final(self).events().last().pid == child
                    &&& final(self).events().last().child == Some(t as Pid)
                    &&& final(self).events().last().addr == rip
                    &&& "New Thread "@.is_prefix_of(final(self).events().last().descr@)
                },
                Err(_) => (r matches Err(Error::TestRuntime(m)) && m@ == "Error occurred upon test executable thread creation"@) && final(self).live_threads()
                    == old(self).live_threads() && final(self).events() == old(self).events(),
            },
            final(self).queue() == old(self).queue(),
            final(self).current() == old(self).current(),
            final(self).parent() == old(self).parent(),
            final(self).breakpoints() == old(self).breakpoints(),
            final(self).traces() == old(self).traces(),
            final(self).hits() == old(self).hits(),
            final(self).logs_same(*old(self)),
    {
        match data {
            Ok(t) => {
                let tid = t as Pid;
                let ev = Event::new_thread(rip, child, tid);
                let ghost old_events = self.timeline.events();
                self.timeline.add_event(ev);
                assert(self.timeline.events().drop_last() =~= old_events);
                if !contains_pid(&self.live, tid) {
                    let ghost l0 = self.live@;
                    self.live.push(tid);
                    proof {
                        assert forall|i: int, j: int| 0 <= i < j < self.live@.len() implies self.live@[i] != self.live@[j] by {
                            if j == l0.len() {
                                assert(self.live@[i] == l0[i]);
                            }
                        }
                    }
                }
                Ok((TestState::wait_state(), TracerAction::Continue(ProcessInfo::new(child, None))))
            },
            Err(_) => Err(
                Error::TestRuntime("Error occurred upon test executable thread creation".to_string()),
            ),
        }
    }

    /// Thread `child` is exiting: it is no longer counted, if it was.
    pub fn thread_exited(&mut self, child: Pid)
        requires
            old(self).wf(),
        ensures
            final(self).wf(),
            forall|x: Pid| #[trigger] final(self).live_threads().contains(x) <==> old(self).live_threads().contains(x)
                && x != child,
            final(self).thread_count() == old(self).thread_count() - if old(self).live_threads().contains(child) {
                1int
            } else {
                0int
            },
            final(self).queue() == old(self).queue(),
            final(self).current() == old(self).current(),
            final(self).parent() == old(self).parent(),
            final(self).breakpoints() == old(self).breakpoints(),
            final(self).traces() == old(self).traces(),
            final(self).hits() == old(self).hits(),
            final(self).events() == old(self).events(),
            final(self).logs_same(*old(self)),
    {
        let mut k: usize = 0;
        while k < self.live.len()
            invariant
                0 <= k <= self.live@.len(),
                *self == *old(self),
                old(self).wf(),
                self.live@.no_duplicates(),
                forall|j: int| 0 <= j < k ==> self.live@[j] != child,
            decreases self.live@.len() - k,
        {
            if self.live[k] == child {
                let ghost l0 = self.live@;
                self.live.remove(k);
                proof {
                    assert(l0.remove(k as int) == self.live@);
                    l0.remove_ensures(k as int);
                    assert forall|x: Pid| #[trigger] self.live@.contains(x) <==> l0.contains(x) && x != child by {
                        if self.live@.contains(x) {
                            let m = choose|m: int| 0 <= m < self.live@.len() && self.live@[m] == x;
                            assert(self.live@[m] == l0.remove(k as int)[m]);
                            if m < k {
                                assert(l0[m] == x);
                            } else {
                                assert(l0[m + 1] == x);
                            }
                        }
                        if l0.contains(x) && x != child {
                            let m = choose|m: int| 0 <= m < l0.len() && l0[m] == x;
                            if m < k {
                                assert(self.live@[m] == l0.remove(k as int)[m]);
                                assert(self.live@[m] == x);
                            } else {
                                assert(m != k);
                                assert(self.live@[m - 1] == l0.remove(k as int)[m - 1]);
                                assert(self.live@[m - 1] == x);
                            }
                        }
                    }
                    assert(l0.contains(child));
                    assert forall|i: int, j: int| 0 <= i < j < self.live@.len() implies self.live@[i] != self.live@[j] by {
                        let ii = if i < k { i } else { i + 1 };
                        let jj = if j < k { j } else { j + 1 };
                        assert(self.live@[i] == l0.remove(k as int)[i]);
                        assert(self.live@[j] == l0.remove(k as int)[j]);
                        assert(self.live@[i] == l0[ii]);
                        assert(self.live@[j] == l0[jj]);
                    }
                }
                return;
            }
            k = k + 1;
        }
        assert(!old(self).live@.contains(child));
    }

    /// A tracing event of thread `child`: thread creation, fork, exec or
    /// exit.
    fn handle_ptrace_event<B: TraceControl>(&mut self, b: &mut B, child: Pid, sig: i32, event: i32) -> (r: Result<
        (TestState, TracerAction),
        Error,
    >)
        requires
            old(self).wf(),
        ensures
            final(self).wf(),
            expected_outcome(old(self).parent, WaitStatus::PtraceEvent(child, sig, event)) is None
                ==> (r matches Err(Error::TestRuntime(_))) && final(self).events() == old(self).events(),
            r is Ok ==> r == Ok::<_, Error>(
                expected_outcome(old(self).parent, WaitStatus::PtraceEvent(child, sig, event))->0,
            ),
            !is_clone_event(WaitStatus::PtraceEvent(child, sig, event)) && expected_outcome(
                old(self).parent,
                WaitStatus::PtraceEvent(child, sig, event),
            ) is Some ==> r is Ok,
            threads_after(old(self).live_threads(), final(self).live_threads(), WaitStatus::PtraceEvent(child, sig, event)),
            r is Err ==> final(self).live@ == old(self).live@,
            r matches Err(e) ==> e is TestRuntime,
            event_logged(old(self).events(), final(self).events(), WaitStatus::PtraceEvent(child, sig, event)),
            final(self).wait_queue@ == old(self).wait_queue@,
            final(self).current == old(self).current,
            final(self).parent == old(self).parent,
            final(self).breakpoints@ == old(self).breakpoints@,
            final(self).traces@ == old(self).traces@,
            final(self).hit_log@ == old(self).hit_log@,
            final(self).site_log@ == old(self).site_log@,
            final(self).resume_log@ == old(self).resume_log@,
            old(self).events().is_prefix_of(final(self).events()),
    {
        let rip = match b.current_instruction_pointer(child) {
            Ok(pc) => if pc >= 1 {
                Some(pc - 1)
            } else {
                None
            },
            Err(_) => None,
        };
        if sig == SIGTRAP {
            if event == PTRACE_EVENT_CLONE {
                let data = b.get_event_data(child);
                let r = self.on_clone(child, rip, data);
                proof {
                    if r is Ok {
                        assert(old(self).events().is_prefix_of(self.events()));
                    }
                }
                r
            } else if event == PTRACE_EVENT_FORK || event == PTRACE_EVENT_VFORK {
                self.record(b, child, "Fork Event".to_string());
                Ok((TestState::wait_state(), TracerAction::Continue(ProcessInfo::new(child, None))))
            } else if event == PTRACE_EVENT_EXEC {
                self.record(b, child, "Exec Event".to_string());
                Ok((TestState::wait_state(), TracerAction::Detach(ProcessInfo::new(child, None))))
            } else if event == PTRACE_EVENT_EXIT {
                self.record(b, child, "EXIT".to_string());
                self.thread_exited(child);
                Ok((TestState::wait_state(), TracerAction::TryContinue(ProcessInfo::new(child, None))))
            } else {
                Err(Error::TestRuntime("Unrecognised ptrace event ".to_string().concat(event.to_string().as_str())))
            }
        } else {
            Err(Error::TestRuntime("Unexpected signal with ptrace event".to_string()))
        }
    }

    /// A thread killed by a signal: only a late trap that dumped core is
    /// harmless.
    pub fn handle_signaled(&self, pid: Pid, sig: i32, flag: bool) -> (r: Result<
        (TestState, TracerAction),
        Error,
    >)
        ensures
            sig == SIGTRAP && flag ==> r == Ok::<_, Error>((TestState::Waiting, continue_of(pid))),
            !(sig == SIGTRAP && flag) ==> (r matches Err(Error::StateMachine(m)) && m@ == "Unexpected stop"@),
    {
        if sig == SIGTRAP && flag {
            Ok((TestState::wait_state(), TracerAction::Continue(ProcessInfo::new(pid, None))))
        } else {
            Err(Error::StateMachine("Unexpected stop".to_string()))
        }
    }

    /// Thread `pid` is gone: drop it from every breakpoint's step-over
    /// bookkeeping.
    fn thread_gone(&mut self, pid: Pid)
        requires
            old(self).wf(),
        ensures
            final(self).wf(),
            final(self).same_sites(*old(self)),
            forall|i: int|
                0 <= i < final(self).breakpoints@.len() ==> (#[trigger] final(self).breakpoints@[i]).armed
                    == old(self).breakpoints@[i].armed,
            forall|i: int|
                0 <= i < final(self).breakpoints@.len() ==> !(#[trigger] final(self).breakpoints@[i]).pending@.contains(pid),
            final(self).wait_queue@ == old(self).wait_queue@,
            final(self).current == old(self).current,
            final(self).parent == old(self).parent,
            final(self).traces@ == old(self).traces@,
            final(self).live@ == old(self).live@,
            final(self).hit_log@ == old(self).hit_log@,
            final(self).site_log@ == old(self).site_log@,
            final(self).resume_log@ == old(self).resume_log@,
            final(self).events() == old(self).events(),
    {
        let mut i: usize = 0;
        while i < self.breakpoints.len()
            invariant
                0 <= i <= self.breakpoints@.len(),
                self.wf(),
                self.same_sites(*old(self)),
                forall|k: int|
                    0 <= k < self.breakpoints@.len() ==> (#[trigger] self.breakpoints@[k]).armed
                        == old(self).breakpoints@[k].armed,
                forall|k: int|
                    0 <= k < i ==> !(#[trigger] self.breakpoints@[k]).pending@.contains(pid),
                self.wait_queue@ == old(self).wait_queue@,
                self.current == old(self).current,
                self.parent == old(self).parent,
                self.traces@ == old(self).traces@,
                self.live@ == old(self).live@,
                self.hit_log@ == old(self).hit_log@,
                self.site_log@ == old(self).site_log@,
                self.resume_log@ == old(self).resume_log@,
                self.timeline == old(self).timeline,
            decreases self.breakpoints@.len() - i,
        {
            let ghost before = self.breakpoints@;
            let mut bp = self.breakpoints.remove(i);
            bp.thread_killed(pid);
            self.breakpoints.insert(i, bp);
            assert(self.breakpoints@ =~= before.update(i as int, bp));
            assert(!bp.pending@.contains(pid)) by {
                if bp.pending@.contains(pid) {
                    assert(bp.pending@.len() == 1);
                    assert(bp.pending@[0] == pid);
                    assert(before[i as int].pending@ =~= seq![pid]);
                }
            }
            assert forall|x: u64| #[trigger] count_in(self.hit_log@, x) > 0 implies has_breakpoint(
                self.breakpoints@,
                x,
            ) by {
                assert(has_breakpoint(before, x));
                let j = choose|j: int| 0 <= j < before.len() && #[trigger] before[j].address == x;
                assert(self.breakpoints@[j].address == x);
            }
            i = i + 1;
        }
    }

    /// Thread or process `child` exited with `code`: the run ends when it is
    /// the test process itself.
    fn handle_exited<B: TraceControl>(&mut self, b: &mut B, child: Pid, code: i32) -> (r: Result<
        (TestState, TracerAction),
        Error,
    >)
        requires
            old(self).wf(),
        ensures
            final(self).wf(),
            r == Ok::<_, Error>(expected_outcome(old(self).parent, WaitStatus::Exited(child, code))->0),
            final(self).same_sites(*old(self)),
            final(self).same_arming(*old(self)),
            final(self).wait_queue@ == old(self).wait_queue@,
            final(self).current == old(self).current,
            final(self).parent == old(self).parent,
            final(self).live@ == old(self).live@,
            final(self).hit_log@ == old(self).hit_log@,
            final(self).site_log@ == old(self).site_log@,
            final(self).resume_log@ == old(self).resume_log@,
            old(self).events().is_prefix_of(final(self).events()),
            final(self).traces@ == old(self).traces@,
            noted(final(self).events(), child, "EXITED "@),
    {
        let descr = "EXITED ".to_string().concat(code.to_string().as_str());
        assert(descr@.subrange(0, "EXITED "@.len() as int) =~= "EXITED "@);
        self.record(b, child, descr);
        proof {
            lemma_noted_last(self.events(), child, "EXITED "@);
        }
        self.thread_gone(child);
        if child == self.parent {
            Ok((TestState::End(code), TracerAction::Nothing))
        } else {
            Ok((TestState::wait_state(), TracerAction::TryContinue(ProcessInfo::new(self.parent, None))))
        }
    }
    /// Handle one notification: compute the next state and the action owed
    /// to the thread it concerns.
    pub fn handle_status<B: TraceControl>(
        &mut self,
        b: &mut B,
        status: WaitStatus,
        visited_pcs: &mut Vec<u64>,
    ) -> (r: Result<(TestState, TracerAction), Error>)
        requires
            old(self).wf(),
        ensures
            final(self).wf(),
            expected_outcome(old(self).parent(), status) is None ==> (r matches Err(
                Error::TestRuntime(_),
            )),
            r is Ok ==> r == Ok::<_, Error>(expected_outcome(old(self).parent(), status)->0),
            !is_clone_event(status) && expected_outcome(old(self).parent(), status) is Some
                ==> r is Ok,
            r matches Err(e) ==> e is TestRuntime,
            threads_after(old(self).live_threads(), final(self).live_threads(), status),
            r is Err ==> final(self).live_threads() == old(self).live_threads(),
            event_logged(old(self).events(), final(self).events(), status),
            is_trap_stop(status) ==> final(self).current() == status->Stopped_0,
            !is_trap_stop(status) ==> final(self).current() == old(self).current(),
            is_trap_stop(status) ==> one_hit_at_most(
                old(self).hits(),
                final(self).hits(),
                old(self).breakpoints(),
                old(visited_pcs)@,
            ),
            !is_trap_stop(status) ==> final(self).hits() == old(self).hits(),
            !is_trap_stop(status) ==> final(self).same_arming(*old(self)),
            final(self).hits() != old(self).hits() ==> final(visited_pcs)@ == old(visited_pcs)@.push(
                final(self).hits().last(),
            ),
            old(visited_pcs)@.is_prefix_of(final(visited_pcs)@),
            final(self).same_sites(*old(self)),
            final(self).queue() == old(self).queue(),
            final(self).parent() == old(self).parent(),
            old(self).events().is_prefix_of(final(self).events()),
            notes(status) ==> noted(final(self).events(), note_pid(status), note_text(status)),
            !is_trap_stop(status) ==> final(self).traces() == old(self).traces(),
            final(self).resumes() == old(self).resumes(),
            is_trap_stop(status) ==> site_step(old(self).site_requests(), final(self).site_requests(), note_pid(status)),
            !is_trap_stop(status) ==> final(self).site_requests() == old(self).site_requests(),
            status matches WaitStatus::Stopped(_, s) && s == SIGSEGV ==> (r matches Err(Error::TestRuntime(m))
                && m@ == segfault_message()),
    {
        match status {
            WaitStatus::PtraceEvent(c, s, e) => {
                let r = self.handle_ptrace_event(b, c, s, e);
                proof {
                    if notes(status) {
                        lemma_prefix_refl(event_text(e));
                        lemma_noted_last(self.events(), c, event_text(e));
                    }
                }
                r
            },
            WaitStatus::Stopped(c, s) => {
                if s == SIGTRAP {
                    self.record(b, c, "SIGTRAP".to_string());
                    proof {
                        lemma_prefix_refl("SIGTRAP"@);
                        lemma_noted_last(self.events(), c, "SIGTRAP"@);
                    }
                    self.current = c;
                    self.collect_coverage_data(b, visited_pcs)
                } else if s == SIGSTOP {
                    self.record(b, c, "SIGSTOP".to_string());
                    proof {
                        lemma_prefix_refl("SIGSTOP"@);
                        lemma_noted_last(self.events(), c, "SIGSTOP"@);
                    }
                    Ok((TestState::wait_state(), TracerAction::Continue(ProcessInfo::new(c, None))))
                } else if s == SIGSEGV {
                    self.record(b, c, "SIGSEGV".to_string());
                    proof {
                        lemma_prefix_refl("SIGSEGV"@);
                        lemma_noted_last(self.events(), c, "SIGSEGV"@);
                    }
                    Err(Error::TestRuntime("A segfault occurred while executing tests".to_string()))
                } else if s == SIGILL {
                    self.record(b, c, "SIGILL".to_string());
                    proof {
                        lemma_prefix_refl("SIGILL"@);
                        lemma_noted_last(self.events(), c, "SIGILL"@);
                    }
                    Err(Error::TestRuntime("Error running test - SIGILL raised in ".to_string().concat(c.to_string().as_str())))
                } else {
                    Ok((TestState::wait_state(), TracerAction::TryContinue(ProcessInfo::new(c, Some(s)))))
                }
            },
            WaitStatus::Signaled(c, s, f) => match self.handle_signaled(c, s, f) {
                Ok(x) => Ok(x),
                Err(_) => Err(
                    Error::TestRuntime("Attempting to handle the tracee being signaled".to_string()),
                ),
            },
            WaitStatus::Exited(c, code) => self.handle_exited(b, c, code),
            _ => Err(
                Error::TestRuntime("An unexpected signal has been caught by the tracer".to_string()),
            ),
        }
    }
    /// Handle every queued notification in order, emptying the queue. Each
    /// notification that does not fail yields exactly one action; the result
    /// is that of the last notification whose outcome is an end of the run or
    /// a failure, or `Waiting` when there is none.
    pub fn dispatch<B: TraceControl>(&mut self, b: &mut B) -> (r: (Vec<TracerAction>, Result<TestState, Error>))
        requires
            old(self).wf(),
        ensures
            final(self).wf(),
            final(self).queue().len() == 0,
            final(self).parent() == old(self).parent(),
            final(self).same_sites(*old(self)),
            r.0@.len() <= old(self).queue().len(),
            settled(old(self).parent(), old(self).queue()) ==> r.1 is Ok,
            settled(old(self).parent(), old(self).queue()) ==> r.0@.len() == old(self).queue().len(),
            settled(old(self).parent(), old(self).queue()) ==> forall|i: int|
                0 <= i < r.0@.len() ==> #[trigger] r.0@[i] == expected_action(
                    old(self).parent(),
                    old(self).queue()[i],
                ),
            no_clone(old(self).queue()) ==> (r.1 is Ok <==> batch_result(old(self).parent(), old(self).queue()) is Some),
            no_clone(old(self).queue()) ==> (r.1 matches Ok(s) ==> batch_result(old(self).parent(), old(self).queue()) == Some(s)),
            r.1 matches Ok(s) ==> s == TestState::Waiting || s is End,
            r.1 matches Err(e) ==> e is TestRuntime,
            old(self).events().is_prefix_of(final(self).events()),
            batch_result(old(self).parent(), old(self).queue()) is None ==> r.1 is Err,
            r.1 matches Ok(s) ==> batch_result(old(self).parent(), old(self).queue()) == Some(s),
            final(self).resumes() == old(self).resumes(),
            old(self).site_requests().is_prefix_of(final(self).site_requests()),
            forall|k: int|
                old(self).site_requests().len() <= k < final(self).site_requests().len() ==> (
                #[trigger] final(self).site_requests()[k] is Service || final(self).site_requests()[k] is JumpTo),
            old(self).hits().is_prefix_of(final(self).hits()),
            forall|k: int|
                old(self).hits().len() <= k < final(self).hits().len() ==> armed_at(
                    old(self).breakpoints(),
                    #[trigger] final(self).hits()[k],
                ),
            final(self).hits().len() <= old(self).hits().len() + trap_count(old(self).queue()),
            trap_count(old(self).queue()) == 0 ==> final(self).site_requests() == old(self).site_requests()
                && final(self).hits() == old(self).hits() && final(self).traces() == old(self).traces()
                && final(self).same_arming(*old(self)),
            forall|x: Pid|
                old(self).live_threads().contains(x) && !exited_in(old(self).queue(), x) ==> #[trigger] final(self).live_threads().contains(x),
            no_clone(old(self).queue()) ==> forall|x: Pid| #[trigger]
                final(self).live_threads().contains(x) ==> old(self).live_threads().contains(x) && !exited_in(
                    old(self).queue(),
                    x,
                ),
            no_clone(old(self).queue()) && (forall|x: Pid|
                #[trigger] old(self).live_threads().contains(x) ==> exited_in(old(self).queue(), x))
                ==> final(self).thread_count() == 0,
            forall|k: int|
                0 <= k < old(self).queue().len() && notes(#[trigger] old(self).queue()[k]) ==> noted(
                    final(self).events(),
                    note_pid(old(self).queue()[k]),
                    note_text(old(self).queue()[k]),
                ),
    {
        let mut pending: Vec<WaitStatus> = Vec::new();
        std::mem::swap(&mut pending, &mut self.wait_queue);
        let ghost q = pending@;
        let ghost parent = self.parent;
        let mut actions: Vec<TracerAction> = Vec::new();
        let mut visited_pcs: Vec<u64> = Vec::new();
        let mut result: Result<TestState, Error> = Ok(TestState::wait_state());
        let mut i: usize = 0;
        while i < pending.len()
            invariant
                0 <= i <= pending@.len(),
                pending@ == q,
                q == old(self).queue(),
                self.wf(),
                self.queue().len() == 0,
                self.parent == parent,
                parent == old(self).parent,
                self.same_sites(*old(self)),
                old(self).events().is_prefix_of(self.events()),
                actions@.len() <= i,
                settled(parent, q.take(i as int)) ==> actions@.len() == i,
                settled(parent, q.take(i as int)) ==> forall|k: int|
                    0 <= k < actions@.len() ==> #[trigger] actions@[k] == expected_action(
                        parent,
                        q[k],
                    ),
                no_clone(q.take(i as int)) ==> (result is Ok <==> batch_result(parent, q.take(i as int)) is Some),
                no_clone(q.take(i as int)) ==> (result matches Ok(s) ==> batch_result(parent, q.take(i as int)) == Some(s)),
                result matches Ok(s) ==> s == TestState::Waiting || s is End,
                result matches Err(e) ==> e is TestRuntime,
                batch_result(parent, q.take(i as int)) is None ==> result is Err,
                result matches Ok(s) ==> batch_result(parent, q.take(i as int)) == Some(s),
                self.resumes() == old(self).resumes(),
                old(self).site_requests().is_prefix_of(self.site_requests()),
                forall|k: int|
                    old(self).site_requests().len() <= k < self.site_requests().len() ==> (
                    #[trigger] self.site_requests()[k] is Service || self.site_requests()[k] is JumpTo),
                old(self).hits().is_prefix_of(self.hits()),
                forall|k: int|
                    old(self).hits().len() <= k < self.hits().len() ==> armed_at(
                        old(self).breakpoints(),
                        #[trigger] self.hits()[k],
                    ),
                self.hits().len() <= old(self).hits().len() + trap_count(q.take(i as int)),
                trap_count(q.take(i as int)) == 0 ==> self.site_requests() == old(self).site_requests()
                    && self.hits() == old(self).hits() && self.traces() == old(self).traces()
                    && self.same_arming(*old(self)),
                forall|x: Pid|
                    old(self).live_threads().contains(x) && !exited_in(q.take(i as int), x)
                        ==> #[trigger] self.live_threads().contains(x),
                no_clone(q.take(i as int)) ==> forall|x: Pid| #[trigger]
                    self.live_threads().contains(x) ==> old(self).live_threads().contains(x) && !exited_in(
                        q.take(i as int),
                        x,
                    ),
                forall|k: int|
                    0 <= k < i && notes(#[trigger] q[k]) ==> noted(self.events(), note_pid(q[k]), note_text(q[k])),
            decreases pending@.len() - i,
        {
            let status = pending[i];
            let ghost before = *self;
            let outcome = self.handle_status(b, status, &mut visited_pcs);
            let ghost out_g = outcome;
            proof {
                let t = q.take(i as int + 1);
                let p = q.take(i as int);
                assert(t.drop_last() =~= p);
                assert(t.last() == status);
                assert(trap_count(t) == trap_count(p) + if is_trap_stop(status) {
                    1nat
                } else {
                    0nat
                });
                assert forall|k: int| 0 <= k < i implies #[trigger] p[k] == t[k] by {}
                assert forall|x: Pid| #[trigger] exited_in(t, x) <==> exited_in(p, x) || status
                    == WaitStatus::PtraceEvent(x, SIGTRAP, PTRACE_EVENT_EXIT) by {
                    if exited_in(t, x) {
                        let k = choose|k: int| 0 <= k < t.len() && #[trigger] t[k] == WaitStatus::PtraceEvent(x, SIGTRAP, PTRACE_EVENT_EXIT);
                        if k < i {
                            assert(p[k] == t[k]);
                        }
                    }
                    if exited_in(p, x) {
                        let k = choose|k: int| 0 <= k < p.len() && #[trigger] p[k] == WaitStatus::PtraceEvent(x, SIGTRAP, PTRACE_EVENT_EXIT);
                        assert(t[k] == p[k]);
                    }
                    if status == WaitStatus::PtraceEvent(x, SIGTRAP, PTRACE_EVENT_EXIT) {
                        assert(t[i as int] == status);
                    }
                }
                // threads
                assert forall|x: Pid|
                    old(self).live_threads().contains(x) && !exited_in(t, x) implies #[trigger] self.live_threads().contains(x) by {
                    assert(before.live_threads().contains(x));
                    if is_clone_event(status) {
                        let j = choose|j: int| 0 <= j < before.live_threads().len() && before.live_threads()[j] == x;
                        assert(self.live_threads()[j] == x);
                    }
                }
                if no_clone(t) {
                    assert(!is_clone_event(t[i as int]));
                    assert forall|k: int| 0 <= k < i implies !is_clone_event(#[trigger] p[k]) by {
                        assert(!is_clone_event(t[k]));
                    }
                }
                // hits
                if self.hits() != before.hits() {
                    let a = self.hits().last();
                    let w = choose|w: int| 0 <= w < before.breakpoints().len() && #[trigger] before.breakpoints()[w].address == a && before.breakpoints()[w].armed;
                    assert(old(self).breakpoints()[w].armed);
                    assert(old(self).breakpoints()[w].address == a);
                    assert(armed_at(old(self).breakpoints(), a));
                    assert forall|k: int|
                        old(self).hits().len() <= k < self.hits().len() implies armed_at(
                            old(self).breakpoints(),
                            #[trigger] self.hits()[k],
                        ) by {
                        if k < before.hits().len() {
                            assert(self.hits()[k] == before.hits()[k]);
                        }
                    }
                    assert(old(self).hits().is_prefix_of(self.hits())) by {
                        assert forall|k: int| 0 <= k < old(self).hits().len() implies self.hits()[k] == old(self).hits()[k] by {
                            assert(self.hits()[k] == before.hits()[k]);
                        }
                    }
                }
                if self.site_requests() != before.site_requests() {
                    assert forall|k: int| 0 <= k < old(self).site_requests().len() implies self.site_requests()[k]
                        == old(self).site_requests()[k] by {
                        assert(self.site_requests()[k] == before.site_requests()[k]);
                    }
                    assert forall|k: int|
                        old(self).site_requests().len() <= k < self.site_requests().len() implies (
                        #[trigger] self.site_requests()[k] is Service || self.site_requests()[k] is JumpTo) by {
                        if k < before.site_requests().len() {
                            assert(self.site_requests()[k] == before.site_requests()[k]);
                        }
                    }
                }
                // timeline
                assert forall|k: int|
                    0 <= k < i + 1 && notes(#[trigger] q[k]) implies noted(self.events(), note_pid(q[k]), note_text(q[k])) by {
                    if k < i {
                        lemma_noted_grow(before.events(), self.events(), note_pid(q[k]), note_text(q[k]));
                    }
                }
                lemma_batch_result_kind(parent, t);
            }
            proof {
                let t = q.take(i as int + 1);
                assert(t.drop_last() =~= q.take(i as int));
                assert(t.last() == status);
                assert forall|k: int| 0 <= k < i implies #[trigger] q.take(i as int)[k] == t[k] by {}
                if no_clone(t) {
                    assert(!is_clone_event(t[i as int]));
                    assert forall|k: int| 0 <= k < i implies !is_clone_event(#[trigger] q.take(i as int)[k]) by {
                        assert(!is_clone_event(t[k]));
                    }
                }
                if settled(parent, t) {
                    assert(!is_clone_event(t[i as int]) && expected_outcome(parent, t[i as int]) is Some);
                    assert forall|k: int| 0 <= k < i implies !is_clone_event(#[trigger] q.take(i as int)[k])
                        && expected_outcome(parent, q.take(i as int)[k]) is Some by {
                        assert(!is_clone_event(t[k]) && expected_outcome(parent, t[k]) is Some);
                    }
                }
                lemma_batch_result_kind(parent, t);
            }
            match outcome {
                Ok((state, action)) => {
                    actions.push(action);
                    match state {
                        TestState::Waiting => {},
                        _ => {
                            result = Ok(state);
                        },
                    }
                },
                Err(e) => {
                    result = Err(e);
                },
            }
            i = i + 1;
        }
        proof {
            assert(q.take(q.len() as int) =~= q);
            if no_clone(q) && (forall|x: Pid| #[trigger] old(self).live_threads().contains(x) ==> exited_in(q, x)) {
                if self.live_threads().len() > 0 {
                    assert(self.live_threads().contains(self.live_threads()[0]));
                }
            }
            if settled(parent, q) {
                assert forall|k: int| 0 <= k < q.len() implies !is_clone_event(#[trigger] q[k]) by {
                    assert(!is_clone_event(q[k]) && expected_outcome(parent, q[k]) is Some);
                }
                lemma_settled_batch_succeeds(parent, q);
            }
        }
        (actions, result)
    }

    /// Carry out `actions` in order. A failed `TryContinue` is ignored, as
    /// is a thread that is already gone; any other failure ends the run.
    /// Says whether any thread was resumed, stepped or detached.
    pub fn apply_actions<B: TraceControl>(&mut self, b: &mut B, actions: &Vec<TracerAction>) -> (r: Result<bool, Error>)
        requires
            old(self).wf(),
        ensures
            final(self).wf(),
            final(self).queue() == old(self).queue(),
            final(self).current() == old(self).current(),
            final(self).parent() == old(self).parent(),
            final(self).breakpoints() == old(self).breakpoints(),
            final(self).traces() == old(self).traces(),
            final(self).live_threads() == old(self).live_threads(),
            final(self).hits() == old(self).hits(),
            final(self).site_requests() == old(self).site_requests(),
            old(self).events().is_prefix_of(final(self).events()),
            r is Ok ==> final(self).resumes() == old(self).resumes() + requests_of(actions@),
            r is Err ==> exists|n: int|
                0 <= n < actions@.len() && may_end_run(#[trigger] actions@[n]) && final(self).resumes() == old(
                    self,
                ).resumes() + requests_of(actions@.take(n + 1)),
            r is Ok ==> forall|k: int|
                0 <= k < actions@.len() && !(#[trigger] actions@[k] is Nothing) ==> noted(
                    final(self).events(),
                    action_pid(actions@[k]),
                    action_text(actions@[k]),
                ),
            r matches Ok(c) ==> c == exists|i: int|
                0 <= i < actions@.len() && !(#[trigger] actions@[i] is Nothing),
            (forall|i: int|
                0 <= i < actions@.len() ==> (#[trigger] actions@[i] is Nothing || actions@[i] is TryContinue))
                ==> r is Ok,
            r matches Err(e) ==> e is TestRuntime,
    {
        let mut continued = false;
        let mut i: usize = 0;
        while i < actions.len()
            invariant
                0 <= i <= actions@.len(),
                self.wf(),
                self.queue() == old(self).queue(),
                self.current() == old(self).current(),
                self.parent() == old(self).parent(),
                self.breakpoints() == old(self).breakpoints(),
                self.traces() == old(self).traces(),
                self.live_threads() == old(self).live_threads(),
                self.hits() == old(self).hits(),
                self.site_requests() == old(self).site_requests(),
                old(self).events().is_prefix_of(self.events()),
                self.resumes() == old(self).resumes() + requests_of(actions@.take(i as int)),
                forall|k: int|
                    0 <= k < i && !(#[trigger] actions@[k] is Nothing) ==> noted(
                        self.events(),
                        action_pid(actions@[k]),
                        action_text(actions@[k]),
                    ),
                continued == exists|k: int| 0 <= k < i && !(#[trigger] actions@[k] is Nothing),
            decreases actions@.len() - i,
        {
            let a = actions[i];
            let ghost before = *self;
            proof {
                let t = actions@.take(i + 1);
                assert(t.drop_last() =~= actions@.take(i as int));
                assert(t.last() == a);
                assert(old(self).resumes() + requests_of(t) =~= self.resumes() + request_of(a));
            }
            self.resume_log = Ghost(self.resume_log@ + request_of(a));
            let res: Result<(), TraceError> = match a {
                TracerAction::TryContinue(t) => {
                    self.record(b, t.pid, "TryContinue".to_string());
                    b.continue_exec(t.pid, t.signal)
                },
                TracerAction::Continue(t) => {
                    self.record(b, t.pid, "Continue".to_string());
                    b.continue_exec(t.pid, t.signal)
                },
                TracerAction::Step(t) => {
                    self.record(b, t.pid, "Step".to_string());
                    b.single_step(t.pid)
                },
                TracerAction::Detach(t) => {
                    self.record(b, t.pid, "Detach".to_string());
                    b.detach_child(t.pid)
                },
                TracerAction::Nothing => Ok(()),
            };
            proof {
                if !(a is Nothing) {
                    lemma_prefix_refl(action_text(a));
                    lemma_noted_last(self.events(), action_pid(a), action_text(a));
                }
                assert forall|k: int|
                    0 <= k < i && !(#[trigger] actions@[k] is Nothing) implies noted(
                        self.events(),
                        action_pid(actions@[k]),
                        action_text(actions@[k]),
                    ) by {
                    lemma_noted_grow(before.events(), self.events(), action_pid(actions@[k]), action_text(actions@[k]));
                }
            }
            if action_failure(a, res) {
                proof {
                    assert(may_end_run(actions@[i as int]));
                }
                return Err(Error::TestRuntime("Failed to resume, step or detach the tracee".to_string()));
            }
            match a {
                TracerAction::Nothing => {},
                _ => {
                    continued = true;
                },
            }
            proof {
                if !continued {
                    assert forall|k: int| 0 <= k < i + 1 implies (#[trigger] actions@[k] is Nothing) by {}
                }
            }
            i = i + 1;
        }
        assert(actions@.take(actions@.len() as int) =~= actions@);
        Ok(continued)
    }

    /// Dispatch the queued notifications and carry out the actions they
    /// call for. When no thread was resumed, stepped or released, the test
    /// process is resumed so that the tracee is never left frozen.
    pub fn stop<B: TraceControl>(&mut self, b: &mut B) -> (r: Result<TestState, Error>)
        requires
            old(self).wf(),
        ensures
            final(self).wf(),
            final(self).queue().len() == 0,
            final(self).parent() == old(self).parent(),
            final(self).same_sites(*old(self)),
            batch_result(old(self).parent(), old(self).queue()) is None ==> r is Err,
            no_clone(old(self).queue()) ==> (r matches Ok(s) ==> batch_result(old(self).parent(), old(self).queue()) == Some(s)),
            r matches Ok(s) ==> batch_result(old(self).parent(), old(self).queue()) == Some(s),
            quiet(old(self).parent(), old(self).queue()) ==> r == Ok::<_, Error>(
                batch_result(old(self).parent(), old(self).queue())->0,
            ),
            r matches Ok(s) ==> s == TestState::Waiting || s is End,
            r matches Err(e) ==> e is TestRuntime,
            settled(old(self).parent(), old(self).queue()) && r is Ok ==> final(self).resumes() == old(
                self,
            ).resumes() + requests_of(expected_actions(old(self).parent(), old(self).queue())) + fallback(
                old(self).parent(),
                expected_actions(old(self).parent(), old(self).queue()),
            ),
            settled(old(self).parent(), old(self).queue()) && r is Err ==> exists|n: int|
                0 <= n < old(self).queue().len() && may_end_run(
                    #[trigger] expected_actions(old(self).parent(), old(self).queue())[n],
                ) && final(self).resumes() == old(self).resumes() + requests_of(
                    expected_actions(old(self).parent(), old(self).queue()).take(n + 1),
                ),
            settled(old(self).parent(), old(self).queue()) && r is Ok ==> forall|k: int|
                0 <= k < old(self).queue().len() && !(#[trigger] expected_action(
                    old(self).parent(),
                    old(self).queue()[k],
                ) is Nothing) ==> noted(
                    final(self).events(),
                    action_pid(expected_action(old(self).parent(), old(self).queue()[k])),
                    action_text(expected_action(old(self).parent(), old(self).queue()[k])),
                ),
            old(self).site_requests().is_prefix_of(final(self).site_requests()),
            forall|k: int|
                old(self).site_requests().len() <= k < final(self).site_requests().len() ==> (
                #[trigger] final(self).site_requests()[k] is Service || final(self).site_requests()[k] is JumpTo),
            old(self).hits().is_prefix_of(final(self).hits()),
            forall|k: int|
                old(self).hits().len() <= k < final(self).hits().len() ==> armed_at(
                    old(self).breakpoints(),
                    #[trigger] final(self).hits()[k],
                ),
            final(self).hits().len() <= old(self).hits().len() + trap_count(old(self).queue()),
            trap_count(old(self).queue()) == 0 ==> final(self).site_requests() == old(self).site_requests()
                && final(self).hits() == old(self).hits() && final(self).traces() == old(self).traces()
                && final(self).same_arming(*old(self)),
            forall|x: Pid|
                old(self).live_threads().contains(x) && !exited_in(old(self).queue(), x) ==> #[trigger] final(self).live_threads().contains(x),
            no_clone(old(self).queue()) ==> forall|x: Pid| #[trigger]
                final(self).live_threads().contains(x) ==> old(self).live_threads().contains(x) && !exited_in(
                    old(self).queue(),
                    x,
                ),
            no_clone(old(self).queue()) && (forall|x: Pid|
                #[trigger] old(self).live_threads().contains(x) ==> exited_in(old(self).queue(), x))
                ==> final(self).thread_count() == 0,
            forall|k: int|
                0 <= k < old(self).queue().len() && notes(#[trigger] old(self).queue()[k]) ==> noted(
                    final(self).events(),
                    note_pid(old(self).queue()[k]),
                    note_text(old(self).queue()[k]),
                ),
    {
        let ghost q = self.queue();
        let ghost parent = self.parent;
        let (actions, result) = self.dispatch(b);
        let ghost mid = *self;
        proof {
            if settled(parent, q) {
                assert(actions@ =~= expected_actions(parent, q));
            }
            if quiet(parent, q) {
                assert forall|i: int|
                    0 <= i < actions@.len() implies (#[trigger] actions@[i] is Nothing || actions@[i] is TryContinue) by {
                    assert(expected_action(parent, q[i]) is Nothing || expected_action(parent, q[i]) is TryContinue);
                }
                assert forall|k: int| 0 <= k < q.len() implies !is_clone_event(#[trigger] q[k]) by {
                    assert(!is_clone_event(q[k]) && expected_outcome(parent, q[k]) is Some);
                }
                lemma_settled_batch_succeeds(parent, q);
            }
        }
        match self.apply_actions(b, &actions) {
            Ok(continued) => {
                if !continued {
                    self.resume_log = Ghost(self.resume_log@.push(Request::Continue(self.parent, None)));
                    let _ = b.continue_exec(self.parent, None);
                }
                proof {
                    let ra = requests_of(actions@);
                    if settled(parent, q) {
                        assert forall|k: int|
                            0 <= k < q.len() && !(#[trigger] expected_action(parent, q[k]) is Nothing) implies noted(
                                self.events(),
                                action_pid(expected_action(parent, q[k])),
                                action_text(expected_action(parent, q[k])),
                            ) by {
                            assert(actions@[k] == expected_action(parent, q[k]));
                        }
                    }
                    if continued {
                        assert(fallback(parent, actions@) =~= Seq::<Request>::empty());
                        assert(self.resumes() =~= old(self).resumes() + ra + fallback(parent, actions@));
                    } else {
                        assert(fallback(parent, actions@) =~= seq![Request::Continue(parent, None)]);
                        assert(self.resumes() =~= old(self).resumes() + ra + fallback(parent, actions@));
                    }
                    assert forall|k: int|
                        0 <= k < q.len() && notes(#[trigger] q[k]) implies noted(self.events(), note_pid(q[k]), note_text(q[k])) by {
                        lemma_noted_grow(mid.events(), self.events(), note_pid(q[k]), note_text(q[k]));
                    }
                }
                result
            },
            Err(e) => {
                proof {
                    assert forall|k: int|
                        0 <= k < q.len() && notes(#[trigger] q[k]) implies noted(self.events(), note_pid(q[k]), note_text(q[k])) by {
                        lemma_noted_grow(mid.events(), self.events(), note_pid(q[k]), note_text(q[k]));
                    }
                }
                Err(e)
            },
        }
    }
}

/// A batch whose notifications are all handled without failure succeeds.
pub proof fn lemma_settled_batch_succeeds(parent: Pid, q: Seq<WaitStatus>)
    requires
        settled(parent, q),
    ensures
        batch_result(parent, q) is Some,
    decreases q.len(),
{
    if q.len() > 0 {
        assert(expected_outcome(parent, q[q.len() - 1]) is Some);
        assert forall|k: int| 0 <= k < q.drop_last().len() implies !is_clone_event(#[trigger] q.drop_last()[k])
            && expected_outcome(parent, q.drop_last()[k]) is Some by {
            assert(q.drop_last()[k] == q[k]);
            assert(!is_clone_event(q[k]) && expected_outcome(parent, q[k]) is Some);
        }
        lemma_settled_batch_succeeds(parent, q.drop_last());
    }
}

impl TestState {
    /// One transition of the tracer.
    pub fn step<B: TraceControl>(self, data: &mut LinuxData, b: &mut B) -> (r: Result<TestState, Error>)
        requires
            old(data).wf(),
        ensures
            final(data).wf(),
            final(data).parent() == old(data).parent(),
            final(data).traces().len() == old(data).traces().len(),
            r matches Ok(s) ==> can_follow(self, s),
            self == TestState::Stopped ==> final(data).queue().len() == 0,
            self == TestState::Stopped && no_clone(old(data).queue()) && batch_result(old(data).parent(), old(data).queue()) is None
                ==> r is Err,
            self == TestState::Stopped && no_clone(old(data).queue()) ==> (r matches Ok(s) ==> batch_result(
                old(data).parent(),
                old(data).queue(),
            ) == Some(s)),
            self is End ==> r == Ok::<_, Error>(self) && *final(data) == *old(data),
            self == TestState::Initialise && r is Ok ==> final(data).resumes() == old(data).resumes().push(
                Request::Continue(old(data).parent(), None),
            ) && all_installed(final(data).traces(), final(data).breakpoints(), final(data).skipped()),
            self == TestState::Stopped && quiet(old(data).parent(), old(data).queue()) ==> r == Ok::<_, Error>(
                batch_result(old(data).parent(), old(data).queue())->0,
            ),
            self == TestState::Stopped && settled(old(data).parent(), old(data).queue()) && r is Ok ==> final(data).resumes()
                == old(data).resumes() + requests_of(expected_actions(old(data).parent(), old(data).queue()))
                + fallback(old(data).parent(), expected_actions(old(data).parent(), old(data).queue())),
            self == TestState::Stopped && no_clone(old(data).queue()) && (forall|x: Pid|
                #[trigger] old(data).live_threads().contains(x) ==> exited_in(old(data).queue(), x))
                ==> final(data).thread_count() == 0,
    {
        match self {
            TestState::Start => match data.start(b) {
                Ok(Some(s)) => Ok(s),
                Ok(None) => Ok(TestState::Start),
                Err(e) => Err(e),
            },
            TestState::Initialise => data.init(b),
            TestState::Waiting => match data.wait(b) {
                Ok(Some(s)) => Ok(s),
                Ok(None) => Ok(TestState::Waiting),
                Err(e) => Err(e),
            },
            TestState::Stopped => {
                data.stop(b)
            },
            TestState::End(c) => Ok(TestState::End(c)),
        }
    }
}

impl LinuxData {
    /// Each trace's count is the number of serviced traps of an armed
    /// breakpoint at its address, and no address is counted twice: a trace
    /// whose address never trapped stays at zero.
    pub proof fn lemma_counts_are_hits(&self)
        requires
            self.wf(),
        ensures
            forall|i: int|
                0 <= i < self.traces().len() ==> #[trigger] self.traces()[i].count == trace_hits(
                    self.hits(),
                    self.traces()[i],
                ),
            forall|a: u64| #[trigger] count_in(self.hits(), a) <= 1,
            forall|i: int|
                0 <= i < self.traces().len() && (self.traces()[i].address is None
                    || !self.hits().contains(self.traces()[i].address->0)) ==> #[trigger] self.traces()[i].count
                    == 0,
    {
        assert forall|i: int|
            0 <= i < self.traces().len() && (self.traces()[i].address is None
                || !self.hits().contains(self.traces()[i].address->0)) implies #[trigger] self.traces()[i].count
            == 0 by {
            if let Some(a) = self.traces()[i].address {
                lemma_count_in_absent(self.hits(), a);
            }
        }
    }

    /// The trap byte of each breakpoint is absent only while exactly one
    /// thread steps over it, or once the site is given up for the run.
    pub proof fn lemma_trap_absent_only_while_stepping(&self)
        requires
            self.wf(),
        ensures
            forall|i: int|
                0 <= i < self.breakpoints().len() && !(#[trigger] self.breakpoints()[i]).armed
                    ==> self.breakpoints()[i].retired || self.breakpoints()[i].pending@.len() == 1,
    {
        assert forall|i: int|
            0 <= i < self.breakpoints().len() && !(#[trigger] self.breakpoints()[i]).armed
                implies self.breakpoints()[i].retired || self.breakpoints()[i].pending@.len() == 1 by {
            assert(self.breakpoints@[i].wf());
        }
    }

    /// The thread count is the number of distinct threads reported by a
    /// clone event that have not reported their exit: it is never negative,
    /// and it is back at zero once every created thread has exited.
    pub proof fn lemma_thread_count_balance(&self)
        requires
            self.wf(),
        ensures
            self.thread_count() == self.live_threads().len(),
            self.live_threads().no_duplicates(),
            self.thread_count() >= 0,
    {
    }

    /// Breakpoints sit at distinct addresses, and an armed one has never
    /// been counted.
    pub proof fn lemma_sites_distinct(&self)
        requires
            self.wf(),
        ensures
            forall|i: int, j: int|
                0 <= i < j < self.breakpoints().len() ==> #[trigger] self.breakpoints()[i].address
                    != #[trigger] self.breakpoints()[j].address,
            forall|i: int|
                0 <= i < self.breakpoints().len() && (#[trigger] self.breakpoints()[i]).armed
                    ==> count_in(self.hits(), self.breakpoints()[i].address) == 0,
    {
    }
}

} // verus!
