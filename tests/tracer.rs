use std::collections::{HashMap, VecDeque};

use minitarp::breakpoint::{patch_word, Breakpoint, BreakpointError, TRAP};
use minitarp::ptrace_control::{
    Pid, TraceControl, TraceError, WaitStatus, PTRACE_EVENT_CLONE, PTRACE_EVENT_EXEC,
    PTRACE_EVENT_EXIT, PTRACE_EVENT_FORK, SIGILL, SIGSEGV, SIGSTOP, SIGTRAP,
};
use minitarp::statemachine::linux::{
    action_failure, create_state_machine, describe, on_options, LinuxData,
};
use minitarp::statemachine::{ProcessInfo, TestState, TracerAction};
use minitarp::{traces_for, Error, Trace};

const TEST: Pid = 100;

/// A kernel held in memory: text bytes, instruction pointers and a script of
/// notifications.
struct FakeKernel {
    text: HashMap<u64, u8>,
    ips: HashMap<Pid, u64>,
    start_script: VecDeque<Result<WaitStatus, TraceError>>,
    script: VecDeque<(Result<WaitStatus, TraceError>, Option<(Pid, u64)>)>,
    event_data: u64,
    continue_error: Option<TraceError>,
    calls: Vec<String>,
}

impl FakeKernel {
    fn new() -> Self {
        FakeKernel {
            text: HashMap::new(),
            ips: HashMap::new(),
            start_script: VecDeque::new(),
            script: VecDeque::new(),
            event_data: 0,
            continue_error: None,
            calls: Vec::new(),
        }
    }

    /// Text of eight bytes starting at `address`, the first one being `first`.
    fn with_text(mut self, address: u64, first: u8) -> Self {
        for k in 0..8u64 {
            let byte = if k == 0 { first } else { 0x90 };
            self.text.insert(address + k, byte);
        }
        self
    }

    fn byte_at(&self, address: u64) -> u8 {
        self.text[&address]
    }

    fn notify(&mut self, status: WaitStatus, ip: Option<(Pid, u64)>) {
        self.script.push_back((Ok(status), ip));
    }
}

impl TraceControl for FakeKernel {
    fn trace_children(&mut self, pid: Pid) -> Result<(), TraceError> {
        self.calls.push(format!("options {}", pid));
        Ok(())
    }

    fn continue_exec(&mut self, pid: Pid, signal: Option<i32>) -> Result<(), TraceError> {
        self.calls.push(format!("continue {} {:?}", pid, signal));
        match self.continue_error {
            Some(e) => Err(e),
            None => Ok(()),
        }
    }

    fn single_step(&mut self, pid: Pid) -> Result<(), TraceError> {
        self.calls.push(format!("step {}", pid));
        Ok(())
    }

    fn detach_child(&mut self, pid: Pid) -> Result<(), TraceError> {
        self.calls.push(format!("detach {}", pid));
        Ok(())
    }

    fn read_address(&mut self, _pid: Pid, address: u64) -> Result<u64, TraceError> {
        let mut word = 0u64;
        for k in 0..8u64 {
            match self.text.get(&(address + k)) {
                Some(b) => word |= (*b as u64) << (8 * k),
                None => return Err(TraceError::Io),
            }
        }
        Ok(word)
    }

    fn write_to_address(&mut self, _pid: Pid, address: u64, data: u64) -> Result<(), TraceError> {
        for k in 0..8u64 {
            if !self.text.contains_key(&(address + k)) {
                return Err(TraceError::Io);
            }
        }
        for k in 0..8u64 {
            self.text.insert(address + k, (data >> (8 * k)) as u8);
        }
        Ok(())
    }

    fn current_instruction_pointer(&mut self, pid: Pid) -> Result<u64, TraceError> {
        self.ips.get(&pid).copied().ok_or(TraceError::NoSuchProcess)
    }

    fn set_instruction_pointer(&mut self, pid: Pid, pc: u64) -> Result<(), TraceError> {
        self.ips.insert(pid, pc);
        Ok(())
    }

    fn get_event_data(&mut self, _pid: Pid) -> Result<u64, TraceError> {
        Ok(self.event_data)
    }

    fn wait_pid(&mut self, _pid: Pid) -> Result<WaitStatus, TraceError> {
        self.start_script
            .pop_front()
            .unwrap_or(Ok(WaitStatus::StillAlive))
    }

    fn wait_any(&mut self) -> Result<WaitStatus, TraceError> {
        match self.script.pop_front() {
            Some((status, ip)) => {
                if let Some((pid, pc)) = ip {
                    self.ips.insert(pid, pc);
                }
                status
            }
            None => Ok(WaitStatus::StillAlive),
        }
    }
}

/// Drive the state machine until it ends or fails, at most `limit` steps.
fn run_to_end(data: &mut LinuxData, k: &mut FakeKernel, limit: usize) -> Result<TestState, Error> {
    let mut state = TestState::start_state();
    for _ in 0..limit {
        state = state.step(data, k)?;
        if state.is_finished() {
            return Ok(state);
        }
    }
    Ok(state)
}

fn descriptions(data: &LinuxData) -> Vec<String> {
    data.timeline()
        .event_list()
        .iter()
        .map(|e| e.descr.clone())
        .collect()
}

fn launched(addresses: &[u64], k: &mut FakeKernel) -> LinuxData {
    k.start_script.push_back(Ok(WaitStatus::Stopped(TEST, SIGTRAP)));
    let (_, data) = create_state_machine(TEST, traces_for(&addresses.to_vec()));
    data
}

#[test]
fn single_breakpoint_single_hit() {
    let mut k = FakeKernel::new().with_text(0x4010a0, 0x55);
    let mut data = launched(&[0x4010a0], &mut k);
    k.notify(WaitStatus::Stopped(TEST, SIGTRAP), Some((TEST, 0x4010a1)));
    k.notify(WaitStatus::Exited(TEST, 0), None);
    let end = run_to_end(&mut data, &mut k, 50).unwrap();
    assert_eq!(end, TestState::End(0));
    assert_eq!(data.traces_ref()[0].count, 1);
    // the original instruction is back and the thread sits on it
    assert_eq!(k.byte_at(0x4010a0), 0x55);
    assert_eq!(k.ips[&TEST], 0x4010a0);
    let d = descriptions(&data);
    assert!(d.contains(&"SIGTRAP".to_string()));
    assert!(d.contains(&"EXITED 0".to_string()));
}

#[test]
fn address_never_hit_counts_zero() {
    let mut k = FakeKernel::new().with_text(0xdeadbeef, 0x48);
    let mut data = launched(&[0xdeadbeef], &mut k);
    k.notify(WaitStatus::Exited(TEST, 0), None);
    let end = run_to_end(&mut data, &mut k, 50).unwrap();
    assert_eq!(end, TestState::End(0));
    assert_eq!(data.traces_ref()[0].count, 0);
    // still armed: no spurious hits
    assert_eq!(k.byte_at(0xdeadbeef), TRAP);
    assert!(data.breakpoint_list()[0].armed);
}

#[test]
fn trap_elsewhere_is_not_a_hit() {
    let mut k = FakeKernel::new().with_text(0x1000, 0x55);
    let mut data = launched(&[0x1000], &mut k);
    k.notify(WaitStatus::Stopped(TEST, SIGTRAP), Some((TEST, 0x2001)));
    k.notify(WaitStatus::Exited(TEST, 3), None);
    let end = run_to_end(&mut data, &mut k, 50).unwrap();
    assert_eq!(end, TestState::End(3));
    assert_eq!(data.traces_ref()[0].count, 0);
    assert_eq!(k.byte_at(0x1000), TRAP);
}

#[test]
fn position_independent_binary_aborts() {
    // nothing is mapped at the configured address
    let mut k = FakeKernel::new();
    let mut data = launched(&[0x4010a0], &mut k);
    match run_to_end(&mut data, &mut k, 10) {
        Err(Error::BreakpointInstall(msg)) => assert!(msg.contains("pie")),
        other => panic!("unexpected result {:?}", other),
    }
}

#[test]
fn segfault_aborts_with_runtime_error() {
    let mut k = FakeKernel::new().with_text(0x1000, 0x55);
    let mut data = launched(&[0x1000], &mut k);
    k.notify(WaitStatus::Stopped(TEST, SIGSEGV), None);
    match run_to_end(&mut data, &mut k, 50) {
        Err(Error::TestRuntime(msg)) => assert!(msg.contains("segfault")),
        other => panic!("unexpected result {:?}", other),
    }
    assert!(descriptions(&data).contains(&"SIGSEGV".to_string()));
    assert_eq!(data.traces_ref()[0].count, 0);
}

#[test]
fn illegal_instruction_aborts() {
    let mut k = FakeKernel::new().with_text(0x1000, 0x55);
    let mut data = launched(&[0x1000], &mut k);
    k.notify(WaitStatus::Stopped(TEST, SIGILL), None);
    assert!(matches!(
        run_to_end(&mut data, &mut k, 50),
        Err(Error::TestRuntime(_))
    ));
    assert!(descriptions(&data).contains(&"SIGILL".to_string()));
}

#[test]
fn multi_threaded_tracee() {
    let mut k = FakeKernel::new().with_text(0x1000, 0x55);
    k.event_data = 101;
    let mut data = launched(&[0x1000], &mut k);
    k.notify(
        WaitStatus::PtraceEvent(TEST, SIGTRAP, PTRACE_EVENT_CLONE),
        Some((TEST, 0x500)),
    );
    // both threads reach the breakpoint in one batch
    k.notify(WaitStatus::Stopped(TEST, SIGTRAP), Some((TEST, 0x1001)));
    k.notify(WaitStatus::Stopped(101, SIGTRAP), Some((101, 0x1001)));
    k.notify(
        WaitStatus::PtraceEvent(101, SIGTRAP, PTRACE_EVENT_EXIT),
        None,
    );
    k.notify(WaitStatus::Exited(101, 0), None);
    k.notify(WaitStatus::Exited(TEST, 0), None);
    let end = run_to_end(&mut data, &mut k, 100).unwrap();
    assert_eq!(end, TestState::End(0));
    assert!(descriptions(&data).contains(&"New Thread 101".to_string()));
    assert_eq!(data.threads(), 0);
    assert_eq!(data.traces_ref()[0].count, 1);
    // the second thread was moved back onto the original instruction
    assert_eq!(k.ips[&101], 0x1000);
}

#[test]
fn duplicate_addresses_share_one_breakpoint() {
    let mut k = FakeKernel::new().with_text(0x1000, 0x55);
    let mut data = launched(&[0x1000, 0x1000], &mut k);
    k.notify(WaitStatus::Stopped(TEST, SIGTRAP), Some((TEST, 0x1001)));
    k.notify(WaitStatus::Exited(TEST, 0), None);
    run_to_end(&mut data, &mut k, 50).unwrap();
    assert_eq!(data.breakpoint_list().len(), 1);
    assert_eq!(data.breakpoint_list()[0].original_byte, 0x55);
    let counts: Vec<usize> = data.traces_ref().iter().map(|t| t.count).collect();
    assert_eq!(counts, vec![1, 1]);
}

#[test]
fn trap_already_in_text_is_skipped() {
    let mut k = FakeKernel::new().with_text(0x1000, TRAP).with_text(0x2000, 0x31);
    let mut data = launched(&[0x1000, 0x2000], &mut k);
    k.notify(WaitStatus::Exited(TEST, 0), None);
    run_to_end(&mut data, &mut k, 50).unwrap();
    assert_eq!(data.breakpoint_list().len(), 1);
    assert_eq!(data.breakpoint_list()[0].address, 0x2000);
}

#[test]
fn fork_continues_the_child() {
    let mut k = FakeKernel::new().with_text(0x1000, 0x55);
    let mut data = launched(&[0x1000], &mut k);
    k.notify(
        WaitStatus::PtraceEvent(TEST, SIGTRAP, PTRACE_EVENT_FORK),
        Some((TEST, 0x700)),
    );
    k.notify(WaitStatus::Exited(TEST, 0), None);
    run_to_end(&mut data, &mut k, 50).unwrap();
    assert!(k.calls.contains(&"continue 100 None".to_string()));
    assert!(!k.calls.iter().any(|c| c.starts_with("detach")));
    assert!(descriptions(&data).contains(&"Fork Event".to_string()));
    assert_eq!(k.byte_at(0x1000), TRAP);
    assert!(data.breakpoint_list()[0].armed);
}

#[test]
fn exec_detaches() {
    let mut k = FakeKernel::new().with_text(0x1000, 0x55);
    let mut data = launched(&[0x1000], &mut k);
    k.notify(
        WaitStatus::PtraceEvent(TEST, SIGTRAP, PTRACE_EVENT_EXEC),
        Some((TEST, 0x700)),
    );
    k.notify(WaitStatus::Exited(TEST, 0), None);
    let end = run_to_end(&mut data, &mut k, 50).unwrap();
    assert_eq!(end, TestState::End(0));
    assert!(k.calls.contains(&"detach 100".to_string()));
    assert!(descriptions(&data).contains(&"Exec Event".to_string()));
}

#[test]
fn unexpected_first_stop_fails() {
    let mut k = FakeKernel::new();
    k.start_script.push_back(Ok(WaitStatus::Stopped(TEST, SIGSTOP)));
    let (state, mut data) = create_state_machine(TEST, traces_for(&vec![]));
    assert!(matches!(
        state.step(&mut data, &mut k),
        Err(Error::TestRuntime(_))
    ));
}

#[test]
fn start_waits_until_child_stops() {
    let mut k = FakeKernel::new();
    let (state, mut data) = create_state_machine(TEST, traces_for(&vec![]));
    assert_eq!(state.step(&mut data, &mut k).unwrap(), TestState::Start);
    k.start_script.push_back(Ok(WaitStatus::Stopped(TEST, SIGTRAP)));
    assert_eq!(
        TestState::Start.step(&mut data, &mut k).unwrap(),
        TestState::Initialise
    );
}

#[test]
fn waiting_queues_until_quiet() {
    let mut k = FakeKernel::new();
    let (_, mut data) = create_state_machine(TEST, traces_for(&vec![]));
    k.notify(WaitStatus::Stopped(TEST, SIGSTOP), None);
    assert_eq!(data.wait(&mut k).unwrap(), None);
    assert_eq!(data.wait(&mut k).unwrap(), Some(TestState::Stopped));
    k.notify(WaitStatus::Exited(TEST, 0), None);
    assert_eq!(
        data.on_wait_status(Ok(WaitStatus::Exited(TEST, 0))).unwrap(),
        Some(TestState::Stopped)
    );
    assert!(matches!(
        data.on_wait_status(Err(TraceError::Other(10))),
        Err(Error::TestRuntime(_))
    ));
}

#[test]
fn foreign_signal_is_forwarded() {
    let mut k = FakeKernel::new();
    let (_, mut data) = create_state_machine(TEST, traces_for(&vec![]));
    let mut visited = Vec::new();
    let r = data
        .handle_status(&mut k, WaitStatus::Stopped(TEST, 10), &mut visited)
        .unwrap();
    assert_eq!(
        r,
        (
            TestState::Waiting,
            TracerAction::TryContinue(ProcessInfo::new(TEST, Some(10)))
        )
    );
}

#[test]
fn group_stop_continues() {
    let mut k = FakeKernel::new();
    let (_, mut data) = create_state_machine(TEST, traces_for(&vec![]));
    let mut visited = Vec::new();
    let r = data
        .handle_status(&mut k, WaitStatus::Stopped(7, SIGSTOP), &mut visited)
        .unwrap();
    assert_eq!(
        r,
        (TestState::Waiting, TracerAction::Continue(ProcessInfo::new(7, None)))
    );
}

#[test]
fn late_trap_after_detach_is_benign() {
    let mut k = FakeKernel::new();
    let (_, mut data) = create_state_machine(TEST, traces_for(&vec![]));
    let mut visited = Vec::new();
    let r = data
        .handle_status(&mut k, WaitStatus::Signaled(9, SIGTRAP, true), &mut visited)
        .unwrap();
    assert_eq!(
        r,
        (TestState::Waiting, TracerAction::Continue(ProcessInfo::new(9, None)))
    );
    assert!(matches!(
        data.handle_status(&mut k, WaitStatus::Signaled(9, 9, false), &mut visited),
        Err(Error::TestRuntime(_))
    ));
    assert!(matches!(
        data.handle_signaled(9, SIGSEGV, true),
        Err(Error::StateMachine(_))
    ));
}

#[test]
fn unknown_ptrace_event_fails() {
    let mut k = FakeKernel::new();
    let (_, mut data) = create_state_machine(TEST, traces_for(&vec![]));
    let mut visited = Vec::new();
    assert!(matches!(
        data.handle_status(&mut k, WaitStatus::PtraceEvent(TEST, SIGTRAP, 42), &mut visited),
        Err(Error::TestRuntime(_))
    ));
    assert!(matches!(
        data.handle_status(
            &mut k,
            WaitStatus::PtraceEvent(TEST, SIGSTOP, PTRACE_EVENT_FORK),
            &mut visited
        ),
        Err(Error::TestRuntime(_))
    ));
    assert!(matches!(
        data.handle_status(&mut k, WaitStatus::Continued(TEST), &mut visited),
        Err(Error::TestRuntime(_))
    ));
}

#[test]
fn exit_of_other_process_continues_parent() {
    let mut k = FakeKernel::new();
    let (_, mut data) = create_state_machine(TEST, traces_for(&vec![]));
    let mut visited = Vec::new();
    let r = data
        .handle_status(&mut k, WaitStatus::Exited(200, 1), &mut visited)
        .unwrap();
    assert_eq!(
        r,
        (
            TestState::Waiting,
            TracerAction::TryContinue(ProcessInfo::new(TEST, None))
        )
    );
}

#[test]
fn thread_exit_decrements_count() {
    let mut k = FakeKernel::new();
    let (_, mut data) = create_state_machine(TEST, traces_for(&vec![]));
    let r = data.on_clone(TEST, None, Ok(5)).unwrap();
    assert_eq!(
        r,
        (TestState::Waiting, TracerAction::Continue(ProcessInfo::new(TEST, None)))
    );
    assert_eq!(data.threads(), 1);
    let mut visited = Vec::new();
    let r = data
        .handle_status(
            &mut k,
            WaitStatus::PtraceEvent(5, SIGTRAP, PTRACE_EVENT_EXIT),
            &mut visited,
        )
        .unwrap();
    assert_eq!(
        r,
        (TestState::Waiting, TracerAction::TryContinue(ProcessInfo::new(5, None)))
    );
    assert_eq!(data.threads(), 0);
    assert_eq!(descriptions(&data).last().unwrap(), "EXIT");
}

#[test]
fn main_thread_exit_keeps_count_at_zero() {
    let mut k = FakeKernel::new();
    let (_, mut data) = create_state_machine(TEST, traces_for(&vec![]));
    let mut visited = Vec::new();
    data.handle_status(
        &mut k,
        WaitStatus::PtraceEvent(TEST, SIGTRAP, PTRACE_EVENT_EXIT),
        &mut visited,
    )
    .unwrap();
    assert_eq!(data.threads(), 0);
}

#[test]
fn clone_counts_each_thread_once() {
    let (_, mut data) = create_state_machine(TEST, traces_for(&vec![]));
    data.on_clone(TEST, Some(0x10), Ok(7)).unwrap();
    data.on_clone(TEST, Some(0x10), Ok(7)).unwrap();
    assert_eq!(data.threads(), 1);
    assert!(matches!(
        data.on_clone(TEST, None, Err(TraceError::NoSuchProcess)),
        Err(Error::TestRuntime(_))
    ));
    assert_eq!(data.threads(), 1);
    assert_eq!(descriptions(&data), vec!["New Thread 7", "New Thread 7"]);
}

#[test]
fn each_notification_yields_one_action() {
    let mut k = FakeKernel::new();
    let (_, mut data) = create_state_machine(TEST, traces_for(&vec![]));
    data.on_wait_status(Ok(WaitStatus::Stopped(7, SIGSTOP))).unwrap();
    data.on_wait_status(Ok(WaitStatus::Stopped(8, 10))).unwrap();
    data.on_wait_status(Ok(WaitStatus::Exited(TEST, 4))).unwrap();
    let (actions, result) = data.dispatch(&mut k);
    assert_eq!(result.unwrap(), TestState::End(4));
    assert_eq!(
        actions,
        vec![
            TracerAction::Continue(ProcessInfo::new(7, None)),
            TracerAction::TryContinue(ProcessInfo::new(8, Some(10))),
            TracerAction::Nothing,
        ]
    );
}

#[test]
fn later_exit_replaces_failure() {
    let mut k = FakeKernel::new();
    let (_, mut data) = create_state_machine(TEST, traces_for(&vec![]));
    data.on_wait_status(Ok(WaitStatus::Stopped(7, SIGSEGV))).unwrap();
    data.on_wait_status(Ok(WaitStatus::Exited(TEST, 0))).unwrap();
    assert_eq!(
        TestState::Stopped.step(&mut data, &mut k).unwrap(),
        TestState::End(0)
    );
}

#[test]
fn later_failure_replaces_exit() {
    let mut k = FakeKernel::new();
    let (_, mut data) = create_state_machine(TEST, traces_for(&vec![]));
    data.on_wait_status(Ok(WaitStatus::Exited(TEST, 0))).unwrap();
    data.on_wait_status(Ok(WaitStatus::Stopped(7, SIGSEGV))).unwrap();
    match TestState::Stopped.step(&mut data, &mut k) {
        Err(Error::TestRuntime(msg)) => assert!(msg.contains("segfault")),
        other => panic!("unexpected result {:?}", other),
    }
}

#[test]
fn trap_handling_from_instruction_pointer() {
    let mut k = FakeKernel::new().with_text(0x1000, 0x55);
    let mut data = launched(&[0x1000, 0x2000, 0x1000], &mut k);
    k.text.extend((0..8u64).map(|i| (0x2000 + i, 0x90)));
    TestState::Start.step(&mut data, &mut k).unwrap();
    TestState::Initialise.step(&mut data, &mut k).unwrap();
    let mut visited = Vec::new();
    // a failed read of the instruction pointer counts nothing
    data.on_trap(&mut k, Err(TraceError::NoSuchProcess), &mut visited)
        .unwrap();
    assert!(visited.is_empty());
    // a trap away from every breakpoint counts nothing
    data.on_trap(&mut k, Ok(0x3001), &mut visited).unwrap();
    assert!(visited.is_empty());
    let r = data.on_trap(&mut k, Ok(0x1001), &mut visited).unwrap();
    assert_eq!(
        r,
        (TestState::Waiting, TracerAction::Continue(ProcessInfo::new(TEST, None)))
    );
    assert_eq!(visited, vec![0x1000]);
    let counts: Vec<usize> = data.traces_ref().iter().map(|t| t.count).collect();
    assert_eq!(counts, vec![1, 0, 1]);
    assert_eq!(k.byte_at(0x1000), 0x55);
    // the same site again in this batch: no second count
    data.on_trap(&mut k, Ok(0x1001), &mut visited).unwrap();
    let counts: Vec<usize> = data.traces_ref().iter().map(|t| t.count).collect();
    assert_eq!(counts, vec![1, 0, 1]);
    assert_eq!(visited, vec![0x1000]);
}

#[test]
fn install_results_are_taken_in() {
    let mut k = FakeKernel::new().with_text(0x1000, 0x55);
    let (_, mut data) = create_state_machine(TEST, traces_for(&vec![0x1000]));
    let bp = Breakpoint::new(&mut k, TEST, 0x1000).unwrap();
    assert!(data.on_install(0x1000, Ok(bp)).is_none());
    assert_eq!(data.breakpoint_list().len(), 1);
    assert!(data.on_install(0x2000, Err(BreakpointError::Duplicate)).is_none());
    assert_eq!(data.breakpoint_list().len(), 1);
    match data.on_install(0x3000, Err(BreakpointError::AddressUnreachable)) {
        Some(Error::BreakpointInstall(msg)) => assert!(msg.contains("no-pie")),
        other => panic!("unexpected result {:?}", other),
    }
    assert!(matches!(
        data.on_install(0x3000, Err(BreakpointError::Trace(TraceError::Other(1)))),
        Some(Error::BreakpointInstall(_))
    ));
    assert_eq!(data.breakpoint_list().len(), 1);
}

#[test]
fn which_action_failures_end_the_run() {
    let c = TracerAction::Continue(ProcessInfo::new(1, None));
    let t = TracerAction::TryContinue(ProcessInfo::new(1, None));
    assert!(!action_failure(c, Ok(())));
    assert!(action_failure(c, Err(TraceError::Io)));
    assert!(!action_failure(c, Err(TraceError::NoSuchProcess)));
    assert!(!action_failure(t, Err(TraceError::Io)));
    assert!(action_failure(
        TracerAction::Detach(ProcessInfo::new(1, None)),
        Err(TraceError::Other(3))
    ));
}

#[test]
fn wait_error_is_described() {
    let (_, mut data) = create_state_machine(TEST, traces_for(&vec![]));
    match data.on_wait_status(Err(TraceError::Other(10))) {
        Err(Error::TestRuntime(msg)) => assert!(msg.ends_with("errno 10")),
        other => panic!("unexpected result {:?}", other),
    }
    assert_eq!(describe(TraceError::Io), "EIO");
}

#[test]
fn gone_thread_is_not_fatal() {
    let mut k = FakeKernel::new();
    k.continue_error = Some(TraceError::NoSuchProcess);
    let (_, mut data) = create_state_machine(TEST, traces_for(&vec![]));
    let actions = vec![TracerAction::Continue(ProcessInfo::new(7, None))];
    assert_eq!(data.apply_actions(&mut k, &actions).unwrap(), true);
    k.continue_error = Some(TraceError::Other(1));
    assert!(matches!(
        data.apply_actions(&mut k, &actions),
        Err(Error::TestRuntime(_))
    ));
    let tries = vec![TracerAction::TryContinue(ProcessInfo::new(7, None))];
    assert_eq!(data.apply_actions(&mut k, &tries).unwrap(), true);
    assert_eq!(
        data.apply_actions(&mut k, &vec![TracerAction::Nothing]).unwrap(),
        false
    );
}

#[test]
fn idle_batch_resumes_parent() {
    let mut k = FakeKernel::new();
    let (_, mut data) = create_state_machine(TEST, traces_for(&vec![]));
    data.on_wait_status(Ok(WaitStatus::Exited(TEST, 0))).unwrap();
    TestState::Stopped.step(&mut data, &mut k).unwrap();
    assert_eq!(k.calls, vec!["continue 100 None".to_string()]);
}

#[test]
fn end_state_stays() {
    let mut k = FakeKernel::new();
    let (_, mut data) = create_state_machine(TEST, traces_for(&vec![]));
    assert_eq!(
        TestState::End(2).step(&mut data, &mut k).unwrap(),
        TestState::End(2)
    );
    assert!(TestState::End(2).is_finished());
    assert!(!TestState::Waiting.is_finished());
}

#[test]
fn patch_word_replaces_first_byte() {
    assert_eq!(patch_word(0x1122_3344_5566_7788, 0xCC), 0x1122_3344_5566_77CC);
    assert_eq!(patch_word(0, 0x55), 0x55);
    assert_eq!(patch_word(u64::MAX, 0), u64::MAX - 0xFF);
}

#[test]
fn arm_reports_duplicate_trap() {
    assert!(matches!(
        Breakpoint::arm(1, 0x10, 0xAB_CC),
        Err(BreakpointError::Duplicate)
    ));
    let (bp, word) = Breakpoint::arm(1, 0x10, 0xAB_55).unwrap();
    assert_eq!(word, 0xAB_CC);
    assert_eq!(bp.original_byte, 0x55);
    assert!(bp.armed);
}

#[test]
fn breakpoint_step_over_and_rearm() {
    let mut k = FakeKernel::new().with_text(0x3000, 0x41);
    let mut bp = Breakpoint::new(&mut k, 1, 0x3000).unwrap();
    assert_eq!(k.byte_at(0x3000), TRAP);
    let (hit, action) = bp.process(&mut k, 1, true).unwrap();
    assert!(hit);
    assert_eq!(action, TracerAction::Step(ProcessInfo::new(1, None)));
    assert_eq!(k.byte_at(0x3000), 0x41);
    assert_eq!(k.ips[&1], 0x3000);
    assert_eq!(bp.pending, vec![1]);
    let next = bp.finish_step(&mut k, 1).unwrap();
    assert_eq!(next, TracerAction::Continue(ProcessInfo::new(1, None)));
    assert_eq!(k.byte_at(0x3000), TRAP);
    assert!(bp.armed);
    assert!(bp.pending.is_empty());
}

#[test]
fn breakpoint_single_shot() {
    let mut k = FakeKernel::new().with_text(0x3000, 0x41);
    let mut bp = Breakpoint::new(&mut k, 1, 0x3000).unwrap();
    let (hit, action) = bp.process(&mut k, 2, false).unwrap();
    assert!(hit);
    assert_eq!(action, TracerAction::Continue(ProcessInfo::new(2, None)));
    assert!(!bp.armed);
    assert!(bp.retired);
    assert_eq!(k.byte_at(0x3000), 0x41);
    k.ips.insert(3, 0x3001);
    bp.jump_to(&mut k, 3).unwrap();
    assert_eq!(k.ips[&3], 0x3000);
}

#[test]
fn killed_stepping_thread_retires_site() {
    let mut k = FakeKernel::new().with_text(0x3000, 0x41);
    let mut bp = Breakpoint::new(&mut k, 1, 0x3000).unwrap();
    bp.process(&mut k, 4, true).unwrap();
    bp.thread_killed(5);
    assert_eq!(bp.pending, vec![4]);
    bp.thread_killed(4);
    assert!(bp.pending.is_empty());
    assert!(bp.retired);
}

#[test]
fn unreachable_address_is_reported() {
    let mut k = FakeKernel::new();
    assert!(matches!(
        Breakpoint::new(&mut k, 1, 0x9000),
        Err(BreakpointError::AddressUnreachable)
    ));
}

#[test]
fn trace_new_starts_at_zero() {
    let t = Trace::new(0x42);
    assert_eq!(t.address, Some(0x42));
    assert_eq!(t.count, 0);
    let all = traces_for(&vec![1, 2]);
    assert_eq!(all, vec![Trace::new(1), Trace::new(2)]);
}

#[test]
fn failed_event_request_ends_the_run() {
    assert!(on_options(Ok(())).is_none());
    assert!(matches!(
        on_options(Err(TraceError::Other(1))),
        Some(Error::NixError(TraceError::Other(1)))
    ));
}

#[test]
fn messages_name_what_failed() {
    let (_, mut data) = create_state_machine(TEST, traces_for(&vec![]));
    match data.on_clone(TEST, None, Err(TraceError::Io)) {
        Err(Error::TestRuntime(m)) => {
            assert_eq!(m, "Error occurred upon test executable thread creation")
        }
        other => panic!("unexpected result {:?}", other),
    }
    match data.handle_signaled(TEST, SIGSEGV, false) {
        Err(Error::StateMachine(m)) => assert_eq!(m, "Unexpected stop"),
        other => panic!("unexpected result {:?}", other),
    }
    match data.on_wait_status(Err(TraceError::NoSuchProcess)) {
        Err(Error::TestRuntime(m)) => assert_eq!(
            m,
            "An error occurred while waiting for response from test: ESRCH"
        ),
        other => panic!("unexpected result {:?}", other),
    }
}

#[test]
fn fork_batch_continues_child_only() {
    let mut k = FakeKernel::new();
    let (_, mut data) = create_state_machine(TEST, traces_for(&vec![]));
    data.on_wait_status(Ok(WaitStatus::PtraceEvent(200, SIGTRAP, PTRACE_EVENT_FORK)))
        .unwrap();
    assert_eq!(TestState::Stopped.step(&mut data, &mut k).unwrap(), TestState::Waiting);
    assert_eq!(k.calls, vec!["continue 200 None".to_string()]);
    assert_eq!(descriptions(&data), vec!["Fork Event", "Continue"]);
}

#[test]
fn exec_batch_detaches_only() {
    let mut k = FakeKernel::new();
    let (_, mut data) = create_state_machine(TEST, traces_for(&vec![]));
    data.on_wait_status(Ok(WaitStatus::PtraceEvent(200, SIGTRAP, PTRACE_EVENT_EXEC)))
        .unwrap();
    assert_eq!(TestState::Stopped.step(&mut data, &mut k).unwrap(), TestState::Waiting);
    assert_eq!(k.calls, vec!["detach 200".to_string()]);
    assert_eq!(descriptions(&data), vec!["Exec Event", "Detach"]);
}
