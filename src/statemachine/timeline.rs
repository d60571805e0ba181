//! The signal timeline recorded while a tracee runs.

use vstd::prelude::*;

use crate::ptrace_control::{Pid, TraceControl, TraceError};

verus! {

/// One thing that happened to a traced thread.
#[derive(Clone, Debug)]
pub struct Event {
    pub pid: Pid,
    /// The thread spawned by this event, if any.
    pub child: Option<Pid>,
    /// The address of the last executed instruction, when it could be read.
    pub addr: Option<u64>,
    pub descr: String,
}

impl Event {
    /// An event of `pid`, located at the instruction it last executed.
    pub fn new<B: TraceControl>(b: &mut B, pid: Pid, descr: String) -> (r: Self)
        ensures
            r.pid == pid,
            r.child is None,
            r.descr@ == descr@,
    {
        let pc = b.current_instruction_pointer(pid);
        Event::located(pid, descr, pc)
    }

    /// An event of `pid` whose instruction pointer read gave `pc`: it sits at
    /// the instruction before `pc`, or nowhere when `pc` is unknown or zero.
    pub fn located(pid: Pid, descr: String, pc: Result<u64, TraceError>) -> (r: Self)
        ensures
            r.pid == pid,
            r.child is None,
            r.descr@ == descr@,
            r.addr == match pc {
                Ok(p) => if p >= 1 {
                    Some((p - 1) as u64)
                } else {
                    None::<u64>
                },
                Err(_) => None::<u64>,
            },
    {
        let addr = match pc {
            Ok(p) => if p >= 1 {
                Some(p - 1)
            } else {
                None
            },
            Err(_) => None,
        };
        Event { pid, child: None, addr, descr }
    }

    /// `parent` spawned the thread `child` at `addr`.
    pub fn new_thread(addr: Option<u64>, parent: Pid, child: Pid) -> (r: Self)
        ensures
            r.pid == parent,
            r.child == Some(child),
            r.addr == addr,
            "New Thread "@.is_prefix_of(r.descr@),
    {
        let descr = "New Thread ".to_string().concat(child.to_string().as_str());
        assert(descr@.subrange(0, "New Thread "@.len() as int) =~= "New Thread "@);
        Event { pid: parent, child: Some(child), addr, descr }
    }
}

/// The events of a run, in order, and the distinct threads they concern.
pub struct Timeline {
    pids: Vec<Pid>,
    events: Vec<Event>,
}

impl Timeline {
    pub closed spec fn events(&self) -> Seq<Event> {
        self.events@
    }

    pub closed spec fn pids(&self) -> Seq<Pid> {
        self.pids@
    }

    /// `pids` lists each thread that some event concerns, once.
    pub open spec fn wf(&self) -> bool {
        &&& self.pids().no_duplicates()
        &&& forall|p: Pid| #[trigger]
            self.pids().contains(p) <==> exists|i: int|
                0 <= i < self.events().len() && #[trigger] self.events()[i].pid == p
    }

    pub fn new() -> (r: Self)
        ensures
            r.wf(),
            r.events().len() == 0,
    {
        Self { pids: Vec::new(), events: Vec::new() }
    }

    /// Append `event`, noting its thread.
    pub fn add_event(&mut self, event: Event)
        requires
            old(self).wf(),
        ensures
            final(self).wf(),
            final(self).events() == old(self).events().push(event),
    {
        let pid = event.pid;
        let ghost old_events = self.events@;
        let mut known = false;
        let mut i: usize = 0;
        while i < self.pids.len()
            invariant
                0 <= i <= self.pids@.len(),
                known <==> exists|j: int| 0 <= j < i && self.pids@[j] == pid,
            decreases self.pids@.len() - i,
        {
            if self.pids[i] == pid {
                known = true;
            }
            i = i + 1;
        }
        if !known {
            self.pids.push(pid);
        }
        self.events.push(event);
        assert forall|p: Pid| #[trigger]
            self.pids().contains(p) <==> exists|i: int|
                0 <= i < self.events().len() && #[trigger] self.events()[i].pid == p by {
            if p == pid {
                assert(self.events()[old_events.len() as int].pid == p);
                if known {
                    let j = choose|j: int| 0 <= j < old(self).pids@.len() && old(self).pids@[j] == pid;
                    assert(self.pids@[j] == p);
                } else {
                    assert(self.pids@[self.pids@.len() - 1] == p);
                }
            } else {
                if self.pids().contains(p) {
                    let j = choose|j: int| 0 <= j < self.pids@.len() && self.pids@[j] == p;
                    assert(old(self).pids@[j] == p);
                    assert(old(self).pids().contains(p));
                    let k = choose|k: int| 0 <= k < old_events.len() && old_events[k].pid == p;
                    assert(self.events()[k].pid == p);
                }
                if exists|i: int| 0 <= i < self.events().len() && #[trigger] self.events()[i].pid == p {
                    let k = choose|k: int| 0 <= k < self.events().len() && self.events()[k].pid == p;
                    assert(old_events[k].pid == p);
                    assert(old(self).pids().contains(p));
                    let j = choose|j: int| 0 <= j < old(self).pids@.len() && old(self).pids@[j] == p;
                    assert(self.pids@[j] == p);
                }
            }
        }
    }

    /// The events, in order.
    pub fn event_list(&self) -> (r: &Vec<Event>)
        ensures
            r@ == self.events(),
    {
        &self.events
    }

    /// The distinct threads the events concern, in order of first appearance.
    pub fn pid_list(&self) -> (r: &Vec<Pid>)
        ensures
            r@ == self.pids(),
    {
        &self.pids
    }
    /// The positions of the events of `pid`, in increasing order.
    pub fn indices_of(&self, pid: Pid) -> (r: Vec<usize>)
        ensures
            forall|k: int|
                0 <= k < r@.len() ==> (#[trigger] r@[k]) < self.events().len() && self.events()[r@[k] as int].pid
                    == pid,
            forall|k: int, l: int| 0 <= k < l < r@.len() ==> #[trigger] r@[k] < #[trigger] r@[l],
            forall|j: int|
                0 <= j < self.events().len() && (#[trigger] self.events()[j]).pid == pid
                    ==> r@.contains(j as usize),
    {
        let mut r: Vec<usize> = Vec::new();
        let mut i: usize = 0;
        while i < self.events.len()
            invariant
                0 <= i <= self.events@.len(),
                forall|k: int|
                    0 <= k < r@.len() ==> (#[trigger] r@[k]) < i && self.events@[r@[k] as int].pid == pid,
                forall|k: int, l: int| 0 <= k < l < r@.len() ==> #[trigger] r@[k] < #[trigger] r@[l],
                forall|j: int|
                    0 <= j < i && (#[trigger] self.events@[j]).pid == pid ==> r@.contains(j as usize),
            decreases self.events@.len() - i,
        {
            if self.events[i].pid == pid {
                let ghost r0 = r@;
                r.push(i);
                proof {
                    assert(r@[r@.len() - 1] == i);
                    assert forall|j: int|
                        0 <= j < i && (#[trigger] self.events@[j]).pid == pid implies r@.contains(j as usize) by {
                        let k = choose|k: int| 0 <= k < r0.len() && r0[k] == j as usize;
                        assert(r@[k] == j as usize);
                    }
                }
            }
            i = i + 1;
        }
        r
    }

    /// The position of the first event of `pid`, if it has one.
    pub fn first_event_of(&self, pid: Pid) -> (r: Option<usize>)
        ensures
            r matches Some(j) ==> j < self.events().len() && self.events()[j as int].pid == pid
                && forall|k: int| 0 <= k < j ==> (#[trigger] self.events()[k]).pid != pid,
            r is None ==> forall|k: int|
                0 <= k < self.events().len() ==> (#[trigger] self.events()[k]).pid != pid,
    {
        let mut i: usize = 0;
        while i < self.events.len()
            invariant
                0 <= i <= self.events@.len(),
                forall|k: int| 0 <= k < i ==> (#[trigger] self.events@[k]).pid != pid,
            decreases self.events@.len() - i,
        {
            if self.events[i].pid == pid {
                return Some(i);
            }
            i = i + 1;
        }
        None
    }
}

} // verus!
