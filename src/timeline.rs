//! The event log handed to the timeline renderer, and the layout of the
//! picture drawn from it.

use vstd::prelude::*;

use crate::ptrace_control::Pid;

verus! {

/// The kind of test artefact that was launched.
#[derive(Debug, Copy, Clone, PartialEq, Eq, Structural, Hash, Ord, PartialOrd)]
pub enum RunType {
    Tests,
    Doctests,
    Benchmarks,
    Examples,
    Lib,
    Bins,
    AllTargets,
}

/// A launched test executable.
#[derive(Clone, Debug)]
pub struct TestBinary {
    pub path: String,
    pub ty: Option<RunType>,
    pub cargo_dir: Option<String>,
    pub pkg_name: Option<String>,
    pub pkg_version: Option<String>,
    pub pkg_authors: Option<Vec<String>>,
    pub should_panic: bool,
}

/// One thing the tracer observed about a thread.
#[derive(Clone, Debug)]
pub struct TraceEvent {
    pub pid: Option<Pid>,
    pub child: Option<Pid>,
    pub signal: Option<String>,
    pub addr: Option<u64>,
    pub return_val: Option<i64>,
    pub description: String,
}

/// An entry of the event log.
#[derive(Clone, Debug)]
pub enum Event {
    ConfigLaunch(String),
    BinaryLaunch(TestBinary),
    Trace(TraceEvent),
}

/// The thread an event concerns, if any.
pub open spec fn pid_of(e: Event) -> Option<Pid> {
    match e {
        Event::Trace(t) => t.pid,
        _ => None,
    }
}

impl Event {
    pub fn get_pid(&self) -> (r: Option<Pid>)
        ensures
            r == pid_of(*self),
    {
        match self {
            Event::Trace(t) => t.pid,
            _ => None,
        }
    }
}

/// The ordered record of a run.
#[derive(Clone, Debug)]
pub struct EventLog {
    pub events: Vec<Event>,
}

/// Some event of `events` concerns thread `p`.
pub open spec fn mentions(events: Seq<Event>, p: Pid) -> bool {
    exists|i: int| 0 <= i < events.len() && #[trigger] pid_of(events[i]) == Some(p)
}

/// `x` is among the first components of `s`.
pub open spec fn has_key(s: Seq<(Pid, usize)>, x: Pid) -> bool {
    exists|i: int| 0 <= i < s.len() && (#[trigger] s[i]).0 == x
}

/// The text and height of the label drawn for an event, if it gets one.
pub open spec fn label_of(e: Event) -> Option<(Seq<char>, int)> {
    match e {
        Event::ConfigLaunch(name) => Some(("Running config "@ + name@, 0)),
        Event::BinaryLaunch(binary) => Some(("Launching "@ + binary.path@, 0)),
        Event::Trace(t) => match t.pid {
            Some(p) => Some((t.description@, p as int)),
            None => None,
        },
    }
}

/// A text label at column `x`, height `y`.
#[derive(Clone, Debug)]
pub struct Label {
    pub x: usize,
    pub y: Pid,
    pub text: String,
}

/// A line from `(x0, y0)` to `(x1, y1)` in the colour given to thread
/// `colour_of`.
#[derive(Clone, Copy, Debug, PartialEq, Eq, Structural)]
pub struct Segment {
    pub x0: usize,
    pub y0: Pid,
    pub x1: usize,
    pub y1: Pid,
    pub colour_of: Pid,
}

/// What the renderer draws: labels, lines, the threads in the order they
/// are given colours, the range of thread ids, the picture's size and the
/// distinct threads.
pub struct GraphLayout {
    pub labels: Vec<Label>,
    pub segments: Vec<Segment>,
    pub colour_order: Vec<Pid>,
    pub y_min: Pid,
    pub y_max: Pid,
    pub width: usize,
    pub height: usize,
    pub pids: Vec<Pid>,
}

/// The smaller of two integers.
pub open spec fn min_of(a: int, b: int) -> int {
    if a <= b {
        a
    } else {
        b
    }
}

/// The larger of two integers.
pub open spec fn max_of(a: int, b: int) -> int {
    if a >= b {
        a
    } else {
        b
    }
}

impl EventLog {
    /// The distinct threads the events concern, in order of first mention.
    pub fn pids(&self) -> (r: Vec<Pid>)
        ensures
            r@.no_duplicates(),
            forall|p: Pid| #[trigger] r@.contains(p) <==> mentions(self.events@, p),
    {
        let mut r: Vec<Pid> = Vec::new();
        let mut i: usize = 0;
        while i < self.events.len()
            invariant
                0 <= i <= self.events@.len(),
                r@.no_duplicates(),
                forall|p: Pid| #[trigger] r@.contains(p) <==> mentions(self.events@.take(i as int), p),
            decreases self.events@.len() - i,
        {
            let ghost r0 = r@;
            let ghost e = self.events@[i as int];
            if let Some(p) = self.events[i].get_pid() {
                if !contains_pid(&r, p) {
                    r.push(p);
                    proof {
                        assert(r@[r@.len() - 1] == p);
                        assert forall|q: Pid| q != p implies (#[trigger] r@.contains(q) <==> r0.contains(q)) by {
                            if r@.contains(q) {
                                let k = choose|k: int| 0 <= k < r@.len() && r@[k] == q;
                                assert(r0[k] == q);
                            }
                            if r0.contains(q) {
                                let k = choose|k: int| 0 <= k < r0.len() && r0[k] == q;
                                assert(r@[k] == q);
                            }
                        }
                    }
                }
            }
            proof {
                assert(self.events@.take(i + 1) =~= self.events@.take(i as int).push(e));
                assert forall|q: Pid| #[trigger] r@.contains(q) <==> mentions(self.events@.take(i + 1), q) by {
                    lemma_mentions_push(self.events@.take(i as int), e, q);
                    if pid_of(e) == Some(q) {
                        assert(r@.contains(q));
                    } else {
                        assert(r@.contains(q) <==> r0.contains(q));
                    }
                }
            }
            i = i + 1;
        }
        assert(self.events@.take(self.events@.len() as int) =~= self.events@);
        r
    }
}

/// A thread is mentioned by a log and one more event exactly when the log
/// or the event mentions it.
pub proof fn lemma_mentions_push(s: Seq<Event>, e: Event, q: Pid)
    ensures
        mentions(s.push(e), q) <==> mentions(s, q) || pid_of(e) == Some(q),
{
    if mentions(s, q) {
        let k = choose|k: int| 0 <= k < s.len() && #[trigger] pid_of(s[k]) == Some(q);
        assert(pid_of(s.push(e)[k]) == Some(q));
    }
    if pid_of(e) == Some(q) {
        assert(pid_of(s.push(e)[s.len() as int]) == Some(q));
    }
    if mentions(s.push(e), q) {
        let k = choose|k: int| 0 <= k < s.len() + 1 && #[trigger] pid_of(s.push(e)[k]) == Some(q);
        if k < s.len() {
            assert(pid_of(s[k]) == Some(q));
        }
    }
}

/// The labels drawn for `events`: column, height and text, in order.
pub open spec fn labels_spec(events: Seq<Event>) -> Seq<(int, int, Seq<char>)>
    decreases events.len(),
{
    if events.len() == 0 {
        Seq::empty()
    } else {
        let rest = labels_spec(events.drop_last());
        match label_of(events.last()) {
            Some((text, y)) => rest.push(((events.len() - 1) as int, y, text)),
            None => rest,
        }
    }
}

/// Every thread id mentioned by `events` is at least `lo` and at most `hi`;
/// each bound is either a mentioned id or its default.
pub open spec fn pid_range(events: Seq<Event>, lo: Pid, hi: Pid) -> bool {
    &&& forall|k: int|
        0 <= k < events.len() && (#[trigger] pid_of(events[k])) is Some ==> lo <= pid_of(events[k])->0
            <= hi
    &&& lo == i32::MAX || mentions(events, lo)
    &&& hi == 0 || mentions(events, hi)
}

/// Append `p` to `order` unless it is there already.
fn note_colour(order: &mut Vec<Pid>, p: Pid)
    requires
        old(order)@.no_duplicates(),
    ensures
        final(order)@.no_duplicates(),
        final(order)@.contains(p),
        forall|q: Pid| #[trigger] old(order)@.contains(q) ==> final(order)@.contains(q),
        forall|q: Pid| #[trigger] final(order)@.contains(q) ==> old(order)@.contains(q) || q == p,
{
    if !contains_pid(order, p) {
        let ghost o = order@;
        order.push(p);
        assert(order@[order@.len() - 1] == p);
        assert forall|q: Pid| #[trigger] o.contains(q) implies order@.contains(q) by {
            let k = choose|k: int| 0 <= k < o.len() && o[k] == q;
            assert(order@[k] == q);
        }
        assert forall|q: Pid| #[trigger] order@.contains(q) implies o.contains(q) || q == p by {
            let k = choose|k: int| 0 <= k < order@.len() && order@[k] == q;
            if k < o.len() {
                assert(o[k] == q);
            }
        }
    }
}

/// Take the start column recorded for `p` out of `starts`, if there is one.
fn take_start(starts: &mut Vec<(Pid, usize)>, p: Pid) -> (r: Option<usize>)
    ensures
        r is None <==> !has_key(old(starts)@, p),
        r is None ==> final(starts)@ == old(starts)@,
        r matches Some(v) ==> exists|k: int|
            0 <= k < old(starts)@.len() && old(starts)@[k] == (p, v) && final(starts)@ == old(
                starts,
            )@.remove(k),
{
    let mut k: usize = 0;
    while k < starts.len()
        invariant
            0 <= k <= starts@.len(),
            starts@ == old(starts)@,
            forall|j: int| 0 <= j < k ==> (#[trigger] starts@[j]).0 != p,
        decreases starts@.len() - k,
    {
        if starts[k].0 == p {
            let (_, v) = starts.remove(k);
            return Some(v);
        }
        k = k + 1;
    }
    None
}

fn has_start(starts: &Vec<(Pid, usize)>, p: Pid) -> (r: bool)
    ensures
        r == has_key(starts@, p),
{
    let mut k: usize = 0;
    while k < starts.len()
        invariant
            0 <= k <= starts@.len(),
            forall|j: int| 0 <= j < k ==> (#[trigger] starts@[j]).0 != p,
        decreases starts@.len() - k,
    {
        if starts[k].0 == p {
            return true;
        }
        k = k + 1;
    }
    false
}

/// Some segment of `segs` is a lifeline of thread `p`: it runs at `p`'s
/// height.
pub open spec fn lifeline(segs: Seq<Segment>, p: Pid) -> bool {
    exists|k: int| 0 <= k < segs.len() && #[trigger] segs[k].y0 == p && segs[k].y1 == p
}

/// Thread `p` has a recorded start or a lifeline.
pub open spec fn placed(starts: Seq<(Pid, usize)>, segs: Seq<Segment>, p: Pid) -> bool {
    has_key(starts, p) || lifeline(segs, p)
}

pub proof fn lemma_placed_push_start(starts: Seq<(Pid, usize)>, segs: Seq<Segment>, x: (Pid, usize), p: Pid)
    ensures
        placed(starts, segs, p) ==> placed(starts.push(x), segs, p),
        placed(starts.push(x), segs, x.0),
{
    if has_key(starts, p) {
        let k = choose|k: int| 0 <= k < starts.len() && (#[trigger] starts[k]).0 == p;
        assert(starts.push(x)[k].0 == p);
    }
    assert(starts.push(x)[starts.len() as int].0 == x.0);
}

pub proof fn lemma_placed_push_segment(starts: Seq<(Pid, usize)>, segs: Seq<Segment>, g: Segment, p: Pid)
    ensures
        placed(starts, segs, p) ==> placed(starts, segs.push(g), p),
        g.y0 == g.y1 ==> lifeline(segs.push(g), g.y0),
{
    if lifeline(segs, p) {
        let k = choose|k: int| 0 <= k < segs.len() && #[trigger] segs[k].y0 == p && segs[k].y1 == p;
        assert(segs.push(g)[k] == segs[k]);
    }
    assert(segs.push(g)[segs.len() as int] == g);
}

pub proof fn lemma_placed_remove_start(starts: Seq<(Pid, usize)>, segs: Seq<Segment>, k: int, p: Pid)
    requires
        0 <= k < starts.len(),
        starts[k].0 != p,
    ensures
        placed(starts, segs, p) ==> placed(starts.remove(k), segs, p),
{
    if has_key(starts, p) {
        let j = choose|j: int| 0 <= j < starts.len() && (#[trigger] starts[j]).0 == p;
        starts.remove_ensures(k);
        if j < k {
            assert(starts.remove(k)[j] == starts[j]);
        } else {
            assert(j != k);
            assert(starts.remove(k)[j - 1] == starts[j]);
        }
    }
}

fn contains_pid(v: &Vec<Pid>, p: Pid) -> (r: bool)
    ensures
        r == v@.contains(p),
{
    let mut i: usize = 0;
    while i < v.len()
        invariant
            0 <= i <= v@.len(),
            forall|j: int| 0 <= j < i ==> v@[j] != p,
        decreases v@.len() - i,
    {
        if v[i] == p {
            return true;
        }
        i = i + 1;
    }
    false
}

impl EventLog {
    /// Lay the log out for drawing. Column `i` is event `i`; a thread's
    /// line runs at the height of its id from its first event until an
    /// event with a return value, or to the end; an event that spawns a
    /// child draws a line to the child's height in the next column.
    pub fn layout(&self) -> (r: GraphLayout)
        ensures
            r.labels@.len() == labels_spec(self.events@).len(),
            forall|k: int|
                0 <= k < r.labels@.len() ==> ((#[trigger] r.labels@[k]).x as int, r.labels@[k].y as int, r.labels@[k].text@)
                    == labels_spec(self.events@)[k],
            forall|k: int|
                0 <= k < r.segments@.len() ==> (#[trigger] r.segments@[k]).x0 <= r.segments@[k].x1
                    <= self.events@.len(),
            forall|k: int|
                0 <= k < r.segments@.len() ==> r.colour_order@.contains(
                    (#[trigger] r.segments@[k]).colour_of,
                ),
            r.colour_order@.no_duplicates(),
            pid_range(self.events@, r.y_min, r.y_max),
            r.width as int == min_of((self.events@.len() + 1) as int * 20, 7680),
            r.height as int == min_of(max_of(r.pids@.len() as int * 200, 100), 4320),
            r.pids@.no_duplicates(),
            forall|p: Pid| #[trigger] mentions(self.events@, p) ==> lifeline(r.segments@, p),
            forall|p: Pid| #[trigger] r.pids@.contains(p) <==> mentions(self.events@, p),
    {
        let pids = self.pids();
        let mut labels: Vec<Label> = Vec::new();
        let mut segments: Vec<Segment> = Vec::new();
        let mut colour_order: Vec<Pid> = Vec::new();
        let mut starts: Vec<(Pid, usize)> = Vec::new();
        let mut y_min: Pid = i32::MAX;
        let mut y_max: Pid = 0;
        let n = self.events.len();
        let mut i: usize = 0;
        while i < n
            invariant
                0 <= i <= n,
                n == self.events@.len(),
                labels@.len() == labels_spec(self.events@.take(i as int)).len(),
                forall|k: int|
                    0 <= k < labels@.len() ==> ((#[trigger] labels@[k]).x as int, labels@[k].y as int, labels@[k].text@)
                        == labels_spec(self.events@.take(i as int))[k],
                forall|k: int|
                    0 <= k < segments@.len() ==> (#[trigger] segments@[k]).x0 <= segments@[k].x1 <= n,
                forall|k: int|
                    0 <= k < segments@.len() ==> colour_order@.contains(
                        (#[trigger] segments@[k]).colour_of,
                    ),
                forall|k: int| 0 <= k < starts@.len() ==> (#[trigger] starts@[k]).1 <= i,
                colour_order@.no_duplicates(),
                pid_range(self.events@.take(i as int), y_min, y_max),
                forall|p: Pid| #[trigger] mentions(self.events@.take(i as int), p) ==> placed(starts@, segments@, p),
            decreases n - i,
        {
            let ghost t = self.events@.take(i as int);
            let ghost e = self.events@[i as int];
            proof {
                assert(self.events@.take(i + 1) =~= t.push(e));
                assert(t.push(e).drop_last() =~= t);
            }
            let ghost seg0 = segments@;
            let ghost st_init = starts@;
            let ghost order0 = colour_order@;
            let ghost lo0 = y_min;
            let ghost hi0 = y_max;
            match &self.events[i] {
                Event::ConfigLaunch(name) => {
                    labels.push(Label { x: i, y: 0, text: "Running config ".to_string().concat(name.as_str()) });
                },
                Event::BinaryLaunch(binary) => {
                    labels.push(Label { x: i, y: 0, text: "Launching ".to_string().concat(binary.path.as_str()) });
                },
                Event::Trace(trace) => {
                    if let Some(pid) = trace.pid {
                        labels.push(Label { x: i, y: pid, text: trace.description.clone() });
                        if pid < y_min {
                            y_min = pid;
                        }
                        if pid > y_max {
                            y_max = pid;
                        }
                        if !has_start(&starts, pid) {
                            starts.push((pid, i));
                            proof {
                                assert forall|q: Pid| placed(st_init, seg0, q) implies placed(starts@, segments@, q) by {
                                    lemma_placed_push_start(st_init, seg0, (pid, i), q);
                                }
                                lemma_placed_push_start(st_init, seg0, (pid, i), pid);
                            }
                        }
                        assert(placed(starts@, segments@, pid));
                        if trace.return_val.is_some() {
                            let ghost st0 = starts@;
                            let ghost sg1 = segments@;
                            if let Some(start) = take_start(&mut starts, pid) {
                                proof {
                                    let k = choose|k: int| 0 <= k < st0.len() && st0[k] == (pid, start) && starts@ == st0.remove(k);
                                    assert(st0[k].1 <= i);
                                    assert forall|j: int| 0 <= j < starts@.len() implies (#[trigger] starts@[j]).1 <= i by {
                                        if j < k {
                                            assert(starts@[j] == st0[j]);
                                        } else {
                                            assert(starts@[j] == st0[j + 1]);
                                        }
                                    }
                                }
                                note_colour(&mut colour_order, pid);
                                segments.push(Segment { x0: start, y0: pid, x1: i, y1: pid, colour_of: pid });
                                proof {
                                    let k = choose|k: int| 0 <= k < st0.len() && st0[k] == (pid, start) && starts@ == st0.remove(k);
                                    let g = Segment { x0: start, y0: pid, x1: i, y1: pid, colour_of: pid };
                                    assert forall|q: Pid| placed(st0, sg1, q) implies placed(starts@, segments@, q) by {
                                        if q != pid {
                                            lemma_placed_remove_start(st0, sg1, k, q);
                                            lemma_placed_push_segment(starts@, sg1, g, q);
                                        } else {
                                            lemma_placed_push_segment(starts@, sg1, g, pid);
                                        }
                                    }
                                    lemma_placed_push_segment(starts@, sg1, g, pid);
                                }
                            }
                        }
                        let ghost st2 = starts@;
                        let ghost sg2 = segments@;
                        if let Some(child) = trace.child {
                            note_colour(&mut colour_order, child);
                            if !has_start(&starts, child) {
                                starts.push((child, i + 1));
                            }
                            let ghost st3 = starts@;
                            segments.push(Segment { x0: i, y0: pid, x1: i + 1, y1: child, colour_of: child });
                            proof {
                                let g = Segment { x0: i, y0: pid, x1: (i + 1) as usize, y1: child, colour_of: child };
                                assert forall|q: Pid| placed(st2, sg2, q) implies placed(starts@, segments@, q) by {
                                    if st3 != st2 {
                                        lemma_placed_push_start(st2, sg2, (child, (i + 1) as usize), q);
                                    }
                                    lemma_placed_push_segment(st3, sg2, g, q);
                                }
                            }
                        }
                        proof {
                            assert(pid_of(e) == Some(pid));
                            assert(t.push(e)[i as int] == e);
                        }
                    }
                },
            }
            proof {
                let t1 = t.push(e);
                assert forall|q: Pid| #[trigger] mentions(self.events@.take(i + 1), q) implies placed(starts@, segments@, q) by {
                    lemma_mentions_push(t, e, q);
                    if mentions(t, q) {
                        assert(placed(st_init, seg0, q));
                    }
                }
                assert forall|k: int|
                    0 <= k < t1.len() && (#[trigger] pid_of(t1[k])) is Some implies y_min <= pid_of(t1[k])->0
                        <= y_max by {
                    if k < i {
                        assert(t1[k] == t[k]);
                    }
                }
                if y_min != lo0 {
                    assert(pid_of(t1[i as int]) == Some(y_min));
                } else if y_min != i32::MAX {
                    lemma_mentions_push(t, e, y_min);
                }
                if y_max != hi0 {
                    assert(pid_of(t1[i as int]) == Some(y_max));
                } else if y_max != 0 {
                    lemma_mentions_push(t, e, y_max);
                }
                assert forall|k: int| 0 <= k < segments@.len() implies colour_order@.contains(
                    (#[trigger] segments@[k]).colour_of) by {
                    if k < seg0.len() {
                        assert(order0.contains(seg0[k].colour_of));
                    }
                }
            }
            i = i + 1;
        }
        proof {
            assert(self.events@.take(n as int) =~= self.events@);
        }
        let mut k: usize = 0;
        while k < starts.len()
            invariant
                0 <= k <= starts@.len(),
                n == self.events@.len(),
                forall|j: int| 0 <= j < starts@.len() ==> (#[trigger] starts@[j]).1 <= n,
                forall|j: int|
                    0 <= j < segments@.len() ==> (#[trigger] segments@[j]).x0 <= segments@[j].x1 <= n,
                forall|j: int|
                    0 <= j < segments@.len() ==> colour_order@.contains(
                        (#[trigger] segments@[j]).colour_of,
                    ),
                colour_order@.no_duplicates(),
                forall|p: Pid| #[trigger] mentions(self.events@, p) ==> placed(starts@, segments@, p),
                forall|j: int| 0 <= j < k ==> lifeline(segments@, (#[trigger] starts@[j]).0),
            decreases starts@.len() - k,
        {
            let (pid, start) = starts[k];
            let ghost seg0 = segments@;
            let ghost order0 = colour_order@;
            note_colour(&mut colour_order, pid);
            segments.push(Segment { x0: start, y0: pid, x1: n, y1: pid, colour_of: pid });
            proof {
                let g = Segment { x0: start, y0: pid, x1: n, y1: pid, colour_of: pid };
                assert forall|p: Pid| #[trigger] mentions(self.events@, p) implies placed(starts@, segments@, p) by {
                    lemma_placed_push_segment(starts@, seg0, g, p);
                }
                assert forall|j: int| 0 <= j < k + 1 implies lifeline(segments@, (#[trigger] starts@[j]).0) by {
                    if j < k {
                        let m = choose|m: int| 0 <= m < seg0.len() && #[trigger] seg0[m].y0 == starts@[j].0 && seg0[m].y1 == starts@[j].0;
                        assert(segments@[m] == seg0[m]);
                    } else {
                        lemma_placed_push_segment(starts@, seg0, g, pid);
                    }
                }
                assert(starts@[k as int].1 <= n);
                assert forall|j: int| 0 <= j < segments@.len() implies colour_order@.contains(
                    (#[trigger] segments@[j]).colour_of) by {
                    if j < seg0.len() {
                        assert(order0.contains(seg0[j].colour_of));
                    }
                }
            }
            k = k + 1;
        }
        proof {
            assert forall|p: Pid| #[trigger] mentions(self.events@, p) implies lifeline(segments@, p) by {
                if has_key(starts@, p) {
                    let j = choose|j: int| 0 <= j < starts@.len() && (#[trigger] starts@[j]).0 == p;
                    assert(lifeline(segments@, starts@[j].0));
                }
            }
        }
        let width: usize = if n >= 384 {
            7680
        } else {
            (n + 1) * 20
        };
        let pid_count = pids.len();
        let height: usize = if pid_count >= 22 {
            4320
        } else if pid_count * 200 < 100 {
            100
        } else {
            pid_count * 200
        };
        GraphLayout { labels, segments, colour_order, y_min, y_max, width, height, pids }
    }
}

} // verus!
