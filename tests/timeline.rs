use minitarp::launch::test_environment;
use minitarp::statemachine::timeline::{Event as SignalEvent, Timeline};
use minitarp::timeline::{Event, EventLog, RunType, TestBinary, TraceEvent};

fn trace(pid: i32, child: Option<i32>, ret: Option<i64>, description: &str) -> Event {
    Event::Trace(TraceEvent {
        pid: Some(pid),
        child,
        signal: None,
        addr: None,
        return_val: ret,
        description: description.to_string(),
    })
}

fn signal_event(pid: i32, child: Option<i32>, descr: &str) -> SignalEvent {
    SignalEvent {
        pid,
        child,
        addr: None,
        descr: descr.to_string(),
    }
}

#[test]
fn new_thread_event_names_child() {
    let e = SignalEvent::new_thread(Some(0x10), 100, 101);
    assert_eq!(e.pid, 100);
    assert_eq!(e.child, Some(101));
    assert_eq!(e.addr, Some(0x10));
    assert_eq!(e.descr, "New Thread 101");
}

#[test]
fn timeline_keeps_order_and_distinct_pids() {
    let mut t = Timeline::new();
    t.add_event(signal_event(5, None, "a"));
    t.add_event(signal_event(6, None, "b"));
    t.add_event(signal_event(5, None, "c"));
    let d: Vec<&str> = t.event_list().iter().map(|e| e.descr.as_str()).collect();
    assert_eq!(d, vec!["a", "b", "c"]);
    assert_eq!(t.pid_list(), &vec![5, 6]);
    assert_eq!(t.indices_of(5), vec![0, 2]);
    assert_eq!(t.first_event_of(6), Some(1));
    assert_eq!(t.first_event_of(7), None);
}

#[test]
fn empty_log_layout() {
    let log = EventLog { events: vec![] };
    let l = log.layout();
    assert!(l.labels.is_empty());
    assert!(l.segments.is_empty());
    assert_eq!(l.width, 20);
    assert_eq!(l.height, 100);
    assert_eq!(l.y_min, i32::MAX);
    assert_eq!(l.y_max, 0);
}

#[test]
fn layout_of_small_log() {
    let binary = TestBinary {
        path: "target/debug/t".to_string(),
        ty: Some(RunType::Tests),
        cargo_dir: None,
        pkg_name: None,
        pkg_version: None,
        pkg_authors: None,
        should_panic: false,
    };
    let log = EventLog {
        events: vec![
            Event::ConfigLaunch("default".to_string()),
            Event::BinaryLaunch(binary),
            trace(10, None, None, "start"),
            trace(10, Some(11), None, "clone"),
            trace(11, None, Some(0), "exit"),
        ],
    };
    assert_eq!(log.events[3].get_pid(), Some(10));
    assert_eq!(log.events[0].get_pid(), None);
    assert_eq!(log.pids(), vec![10, 11]);
    let l = log.layout();
    let labels: Vec<(usize, i32, String)> =
        l.labels.iter().map(|x| (x.x, x.y, x.text.clone())).collect();
    assert_eq!(
        labels,
        vec![
            (0, 0, "Running config default".to_string()),
            (1, 0, "Launching target/debug/t".to_string()),
            (2, 10, "start".to_string()),
            (3, 10, "clone".to_string()),
            (4, 11, "exit".to_string()),
        ]
    );
    assert_eq!(l.y_min, 10);
    assert_eq!(l.y_max, 11);
    assert_eq!(l.width, 120);
    assert_eq!(l.height, 400);
    assert_eq!(l.colour_order, vec![11, 10]);
    let segs: Vec<(usize, i32, usize, i32)> =
        l.segments.iter().map(|s| (s.x0, s.y0, s.x1, s.y1)).collect();
    assert_eq!(
        segs,
        vec![(3, 10, 4, 11), (4, 11, 4, 11), (2, 10, 5, 10)]
    );
}

#[test]
fn layout_size_is_capped() {
    let events: Vec<Event> = (0..500).map(|i| trace(i, None, None, "x")).collect();
    let l = EventLog { events }.layout();
    assert_eq!(l.width, 7680);
    assert_eq!(l.height, 4320);
    assert_eq!(l.y_min, 0);
    assert_eq!(l.y_max, 499);
}

#[test]
fn environment_for_test_binary() {
    let vars = vec![
        ("HOME".to_string(), "/root".to_string()),
        ("A".to_string(), "".to_string()),
    ];
    assert_eq!(
        test_environment(&vars),
        vec![
            "RUST_TEST_THREADS=1".to_string(),
            "HOME=/root".to_string(),
            "A=".to_string(),
            "RUST_BACKTRACE=1".to_string(),
        ]
    );
    assert_eq!(test_environment(&vec![]).len(), 2);
}

#[test]
fn event_sits_before_instruction_pointer() {
    let e = SignalEvent::located(3, "x".to_string(), Ok(0x401001));
    assert_eq!(e.addr, Some(0x401000));
    assert_eq!(SignalEvent::located(3, "x".to_string(), Ok(0)).addr, None);
    let gone = SignalEvent::located(3, "x".to_string(), Err(minitarp::ptrace_control::TraceError::Io));
    assert_eq!(gone.addr, None);
}
