//! Tests of the ingestion router.

use proctrace::ingest::EventIngester;
use proctrace::ingest::EventWrite;
use proctrace::ingest::IngestError;
use proctrace::ingest::SinkError;
use proctrace::models::Event;
use proctrace::models::ExecArgsKind;

fn make_simple_events(
    initial_timestamp: u128,
    initial_seq: u128,
    protos: &[(&str, i32, i32)],
) -> Vec<Event> {
    let mut events = vec![];
    let mut timestamp = initial_timestamp;
    let mut seq = initial_seq;
    for (name, pid, ppid) in protos {
        let event = match *name {
            "fork" => Event::Fork { seq, timestamp, parent_pid: *ppid, child_pid: *pid, parent_pgid: *ppid },
            "exec" => Event::Exec { seq, timestamp, pid: *pid, ppid: *ppid, pgid: *pid, cmdline: None },
            "exec_args" => Event::ExecArgs { seq, timestamp, pid: *pid, args: ExecArgsKind::Joined("".to_string()) },
            "badexec" => Event::BadExec { seq, timestamp, pid: *pid },
            "exit" => Event::Exit { seq, timestamp, pid: *pid, ppid: *ppid, pgid: *pid },
            "setpgid" => Event::SetPGID { seq, timestamp, pid: *pid, ppid: *ppid, pgid: *pid },
            "setsid" => Event::SetSID { seq, timestamp, pid: *pid, ppid: *ppid, pgid: *pid, sid: *pid },
            _ => panic!("unknown event shorthand"),
        };
        seq += 1;
        timestamp += 1;
        events.push(event);
    }
    events
}

#[derive(Debug)]
struct MockWriter {
    events: Vec<Event>,
    raw: Vec<String>,
}

impl MockWriter {
    fn new() -> Self {
        Self { events: vec![], raw: vec![] }
    }
}

impl EventWrite for MockWriter {
    fn write_event(&mut self, event: &Event) -> Result<(), SinkError> {
        self.events.push(event.clone());
        Ok(())
    }

    fn write_raw(&mut self, line: &str) -> Result<(), SinkError> {
        self.raw.push(line.to_string());
        Ok(())
    }
}

/// A sink that refuses everything, to show a failure never corrupts state.
#[derive(Debug)]
struct FailingWriter;

impl EventWrite for FailingWriter {
    fn write_event(&mut self, _event: &Event) -> Result<(), SinkError> {
        Err(SinkError)
    }

    fn write_raw(&mut self, _line: &str) -> Result<(), SinkError> {
        Err(SinkError)
    }
}

fn mock_ingester(root_pid: Option<i32>) -> EventIngester<MockWriter> {
    EventIngester::new(root_pid, Some(MockWriter::new()))
}

#[test]
fn ingest_it_works() {}

#[test]
fn ingest_detects_initial_fork() {
    let root_pid = 3;
    // the record that would be detected as the initial fork is
    // ("fork", root_pid, anything)
    let dummy_events = make_simple_events(0, 0, &[("exec", 1, 0), ("fork", 2, 1), ("fork", 4, 2)]);
    let mut ingester = mock_ingester(Some(root_pid));
    for event in dummy_events.iter() {
        ingester.observe_event(event.clone()).unwrap();
    }

    // everything so far is buffered, since the root pid has not been seen, so
    // nothing has been written through either
    assert!(ingester.writer().unwrap().events.is_empty());
    assert!(!ingester.have_seen_initial_fork());

    assert!(
        ingester
            .is_initial_fork(
                &Event::Fork {
                    seq: 1,
                    timestamp: 10,
                    parent_pid: 2,
                    child_pid: root_pid,
                    parent_pgid: 2,
                },
            )
            .unwrap(),
    )
}

#[test]
fn ingest_drains_buffered_events_from_initial_fork() {
    let root_pid = 1; // the child pid of the fork
    let dummy_events = make_simple_events(
        1,
        1,
        &[("badexec", root_pid, 0), ("exec_args", root_pid, 0), ("exec", root_pid, 0)],
    );

    let mut ingester = mock_ingester(Some(root_pid));
    for event in dummy_events.iter() {
        ingester.observe_event(event.clone()).unwrap();
    }

    // everything so far is buffered, since the root pid has not been seen
    assert!(!ingester.have_seen_initial_fork());

    let fork = Event::Fork { seq: 0, timestamp: 0, parent_pid: 0, child_pid: root_pid, parent_pgid: 0 };
    ingester.observe_event(fork).unwrap();

    // the pid is now tracked and the buffered records were promoted behind it
    let mut ledger = ingester.into_tracked_events();
    let root_events = ledger.remove(root_pid).unwrap();
    assert_eq!(root_events.len(), 4);
    assert!(matches!(root_events.first().unwrap(), Event::Fork { child_pid: 1, .. }));
}

#[test]
fn ingest_stores_events_from_tracked_pid() {
    let root_pid = 1;
    let events = make_simple_events(
        1,
        0,
        &[("setsid", root_pid, 0), ("setsid", root_pid, 0), ("setsid", root_pid, 0)],
    );
    let mut ingester = mock_ingester(Some(root_pid));
    // ensure the root pid is tracked before any telemetry
    ingester.register_root(root_pid);

    for event in events.iter() {
        ingester.observe_event(event.clone()).unwrap();
    }

    let mut ledger = ingester.into_tracked_events();
    let root_events = ledger.remove(root_pid).unwrap();
    assert_eq!(root_events.len(), 3);
}

#[test]
fn ingest_stores_events_from_initial_fork() {
    let root_pid = 1; // the child pid of the fork
    let events = make_simple_events(
        1,
        1,
        &[("fork", root_pid, 0), ("setsid", root_pid, 0), ("setsid", root_pid, 0)],
    );

    let mut ingester = mock_ingester(Some(root_pid));
    for event in events.iter() {
        ingester.observe_event(event.clone()).unwrap();
    }

    let mut ledger = ingester.into_tracked_events();
    let root_events = ledger.remove(root_pid).unwrap();
    assert_eq!(root_events.len(), 3);
    assert!(matches!(root_events.first().unwrap(), Event::Fork { child_pid: 1, .. }));
}

#[test]
fn ingest_follows_new_forks() {
    let root_pid = 1;
    let events = make_simple_events(
        0,
        0,
        &[("fork", root_pid, 0), ("exec", root_pid, 0), ("exec_args", root_pid, 0)],
    );

    let mut ingester = mock_ingester(Some(root_pid));
    for event in events.iter() {
        ingester.observe_event(event.clone()).unwrap();
    }

    let new_events = make_simple_events(
        3,
        3,
        &[("fork", 2, root_pid), ("exec", 2, root_pid), ("exec_args", 2, root_pid)],
    );
    for event in new_events.iter() {
        ingester.observe_event(event.clone()).unwrap();
    }

    let mut ledger = ingester.into_tracked_events();
    let recorded_new_events = ledger.remove(2).unwrap();
    assert_eq!(recorded_new_events.len(), 3);
}

#[test]
fn set_root_pid_only_once() {
    let mut ingester: EventIngester<MockWriter> = EventIngester::new(None, None);
    assert_eq!(ingester.root_pid(), None);
    ingester.set_root_pid(5).unwrap();
    assert_eq!(ingester.root_pid(), Some(5));
    assert_eq!(ingester.set_root_pid(6), Err(IngestError::RootPidAlreadySet));
    assert_eq!(ingester.root_pid(), Some(5));
}

#[test]
fn scenario_single_process_lifecycle() {
    // root 2 forks, execs (command line arriving separately), and exits; the
    // tracked sequence holds all four records in order, and the exec merge
    // then folds the command line into the exec
    let root_pid = 2;
    let fork = Event::Fork { seq: 0, timestamp: 0, parent_pid: 1, child_pid: 2, parent_pgid: 1 };
    let exec = Event::Exec { seq: 1, timestamp: 1, pid: 2, ppid: 1, pgid: 2, cmdline: None };
    let exec_args = Event::ExecArgs {
        seq: 2,
        timestamp: 2,
        pid: 2,
        args: ExecArgsKind::Joined("foo".to_string()),
    };
    let exit = Event::Exit { seq: 3, timestamp: 3, pid: 2, ppid: 1, pgid: 2 };
    let all = vec![fork.clone(), exec.clone(), exec_args.clone(), exit.clone()];

    let mut ingester = mock_ingester(Some(root_pid));
    for event in all.iter() {
        ingester.observe_event(event.clone()).unwrap();
    }
    let mut ledger = ingester.into_tracked_events();
    assert_eq!(ledger.remove(2).unwrap(), all);

    let mut ingester = mock_ingester(Some(root_pid));
    for event in all.iter() {
        ingester.observe_event(event.clone()).unwrap();
    }
    ingester.prepare_for_rendering();
    let mut ledger = ingester.into_tracked_events();
    let collapsed = ledger.remove(2).unwrap();
    assert_eq!(collapsed.len(), 3);
    assert_eq!(collapsed[0], fork);
    assert_eq!(
        collapsed[1],
        Event::Exec {
            seq: 1,
            timestamp: 1,
            pid: 2,
            ppid: 1,
            pgid: 2,
            cmdline: Some(ExecArgsKind::Joined("foo".to_string())),
        },
    );
    assert_eq!(collapsed[2], exit);
}

#[test]
fn scenario_out_of_order_chain_promotes_in_one_observation() {
    // with root 1 already tracked, a grandchild fork arriving before its
    // parent is buffered; the parent fork then promotes both in the drain of
    // that single observation, written through oldest process first
    let root_pid = 1;
    let mut ingester = mock_ingester(Some(root_pid));
    ingester.register_root(root_pid);

    let grandchild = Event::Fork { seq: 1, timestamp: 5, parent_pid: 2, child_pid: 3, parent_pgid: 2 };
    ingester.observe_event(grandchild.clone()).unwrap();
    assert!(!ingester.tracked_events().pid_is_tracked(3));
    assert!(ingester.writer().unwrap().events.is_empty());

    let child = Event::Fork { seq: 0, timestamp: 1, parent_pid: 1, child_pid: 2, parent_pgid: 1 };
    ingester.observe_event(child.clone()).unwrap();
    assert!(ingester.tracked_events().pid_is_tracked(2));
    assert!(ingester.tracked_events().pid_is_tracked(3));
    // write-through happened in ascending order of each process's first timestamp
    assert_eq!(ingester.writer().unwrap().events, vec![child, grandchild]);
}

#[test]
fn unlinked_pids_never_reach_the_tracked_ledger() {
    // records for processes never fork-linked to the root stay quarantined
    let root_pid = 1;
    let mut ingester = mock_ingester(Some(root_pid));
    let events = make_simple_events(
        0,
        0,
        &[
            ("fork", root_pid, 0),
            ("fork", 20, 19), // an unrelated subtree
            ("exec", 20, 19),
            ("fork", 21, 20),
            ("exit", 20, 19),
        ],
    );
    for event in events.iter() {
        ingester.observe_event(event.clone()).unwrap();
    }
    let ledger = ingester.tracked_events();
    assert!(ledger.pid_is_tracked(root_pid));
    assert!(!ledger.pid_is_tracked(19));
    assert!(!ledger.pid_is_tracked(20));
    assert!(!ledger.pid_is_tracked(21));
}

#[test]
fn quarantined_records_are_kept_until_linked() {
    // a buffered subtree is retained in full: once a later fork links it to
    // the root, every buffered record is promoted intact
    let root_pid = 1;
    let mut ingester = mock_ingester(Some(root_pid));
    let early = make_simple_events(
        10,
        1,
        &[("fork", 30, 2), ("exec", 30, 2), ("exit", 30, 2)],
    );
    for event in early.iter() {
        ingester.observe_event(event.clone()).unwrap();
    }
    let root_fork = Event::Fork { seq: 0, timestamp: 0, parent_pid: 0, child_pid: 1, parent_pgid: 0 };
    ingester.observe_event(root_fork).unwrap();
    assert!(!ingester.tracked_events().pid_is_tracked(30));

    // the missing link arrives: 1 forked 2, so 2 and the whole 30 subtree join
    let link = Event::Fork { seq: 4, timestamp: 1, parent_pid: 1, child_pid: 2, parent_pgid: 1 };
    ingester.observe_event(link).unwrap();
    assert!(ingester.tracked_events().pid_is_tracked(2));
    assert!(ingester.tracked_events().pid_is_tracked(30));
    let mut ledger = ingester.into_tracked_events();
    assert_eq!(ledger.remove(30).unwrap(), early);
}

#[test]
fn chain_promotes_regardless_of_arrival_order() {
    // a fork chain 1 -> 2 -> 3 -> 4 arrives in every order; once all records
    // are observed, every link is tracked
    let root_pid = 1;
    let forks = vec![
        Event::Fork { seq: 0, timestamp: 0, parent_pid: 0, child_pid: 1, parent_pgid: 0 },
        Event::Fork { seq: 1, timestamp: 1, parent_pid: 1, child_pid: 2, parent_pgid: 1 },
        Event::Fork { seq: 2, timestamp: 2, parent_pid: 2, child_pid: 3, parent_pgid: 2 },
        Event::Fork { seq: 3, timestamp: 3, parent_pid: 3, child_pid: 4, parent_pgid: 3 },
    ];
    let orders: [[usize; 4]; 4] = [[0, 1, 2, 3], [3, 2, 1, 0], [2, 0, 3, 1], [1, 3, 0, 2]];
    for order in orders.iter() {
        let mut ingester = mock_ingester(Some(root_pid));
        for &i in order.iter() {
            ingester.observe_event(forks[i].clone()).unwrap();
        }
        let ledger = ingester.tracked_events();
        for pid in 1..=4 {
            assert!(ledger.pid_is_tracked(pid), "pid {} missing for order {:?}", pid, order);
        }
    }
}

#[test]
fn sink_failure_reported_but_state_complete() {
    let root_pid = 1;
    let mut ingester: EventIngester<FailingWriter> =
        EventIngester::new(Some(root_pid), Some(FailingWriter));
    let fork = Event::Fork { seq: 0, timestamp: 0, parent_pid: 0, child_pid: 1, parent_pgid: 0 };
    let err = ingester.observe_event(fork).unwrap_err();
    assert_eq!(err, IngestError::SinkFailure);
    // the record was kept despite the failing sink
    assert!(ingester.tracked_events().pid_is_tracked(root_pid));
}

#[test]
fn write_raw_forwards_lines() {
    let mut ingester = mock_ingester(None);
    ingester.write_raw("FORK: raw line").unwrap();
    assert_eq!(ingester.writer().unwrap().raw, vec!["FORK: raw line".to_string()]);
}
