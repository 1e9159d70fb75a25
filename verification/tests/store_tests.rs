//! Tests of the per-process event ledger.

use proctrace::models::Event;
use proctrace::models::ExecArgsKind;
use proctrace::store::EventStore;
use proctrace::store::StoreError;

fn make_simple_events(
    initial_timestamp: u128,
    initial_seq: u128,
    protos: &[(&str, i32, i32)],
) -> Vec<Event> {
    let mut events = vec![];
    let mut timestamp = initial_timestamp;
    let mut seq = initial_seq;
    for (name, pid, ppid) in protos {
        let event = match *name {
            "fork" => Event::Fork { seq, timestamp, parent_pid: *ppid, child_pid: *pid, parent_pgid: *ppid },
            "exec" => Event::Exec { seq, timestamp, pid: *pid, ppid: *ppid, pgid: *pid, cmdline: None },
            "exec_args" => Event::ExecArgs { seq, timestamp, pid: *pid, args: ExecArgsKind::Joined("".to_string()) },
            "badexec" => Event::BadExec { seq, timestamp, pid: *pid },
            "exit" => Event::Exit { seq, timestamp, pid: *pid, ppid: *ppid, pgid: *pid },
            "setpgid" => Event::SetPGID { seq, timestamp, pid: *pid, ppid: *ppid, pgid: *pid },
            "setsid" => Event::SetSID { seq, timestamp, pid: *pid, ppid: *ppid, pgid: *pid, sid: *pid },
            _ => panic!("unknown event shorthand"),
        };
        seq += 1;
        timestamp += 1;
        events.push(event);
    }
    events
}

#[test]
fn models_events_inserted_in_order() {
    let events = make_simple_events(
        0,
        0,
        &[
            ("fork", 1, 0),
            ("exec", 1, 0),
            ("exec_args", 1, 0),
            ("setpgid", 1, 0),
            ("setsid", 1, 0),
        ],
    );
    let mut shuffled = events.clone();
    shuffled.swap(0, 3);
    shuffled.swap(2, 3);

    let mut store = EventStore::new();
    store.add_many(1, shuffled);

    let stored = store.remove(1).unwrap();

    assert_eq!(events, stored);
}

#[test]
fn models_reports_unfinished_pids() {
    let events = make_simple_events(
        0,
        0,
        &[
            ("fork", 1, 0),
            ("exec", 1, 0),
            ("fork", 2, 0),
            ("exec", 2, 0),
            ("fork", 3, 0),
            ("exit", 3, 0), // this pid will be finished
        ],
    );

    let mut store = EventStore::new();
    for event in events.iter() {
        store.add(event.pid(), event.clone());
    }

    let unfinished = store.unfinished_pids();
    assert_eq!(unfinished, vec![1, 2]);
}

#[test]
fn models_returns_ordered_events() {
    let events = make_simple_events(
        0,
        0,
        &[
            ("fork", 1, 0),
            ("exec", 1, 0),
            ("exec_args", 1, 0),
            ("setpgid", 1, 0),
            ("setsid", 1, 0),
        ],
    );
    let mut shuffled = events.clone();
    shuffled.swap(0, 3);
    shuffled.swap(2, 3);

    let mut store = EventStore::new();
    store.add_many(1, shuffled);

    let stored = store.events_ordered();

    assert_eq!(events, stored);
}

#[test]
fn models_returns_ordered_buffers() {
    let events = make_simple_events(
        0,
        0,
        &[
            // All forks, because that is what creates an entry for a pid;
            // each is created by the previous one.
            ("fork", 1, 0),
            ("fork", 2, 1),
            ("fork", 3, 2),
            ("fork", 4, 3),
        ],
    );

    let mut store = EventStore::new();
    for event in events.iter() {
        store.add(event.pid(), event.clone());
    }

    let ordered_pids: Vec<i32> = store.pid_buffers_ordered().iter().map(|(pid, _)| *pid).collect();
    assert_eq!(ordered_pids, vec![1, 2, 3, 4]);
}

#[test]
fn iterates_fork_order() {
    let events = make_simple_events(
        0,
        0,
        &[
            ("fork", 1, 0),
            ("fork", 2, 1),
            ("fork", 3, 2),
            ("fork", 4, 2),
            ("fork", 5, 3),
            ("fork", 6, 1),
        ],
    );
    let mut store = EventStore::new();
    for event in events.iter() {
        store.add(event.pid(), event.clone());
    }
    let ordered: Vec<i32> = store
        .buffers_depth_first_fork_order(1)
        .unwrap()
        .iter()
        .map(|(pid, _)| *pid)
        .collect();
    let expected = vec![1, 2, 3, 5, 4, 6];
    assert_eq!(ordered, expected);
}

#[test]
fn depth_first_from_untracked_root_fails() {
    let store = EventStore::new();
    let err = store.buffers_depth_first_fork_order(7).unwrap_err();
    assert_eq!(err, StoreError::UntrackedRoot { pid: 7 });
}

#[test]
fn empty_ledger_reports_no_unfinished_pids() {
    // An empty ledger trivially reports no unfinished pids, so a caller must
    // pair this with a non-emptiness check.
    let store = EventStore::new();
    assert!(store.unfinished_pids().is_empty());
    assert!(store.is_empty());
}

#[test]
fn register_root_creates_empty_unfinished_entry() {
    let mut store = EventStore::new();
    store.register_root(9);
    assert!(!store.is_empty());
    assert!(store.pid_is_tracked(9));
    assert_eq!(store.unfinished_pids(), vec![9]);
    assert_eq!(store.remove(9), Some(vec![]));
}

#[test]
fn all_insertion_orders_agree() {
    let events = make_simple_events(
        0,
        0,
        &[("fork", 4, 0), ("exec", 4, 0), ("setsid", 4, 0)],
    );
    // every permutation of three records gives the same sorted sequence
    let orders: [[usize; 3]; 6] =
        [[0, 1, 2], [0, 2, 1], [1, 0, 2], [1, 2, 0], [2, 0, 1], [2, 1, 0]];
    for order in orders.iter() {
        let mut store = EventStore::new();
        for &i in order.iter() {
            store.add(4, events[i].clone());
        }
        assert_eq!(store.remove(4).unwrap(), events);
    }
}

#[test]
fn equal_timestamps_flatten_in_pid_order() {
    // two records with one timestamp under different pids: the global order
    // keeps the flattening order, which is ascending by pid
    let e_pid2 = Event::Exit { seq: 0, timestamp: 5, pid: 2, ppid: 0, pgid: 2 };
    let e_pid1 = Event::Exit { seq: 1, timestamp: 5, pid: 1, ppid: 0, pgid: 1 };
    let mut store = EventStore::new();
    store.add(2, e_pid2.clone());
    store.add(1, e_pid1.clone());
    let ordered = store.events_ordered();
    assert_eq!(ordered, vec![e_pid1, e_pid2]);
}

#[test]
fn equal_timestamps_keep_insertion_order_per_pid() {
    let first = Event::SetSID { seq: 0, timestamp: 5, pid: 1, ppid: 0, pgid: 1, sid: 1 };
    let second = Event::SetPGID { seq: 1, timestamp: 5, pid: 1, ppid: 0, pgid: 1 };
    let mut store = EventStore::new();
    store.add(1, first.clone());
    store.add(1, second.clone());
    assert_eq!(store.remove(1).unwrap(), vec![first, second]);
}

#[test]
fn parent_comes_from_front_fork_only() {
    let events = make_simple_events(0, 0, &[("fork", 2, 1), ("exec", 2, 1)]);
    let mut store = EventStore::new();
    for event in events.iter() {
        store.add(event.pid(), event.clone());
    }
    assert_eq!(store.parent(2), Some(1));
    // a pid whose front record is not a fork has no known parent
    let exec_only = make_simple_events(10, 0, &[("exec", 3, 2)]);
    store.add(3, exec_only[0].clone());
    assert_eq!(store.parent(3), None);
    assert_eq!(store.parent(42), None);
}

#[test]
fn start_time_is_front_timestamp() {
    let events = make_simple_events(7, 0, &[("fork", 2, 1), ("exec", 2, 1)]);
    let mut store = EventStore::new();
    for event in events.iter() {
        store.add(event.pid(), event.clone());
    }
    assert_eq!(store.pid_start_time(2), Some(7));
    assert_eq!(store.pid_start_time(3), None);
}
