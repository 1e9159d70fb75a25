//! Tests of the exec-merge pass.

use proctrace::merge::collapse_buffer_execs;
use proctrace::merge::fill_in_exec_args;
use proctrace::models::Event;
use proctrace::models::ExecArgsKind;

fn make_simple_events(
    initial_timestamp: u128,
    initial_seq: u128,
    protos: &[(&str, i32, i32)],
) -> Vec<Event> {
    let mut events = vec![];
    let mut timestamp = initial_timestamp;
    let mut seq = initial_seq;
    for (name, pid, ppid) in protos {
        let event = match *name {
            "fork" => Event::Fork { seq, timestamp, parent_pid: *ppid, child_pid: *pid, parent_pgid: *ppid },
            "exec" => Event::Exec { seq, timestamp, pid: *pid, ppid: *ppid, pgid: *pid, cmdline: None },
            "exec_args" => Event::ExecArgs { seq, timestamp, pid: *pid, args: ExecArgsKind::Joined("".to_string()) },
            "badexec" => Event::BadExec { seq, timestamp, pid: *pid },
            "exit" => Event::Exit { seq, timestamp, pid: *pid, ppid: *ppid, pgid: *pid },
            "setpgid" => Event::SetPGID { seq, timestamp, pid: *pid, ppid: *ppid, pgid: *pid },
            "setsid" => Event::SetSID { seq, timestamp, pid: *pid, ppid: *ppid, pgid: *pid, sid: *pid },
            _ => panic!("unknown event shorthand"),
        };
        seq += 1;
        timestamp += 1;
        events.push(event);
    }
    events
}

#[test]
fn exec_args_when_no_args_provided() {
    let event = Event::Exec {
        seq: 0,
        timestamp: 0,
        pid: 1,
        ppid: 0,
        pgid: 1,
        cmdline: Some(ExecArgsKind::Joined("args".to_string())),
    };
    let filled_in = fill_in_exec_args(vec![event.clone()]);
    assert!(filled_in.is_some());
    let filled_in = filled_in.unwrap();
    let Event::Exec { cmdline: original_args, .. } = event else {
        panic!();
    };
    let Event::Exec { cmdline: filled_in_args, .. } = filled_in else {
        panic!();
    };
    assert_eq!(original_args, filled_in_args);
}

#[test]
fn exec_args_filled_in_from_one_event() {
    let exec = Event::Exec { seq: 0, timestamp: 0, pid: 1, ppid: 0, pgid: 1, cmdline: None };
    let args = ExecArgsKind::Joined("args".to_string());
    let exec_args = Event::ExecArgs { seq: 1, timestamp: 1, pid: 1, args: args.clone() };
    let filled_in = fill_in_exec_args(vec![exec, exec_args]);
    assert!(filled_in.is_some());
    let filled_in = filled_in.unwrap();
    let Event::Exec { cmdline: Some(filled_in_args), .. } = filled_in else {
        panic!();
    };
    assert_eq!(args, filled_in_args);
}

#[test]
fn exec_args_filled_in_from_two_events() {
    let exec = Event::Exec { seq: 0, timestamp: 0, pid: 1, ppid: 0, pgid: 1, cmdline: None };
    let shorter_args = ExecArgsKind::Joined("args".to_string());
    let longer_args = ExecArgsKind::Joined("longer args".to_string());
    let exec_args1 = Event::ExecArgs { seq: 1, timestamp: 1, pid: 1, args: shorter_args.clone() };
    let exec_args2 = Event::ExecArgs { seq: 2, timestamp: 1, pid: 1, args: longer_args.clone() };
    let filled_in = fill_in_exec_args(vec![exec, exec_args1, exec_args2]);
    assert!(filled_in.is_some());
    let filled_in = filled_in.unwrap();
    let Event::Exec { cmdline: Some(filled_in_args), .. } = filled_in else {
        panic!();
    };
    assert_eq!(longer_args, filled_in_args);
}

#[test]
fn exec_args_not_filled_from_bad_number_of_events() {
    assert!(fill_in_exec_args(vec![]).is_none());

    let exec = Event::Exec { seq: 0, timestamp: 0, pid: 1, ppid: 0, pgid: 1, cmdline: None };
    assert!(fill_in_exec_args(vec![exec.clone(), exec.clone()]).is_none());

    let args = ExecArgsKind::Joined("args".to_string());
    let exec_args = Event::ExecArgs { seq: 1, timestamp: 1, pid: 1, args: args.clone() };
    assert!(
        fill_in_exec_args(
            vec![exec, exec_args.clone(), exec_args.clone(), exec_args.clone()],
        )
            .is_none(),
    );
}

#[test]
fn equal_length_args_resolve_to_the_second() {
    // the comparison is a strict greater-than against the first capture, so a
    // tie keeps the second one
    let exec = Event::Exec { seq: 0, timestamp: 0, pid: 1, ppid: 0, pgid: 1, cmdline: None };
    let first = ExecArgsKind::Joined("aaaa".to_string());
    let second = ExecArgsKind::Joined("bbbb".to_string());
    let ea1 = Event::ExecArgs { seq: 1, timestamp: 1, pid: 1, args: first };
    let ea2 = Event::ExecArgs { seq: 2, timestamp: 2, pid: 1, args: second.clone() };
    let filled_in = fill_in_exec_args(vec![exec, ea1, ea2]).unwrap();
    let Event::Exec { cmdline: Some(chosen), .. } = filled_in else {
        panic!();
    };
    assert_eq!(chosen, second);
}

#[test]
fn longer_of_none_joined_and_args_wins() {
    // an argument list renders by joining with spaces, and the byte length of
    // that rendering is what the captures are compared by
    let exec = Event::Exec { seq: 0, timestamp: 0, pid: 1, ppid: 0, pgid: 1, cmdline: None };
    let joined = ExecArgsKind::Joined("foo".to_string());
    let listed = ExecArgsKind::Args(vec!["foo".to_string(), "bar".to_string()]);
    let ea1 = Event::ExecArgs { seq: 1, timestamp: 1, pid: 1, args: listed.clone() };
    let ea2 = Event::ExecArgs { seq: 2, timestamp: 2, pid: 1, args: joined };
    // "foo bar" (7 bytes) beats "foo" (3 bytes) even from the first slot
    let filled_in = fill_in_exec_args(vec![exec, ea1, ea2]).unwrap();
    let Event::Exec { cmdline: Some(chosen), .. } = filled_in else {
        panic!();
    };
    assert_eq!(chosen, listed);
}

#[test]
fn rendered_len_counts_join_bytes() {
    assert_eq!(ExecArgsKind::Joined("ab".to_string()).rendered_len(), 2);
    assert_eq!(ExecArgsKind::Joined(String::new()).rendered_len(), 0);
    assert_eq!(ExecArgsKind::Args(vec![]).rendered_len(), 0);
    assert_eq!(ExecArgsKind::Args(vec!["ab".to_string()]).rendered_len(), 2);
    assert_eq!(
        ExecArgsKind::Args(vec!["ab".to_string(), "c".to_string()]).rendered_len(),
        4,
    );
    // multi-byte characters count by their UTF-8 encoding
    assert_eq!(ExecArgsKind::Joined("\u{e9}".to_string()).rendered_len(), 2);
}

#[test]
fn collapses_buffer_execs_at_end() {
    let mut events = make_simple_events(0, 0, &[("fork", 1, 0), ("setpgid", 1, 0), ("exec", 1, 0)]);
    events.push(Event::ExecArgs {
        seq: 3,
        timestamp: 4,
        pid: 1,
        args: ExecArgsKind::Joined("args".to_string()),
    });

    let collapsed = collapse_buffer_execs(events);
    assert_eq!(collapsed.len(), 3);
    assert!(matches!(collapsed.last().unwrap(), Event::Exec { .. }));
}

#[test]
fn collapses_buffer_execs_in_the_middle() {
    let events = make_simple_events(
        0,
        0,
        &[
            ("fork", 1, 0),
            ("setpgid", 1, 0),
            ("exec", 1, 0),
            ("exec_args", 1, 0),
            ("exec_args", 1, 0),
            ("setsid", 1, 0),
        ],
    );

    let collapsed = collapse_buffer_execs(events.clone());
    assert_eq!(collapsed.len(), 4); // the two exec_args records are absorbed
    assert!(matches!(collapsed.last().unwrap(), Event::SetSID { .. }));
}

#[test]
fn exec_args_for_another_pid_are_dropped() {
    let mut events = make_simple_events(0, 0, &[("exec", 1, 0)]);
    events.push(Event::ExecArgs {
        seq: 1,
        timestamp: 1,
        pid: 2,
        args: ExecArgsKind::Joined("other".to_string()),
    });
    let collapsed = collapse_buffer_execs(events.clone());
    assert_eq!(collapsed.len(), 1);
    let Event::Exec { cmdline, .. } = &collapsed[0] else {
        panic!();
    };
    assert!(cmdline.is_none());
}

#[test]
fn badexec_passes_through_and_flushes() {
    let events = make_simple_events(
        0,
        0,
        &[("exec", 1, 0), ("exec_args", 1, 0), ("badexec", 1, 0), ("exit", 1, 0)],
    );
    let collapsed = collapse_buffer_execs(events);
    assert_eq!(collapsed.len(), 3);
    assert!(matches!(collapsed[0], Event::Exec { .. }));
    assert!(matches!(collapsed[1], Event::BadExec { .. }));
    assert!(matches!(collapsed[2], Event::Exit { .. }));
}

#[test]
fn lone_exec_args_without_exec_is_dropped() {
    let events = make_simple_events(0, 0, &[("exec_args", 1, 0), ("exit", 1, 0)]);
    let collapsed = collapse_buffer_execs(events.clone());
    assert_eq!(collapsed, vec![events[1].clone()]);
}

#[test]
fn merge_run_keeps_the_longer_rendering() {
    // a run of one exec with no command line and two captures collapses to
    // one exec carrying the longer capture
    let run = vec![
        Event::Exec { seq: 0, timestamp: 0, pid: 1, ppid: 0, pgid: 1, cmdline: None },
        Event::ExecArgs {
            seq: 1,
            timestamp: 1,
            pid: 1,
            args: ExecArgsKind::Joined("foo".to_string()),
        },
        Event::ExecArgs {
            seq: 2,
            timestamp: 2,
            pid: 1,
            args: ExecArgsKind::Joined("foobar".to_string()),
        },
    ];
    let collapsed = collapse_buffer_execs(run);
    assert_eq!(collapsed.len(), 1);
    let Event::Exec { cmdline: Some(chosen), .. } = &collapsed[0] else {
        panic!();
    };
    assert_eq!(chosen, &ExecArgsKind::Joined("foobar".to_string()));

    // a lone exec is unchanged
    let lone = Event::Exec { seq: 0, timestamp: 0, pid: 1, ppid: 0, pgid: 1, cmdline: None };
    assert_eq!(collapse_buffer_execs(vec![lone.clone()]), vec![lone]);
}
