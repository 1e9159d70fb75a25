//! Tests of span extraction for the renderers.

use proctrace::models::Event;
use proctrace::models::ExecArgsKind;
use proctrace::render::BufferHeader;
use proctrace::render::MermaidItem;
use proctrace::render::RenderError;
use proctrace::render::SpanCommand;
use proctrace::render::extract_displayable_buffer_header;
use proctrace::render::extract_fork_span;
use proctrace::render::extract_multiple_exec_spans;
use proctrace::render::extract_single_exec_span;
use proctrace::render::parse_buffer;

fn make_simple_events(
    initial_timestamp: u128,
    initial_seq: u128,
    protos: &[(&str, i32, i32)],
) -> Vec<Event> {
    let mut events = vec![];
    let mut timestamp = initial_timestamp;
    let mut seq = initial_seq;
    for (name, pid, ppid) in protos {
        let event = match *name {
            "fork" => Event::Fork { seq, timestamp, parent_pid: *ppid, child_pid: *pid, parent_pgid: *ppid },
            "exec" => Event::Exec { seq, timestamp, pid: *pid, ppid: *ppid, pgid: *pid, cmdline: None },
            "exec_args" => Event::ExecArgs { seq, timestamp, pid: *pid, args: ExecArgsKind::Joined("".to_string()) },
            "badexec" => Event::BadExec { seq, timestamp, pid: *pid },
            "exit" => Event::Exit { seq, timestamp, pid: *pid, ppid: *ppid, pgid: *pid },
            "setpgid" => Event::SetPGID { seq, timestamp, pid: *pid, ppid: *ppid, pgid: *pid },
            "setsid" => Event::SetSID { seq, timestamp, pid: *pid, ppid: *ppid, pgid: *pid, sid: *pid },
            _ => panic!("unknown event shorthand"),
        };
        seq += 1;
        timestamp += 1;
        events.push(event);
    }
    events
}

#[test]
fn extracts_fork_span() {
    let events = make_simple_events(0, 0, &[("fork", 1, 0), ("exit", 1, 0)]);
    let item = extract_fork_span(&events).unwrap();
    assert!(matches!(item, MermaidItem::Single(_)));
}

#[test]
fn extracts_single_exec_span() {
    let events = make_simple_events(0, 0, &[("fork", 1, 0), ("exec", 1, 0), ("exit", 1, 0)]);
    let item = extract_single_exec_span(&events, 1).unwrap();
    assert!(matches!(item, MermaidItem::Single(_)));
}

#[test]
fn extracts_multiple_exec_spans() {
    let events = make_simple_events(
        0,
        0,
        &[("fork", 1, 0), ("exec", 1, 0), ("exec", 1, 0), ("exec", 1, 0), ("exit", 1, 0)],
    );
    let item = extract_multiple_exec_spans(&events, &[1, 2, 3]).unwrap();
    assert!(matches!(item, MermaidItem::ExecGroup(_)));
    let MermaidItem::ExecGroup(spans) = item else {
        panic!()
    };
    assert_eq!(spans.len(), 3);
}

#[test]
fn fork_span_covers_whole_lifetime() {
    let events = make_simple_events(3, 0, &[("fork", 1, 0), ("setsid", 1, 0), ("exit", 1, 0)]);
    let MermaidItem::Single(span) = extract_fork_span(&events).unwrap() else {
        panic!();
    };
    assert_eq!(span.pid, 1);
    assert_eq!(span.start, 3);
    assert_eq!(span.stop, 5);
    assert_eq!(span.command, SpanCommand::ForkOnly);
}

#[test]
fn single_exec_span_takes_the_command_line() {
    let mut events = make_simple_events(0, 0, &[("fork", 1, 0)]);
    events.push(Event::Exec {
        seq: 1,
        timestamp: 1,
        pid: 1,
        ppid: 0,
        pgid: 1,
        cmdline: Some(ExecArgsKind::Joined("foo bar".to_string())),
    });
    let MermaidItem::Single(span) = extract_single_exec_span(&events, 1).unwrap() else {
        panic!();
    };
    assert_eq!(span.command, SpanCommand::Command(ExecArgsKind::Joined("foo bar".to_string())));
}

#[test]
fn span_extraction_error_cases() {
    assert_eq!(extract_fork_span(&[]).unwrap_err(), RenderError::EmptyBuffer);
    assert_eq!(extract_single_exec_span(&[], 0).unwrap_err(), RenderError::EmptyBuffer);
    let events = make_simple_events(0, 0, &[("fork", 1, 0)]);
    // index out of range, and index at a record that is not an exec
    assert_eq!(extract_single_exec_span(&events, 5).unwrap_err(), RenderError::MissingExec);
    assert_eq!(extract_single_exec_span(&events, 0).unwrap_err(), RenderError::MissingExec);
    assert_eq!(parse_buffer(&[]).unwrap_err(), RenderError::EmptyBuffer);
}

#[test]
fn parse_buffer_picks_the_span_shape() {
    let no_exec = make_simple_events(0, 0, &[("fork", 1, 0), ("exit", 1, 0)]);
    assert!(matches!(parse_buffer(&no_exec).unwrap(), MermaidItem::Single(_)));

    let one_exec = make_simple_events(0, 0, &[("fork", 1, 0), ("exec", 1, 0), ("exit", 1, 0)]);
    assert!(matches!(parse_buffer(&one_exec).unwrap(), MermaidItem::Single(_)));

    let two_execs =
        make_simple_events(0, 0, &[("fork", 1, 0), ("exec", 1, 0), ("exec", 1, 0), ("exit", 1, 0)]);
    let MermaidItem::ExecGroup(spans) = parse_buffer(&two_execs).unwrap() else {
        panic!();
    };
    assert_eq!(spans.len(), 2);
}

#[test]
fn header_shows_fork_parentage_without_exec() {
    let events = make_simple_events(0, 0, &[("fork", 2, 1), ("exit", 2, 1)]);
    let header = extract_displayable_buffer_header(2, &events).unwrap();
    assert_eq!(header, BufferHeader::ForkedFrom { child_pid: 2, parent_pid: 1 });
}

#[test]
fn header_shows_command_after_fork_and_exec() {
    let mut events = make_simple_events(0, 0, &[("fork", 2, 1)]);
    events.push(Event::Exec {
        seq: 1,
        timestamp: 1,
        pid: 2,
        ppid: 1,
        pgid: 2,
        cmdline: Some(ExecArgsKind::Joined("cmd".to_string())),
    });
    let header = extract_displayable_buffer_header(2, &events).unwrap();
    assert_eq!(
        header,
        BufferHeader::Command { pid: 2, cmdline: Some(ExecArgsKind::Joined("cmd".to_string())) },
    );
}

#[test]
fn header_for_lone_exec_and_for_odd_buffers() {
    let exec_only = make_simple_events(0, 0, &[("exec", 2, 1)]);
    let header = extract_displayable_buffer_header(2, &exec_only).unwrap();
    assert_eq!(header, BufferHeader::Command { pid: 2, cmdline: None });

    // a buffer that opens with neither a fork nor an exec gets the bare pid
    let odd = make_simple_events(0, 0, &[("setsid", 2, 1), ("exit", 2, 1)]);
    let header = extract_displayable_buffer_header(2, &odd).unwrap();
    assert_eq!(header, BufferHeader::Bare { pid: 2 });

    assert_eq!(extract_displayable_buffer_header(2, &[]).unwrap_err(), RenderError::EmptyBuffer);
}
