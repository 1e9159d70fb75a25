//! Shaping one process's records into labelled time spans and headers for
//! the renderers, which only format what is extracted here.

use vstd::prelude::*;

use crate::models::Event;
use crate::models::ExecArgsKind;

verus! {

/// The errors of span extraction.
#[derive(Debug, Clone, PartialEq, Eq)]
pub enum RenderError {
    /// A span was requested over no records.
    EmptyBuffer,
    /// The record at the given exec position is not an `Exec`.
    MissingExec,
}

/// What a span's label is built from.
#[derive(Debug, Clone, PartialEq, Eq)]
pub enum SpanCommand {
    /// The span covers no exec: it shows the bare fork.
    ForkOnly,
    /// The span's exec carries no command line.
    Unavailable,
    /// The span's exec ran this command line.
    Command(ExecArgsKind),
}

/// One bar of the Gantt-style chart: a process (or one exec within a
/// process), from its first to its last covered record.
#[derive(Debug, Clone, PartialEq, Eq)]
pub struct Span {
    pub pid: i32,
    pub start: u128,
    pub stop: u128,
    pub command: SpanCommand,
}

/// What one process's records render to: one span, or one span per exec when
/// the process exec'd more than once.
#[derive(Debug, Clone, PartialEq, Eq)]
pub enum MermaidItem {
    Single(Span),
    ExecGroup(Vec<Span>),
}

/// How the span over `[start_idx, end_idx)` of `events`, with its exec (if
/// any) at `exec_idx`, must come out.
pub open spec fn span_matches(
    events: Seq<Event>,
    start_idx: int,
    end_idx: int,
    command: SpanCommand,
    sp: Span,
) -> bool {
    &&& sp.pid == events[start_idx].pid()
    &&& sp.start == events[start_idx].timestamp()
    &&& sp.stop == events[end_idx - 1].timestamp()
    &&& sp.command == command
}

/// The command a span takes from an `Exec` record: its command line if it
/// carries one (up to the characters, the payload is cloned), else the
/// "unavailable" marker.
pub open spec fn command_of_exec(e: Event, c: SpanCommand) -> bool {
    match e {
        Event::Exec { cmdline: Some(a), .. } => (c matches SpanCommand::Command(b) && b@ == a@),
        Event::Exec { cmdline: None, .. } => c is Unavailable,
        _ => false,
    }
}

/// Clones the command line out of an `Exec` record into a span command.
fn exec_command(e: &Event) -> (c: SpanCommand)
    requires
        e is Exec,
    ensures
        command_of_exec(*e, c),
{
    match e {
        Event::Exec { cmdline: Some(a), .. } => SpanCommand::Command(a.clone()),
        _ => SpanCommand::Unavailable,
    }
}

/// Extracts the single span of a record sequence with no `Exec` in it: the
/// whole lifetime, labelled as a bare fork.
pub fn extract_fork_span(events: &[Event]) -> (r: Result<MermaidItem, RenderError>)
    ensures
        r is Ok <==> events@.len() > 0,
        r matches Err(e) ==> e == RenderError::EmptyBuffer,
        r matches Ok(item) ==> (item matches MermaidItem::Single(sp) && span_matches(
            events@,
            0,
            events@.len() as int,
            SpanCommand::ForkOnly,
            sp,
        )),
{
    if events.len() == 0 {
        return Err(RenderError::EmptyBuffer);
    }
    let first = &events[0];
    let last = &events[events.len() - 1];
    Ok(
        MermaidItem::Single(
            Span {
                pid: first.pid(),
                start: first.timestamp(),
                stop: last.timestamp(),
                command: SpanCommand::ForkOnly,
            },
        ),
    )
}

/// Extracts the single span of a record sequence containing one `Exec`, at
/// `exec_index`: the whole lifetime, labelled with that exec's command line.
pub fn extract_single_exec_span(events: &[Event], exec_index: usize) -> (r: Result<
    MermaidItem,
    RenderError,
>)
    ensures
        r is Ok <==> events@.len() > 0 && exec_index < events@.len() && events@[exec_index as int]
            is Exec,
        r matches Err(e) ==> (e == RenderError::EmptyBuffer <==> events@.len() == 0),
        r matches Err(e) ==> (e == RenderError::MissingExec <==> events@.len() > 0),
        r matches Ok(item) ==> (item matches MermaidItem::Single(sp) && sp.pid
            == events@[0].pid() && sp.start == events@[0].timestamp() && sp.stop == events@[
            events@.len() - 1
        ].timestamp() && command_of_exec(events@[exec_index as int], sp.command)),
{
    if events.len() == 0 {
        return Err(RenderError::EmptyBuffer);
    }
    if exec_index >= events.len() {
        return Err(RenderError::MissingExec);
    }
    if !events[exec_index].is_exec() {
        return Err(RenderError::MissingExec);
    }
    let command = exec_command(&events[exec_index]);
    let first = &events[0];
    let last = &events[events.len() - 1];
    Ok(
        MermaidItem::Single(
            Span { pid: first.pid(), start: first.timestamp(), stop: last.timestamp(), command },
        ),
    )
}

/// The slice of `events` that the `i`-th of `n` execs (at the ascending
/// positions `idxs`) covers: the first span runs from the front to just
/// before the second exec, each middle span from its exec through the next
/// one, and the last span to the end.
pub open spec fn group_range(idxs: Seq<usize>, total: int, i: int) -> (int, int) {
    let n = idxs.len() as int;
    if i == 0 {
        (0, idxs[1] as int)
    } else if i == n - 1 {
        (idxs[i] as int, total)
    } else {
        (idxs[i] as int, idxs[i + 1] as int + 1)
    }
}

/// Extracts one span per exec from a record sequence containing `Exec`
/// records at the (ascending) positions `exec_indices`.
pub fn extract_multiple_exec_spans(events: &[Event], exec_indices: &[usize]) -> (r: Result<
    MermaidItem,
    RenderError,
>)
    requires
        exec_indices@.len() >= 2,
        forall|i: int, j: int|
            0 <= i < j < exec_indices@.len() ==> exec_indices@[i] < exec_indices@[j],
        forall|i: int| 0 <= i < exec_indices@.len() ==> exec_indices@[i] < events@.len(),
        forall|i: int| 0 <= i < exec_indices@.len() ==> events@[exec_indices@[i] as int] is Exec,
    ensures
        r matches Ok(item) ==> (item matches MermaidItem::ExecGroup(spans) && spans@.len()
            == exec_indices@.len() && (forall|i: int|
            0 <= i < spans@.len() ==> {
                let rg = group_range(exec_indices@, events@.len() as int, i);
                &&& (#[trigger] spans@[i]).pid == events@[rg.0].pid()
                &&& spans@[i].start == events@[rg.0].timestamp()
                &&& spans@[i].stop == events@[rg.1 - 1].timestamp()
                &&& command_of_exec(events@[exec_indices@[i] as int], spans@[i].command)
            })),
        r is Ok,
{
    let n = exec_indices.len();
    let total = events.len();
    let mut spans: Vec<Span> = Vec::new();
    let mut i: usize = 0;
    while i < n
        invariant
            n == exec_indices@.len(),
            total == events@.len(),
            n >= 2,
            forall|a: int, b: int|
                0 <= a < b < exec_indices@.len() ==> exec_indices@[a] < exec_indices@[b],
            forall|a: int| 0 <= a < exec_indices@.len() ==> exec_indices@[a] < events@.len(),
            forall|a: int|
                0 <= a < exec_indices@.len() ==> events@[exec_indices@[a] as int] is Exec,
            i <= n,
            spans@.len() == i,
            forall|a: int|
                0 <= a < i ==> {
                    let rg = group_range(exec_indices@, events@.len() as int, a);
                    &&& (#[trigger] spans@[a]).pid == events@[rg.0].pid()
                    &&& spans@[a].start == events@[rg.0].timestamp()
                    &&& spans@[a].stop == events@[rg.1 - 1].timestamp()
                    &&& command_of_exec(events@[exec_indices@[a] as int], spans@[a].command)
                },
        decreases n - i,
    {
        let start_idx: usize = if i == 0 {
            0
        } else {
            exec_indices[i]
        };
        let end_idx: usize = if i == 0 {
            exec_indices[1]
        } else if i == n - 1 {
            total
        } else {
            exec_indices[i + 1] + 1
        };
        let command = exec_command(&events[exec_indices[i]]);
        spans.push(
            Span {
                pid: events[start_idx].pid(),
                start: events[start_idx].timestamp(),
                stop: events[end_idx - 1].timestamp(),
                command,
            },
        );
        i = i + 1;
    }
    Ok(MermaidItem::ExecGroup(spans))
}

/// The number of `Exec` records in a sequence.
pub open spec fn exec_count(events: Seq<Event>) -> int {
    events.filter(|e: Event| e is Exec).len() as int
}

/// Shapes one process's records into its chart item: a single fork span with
/// no exec, a single labelled span with one, and one span per exec otherwise.
pub fn parse_buffer(events: &[Event]) -> (r: Result<MermaidItem, RenderError>)
    ensures
        r is Ok <==> events@.len() > 0,
        r matches Err(e) ==> e == RenderError::EmptyBuffer,
        r matches Ok(item) ==> (exec_count(events@) >= 2 <==> item is ExecGroup),
        r matches Ok(item) ==> (item matches MermaidItem::ExecGroup(spans) ==> spans@.len()
            == exec_count(events@)),
        r matches Ok(item) ==> (exec_count(events@) == 0 ==> (
        item matches MermaidItem::Single(sp) && span_matches(
            events@,
            0,
            events@.len() as int,
            SpanCommand::ForkOnly,
            sp,
        ))),
        r matches Ok(item) ==> (exec_count(events@) == 1 ==> (
        item matches MermaidItem::Single(sp) && sp.pid == events@[0].pid() && sp.start
            == events@[0].timestamp() && sp.stop == events@[events@.len() - 1].timestamp() && (
        exists|e: int|
            0 <= e < events@.len() && events@[e] is Exec && command_of_exec(
                #[trigger] events@[e],
                sp.command,
            )))),
{
    if events.len() == 0 {
        return Err(RenderError::EmptyBuffer);
    }
    let ghost evs = events@;
    let mut exec_indices: Vec<usize> = Vec::new();
    let mut k: usize = 0;
    proof {
        assert(evs.take(0).filter(|e: Event| e is Exec) =~= Seq::<Event>::empty());
    }
    while k < events.len()
        invariant
            evs == events@,
            k <= evs.len(),
            exec_indices@.len() == evs.take(k as int).filter(|e: Event| e is Exec).len(),
            forall|a: int, b: int|
                0 <= a < b < exec_indices@.len() ==> exec_indices@[a] < exec_indices@[b],
            forall|a: int| 0 <= a < exec_indices@.len() ==> exec_indices@[a] < k,
            forall|a: int|
                0 <= a < exec_indices@.len() ==> evs[exec_indices@[a] as int] is Exec,
        decreases events.len() - k,
    {
        proof {
            let pref = evs.take(k as int);
            assert(evs.take(k + 1).drop_last() =~= pref);
            assert(evs.take(k + 1).last() == evs[k as int]);
            reveal(Seq::filter);
            assert(evs.take(k + 1).filter(|e: Event| e is Exec) == if evs[k as int] is Exec {
                pref.filter(|e: Event| e is Exec).push(evs[k as int])
            } else {
                pref.filter(|e: Event| e is Exec)
            });
        }
        if events[k].is_exec() {
            exec_indices.push(k);
        }
        k = k + 1;
    }
    proof {
        assert(evs.take(evs.len() as int) =~= evs);
    }
    if exec_indices.len() == 0 {
        let r = extract_fork_span(events);
        proof {
            assert(r is Ok);
        }
        r
    } else if exec_indices.len() == 1 {
        let r = extract_single_exec_span(events, exec_indices[0]);
        proof {
            assert(r is Ok);
            assert(evs[exec_indices@[0] as int] is Exec);
        }
        r
    } else {
        extract_multiple_exec_spans(events, exec_indices.as_slice())
    }
}

/// What heads one process's listing in the grouped display: the fork that
/// created it, the command it ran, or — when neither is visible — just the
/// pid.
#[derive(Debug, Clone, PartialEq, Eq)]
pub enum BufferHeader {
    ForkedFrom { child_pid: i32, parent_pid: i32 },
    Command { pid: i32, cmdline: Option<ExecArgsKind> },
    Bare { pid: i32 },
}

/// Picks the header for one process's records: the fork-and-exec opening
/// shows the command, a lone fork shows its parentage, anything else shows
/// the bare pid. A single record must be a `Fork` or an `Exec`.
pub fn extract_displayable_buffer_header(pid: i32, events: &[Event]) -> (r: Result<
    BufferHeader,
    RenderError,
>)
    requires
        events@.len() == 1 ==> (events@[0] is Fork || events@[0] is Exec),
    ensures
        r is Ok <==> events@.len() > 0,
        r matches Err(e) ==> e == RenderError::EmptyBuffer,
        r matches Ok(h) ==> match h {
            BufferHeader::ForkedFrom { child_pid, parent_pid } => (events@[0] matches Event::Fork {
                child_pid: c,
                parent_pid: p,
                ..
            } && c == child_pid && p == parent_pid) && (events@.len() == 1 || !(events@[1]
                is Exec)),
            BufferHeader::Command { pid: hp, cmdline } => hp == pid && {
                let cmd_event = if events@[0] is Exec {
                    events@[0]
                } else {
                    events@[1]
                };
                &&& (events@[0] is Exec || (events@.len() > 1 && events@[0] is Fork && events@[1]
                    is Exec))
                &&& (cmd_event matches Event::Exec { cmdline: Some(a), .. } ==> (
                cmdline matches Some(b) && b@ == a@))
                &&& (cmd_event matches Event::Exec { cmdline: None, .. } ==> cmdline is None)
            },
            BufferHeader::Bare { pid: hp } => hp == pid && !(events@[0] is Fork) && !(events@[0]
                is Exec),
        },
{
    if events.len() == 0 {
        return Err(RenderError::EmptyBuffer);
    }
    match &events[0] {
        Event::Fork { child_pid, parent_pid, .. } => {
            if events.len() > 1 {
                if let Event::Exec { cmdline, .. } = &events[1] {
                    let cloned = match cmdline {
                        Some(a) => Some(a.clone()),
                        None => None,
                    };
                    return Ok(BufferHeader::Command { pid, cmdline: cloned });
                }
            }
            Ok(BufferHeader::ForkedFrom { child_pid: *child_pid, parent_pid: *parent_pid })
        },
        Event::Exec { cmdline, .. } => {
            let cloned = match cmdline {
                Some(a) => Some(a.clone()),
                None => None,
            };
            Ok(BufferHeader::Command { pid, cmdline: cloned })
        },
        _ => Ok(BufferHeader::Bare { pid }),
    }
}

} // verus!
