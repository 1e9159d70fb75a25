//! The exec-merge pass: folding an `Exec` record together with the trailing
//! `ExecArgs` records that carry its command line into one enriched `Exec`.

use vstd::prelude::*;

use crate::models::Event;
use crate::models::ExecArgsKind;

verus! {

/// `e` (an `Exec`) with its command line replaced by `a`; any other record
/// unchanged.
pub open spec fn exec_with_args(e: Event, a: ExecArgsKind) -> Event {
    match e {
        Event::Exec { seq, timestamp, pid, ppid, pgid, cmdline: _ } => Event::Exec {
            seq,
            timestamp,
            pid,
            ppid,
            pgid,
            cmdline: Some(a),
        },
        _ => e,
    }
}

/// The payload of an `ExecArgs` record.
pub open spec fn args_of(e: Event) -> ExecArgsKind
    recommends
        e is ExecArgs,
{
    match e {
        Event::ExecArgs { args, .. } => args,
        _ => arbitrary(),
    }
}

/// What flushing a buffered run of exec records emits.
///
/// A lone `Exec` is emitted unchanged (its command line possibly absent). An
/// `Exec` followed by one `ExecArgs` takes that payload as its command line.
/// With two `ExecArgs` — two instrumentation points each capturing a possibly
/// truncated command line — the payload whose rendering is longer in bytes
/// wins; on a tie the second one does (the comparison is a strict `>` against
/// the first). Any other shape is dropped as malformed.
pub open spec fn fill_spec(run: Seq<Event>) -> Option<Event> {
    if run.len() == 1 && run[0] is Exec {
        Some(run[0])
    } else if run.len() == 2 && run[0] is Exec && run[1] is ExecArgs {
        Some(exec_with_args(run[0], args_of(run[1])))
    } else if run.len() == 3 && run[0] is Exec && run[1] is ExecArgs && run[2] is ExecArgs {
        let a1 = args_of(run[1]);
        let a2 = args_of(run[2]);
        Some(exec_with_args(run[0], if a1@.rendered_len() > a2@.rendered_len() {
            a1
        } else {
            a2
        }))
    } else {
        None
    }
}

/// Flushing as a sequence: one record, or nothing.
pub open spec fn flush_opt(run: Seq<Event>) -> Seq<Event> {
    match fill_spec(run) {
        Some(e) => seq![e],
        None => Seq::empty(),
    }
}

/// One step of the merge pass: how a record moves the (output, buffered run)
/// state forward.
///
/// An `Exec` flushes any pending run and starts a new one. An `ExecArgs`
/// joins the run only if the run is non-empty, starts with an `Exec`, and
/// shares its subject pid; otherwise it is dropped. Any other record flushes
/// the pending run and passes through unchanged.
pub open spec fn collapse_step(out: Seq<Event>, run: Seq<Event>, e: Event) -> (
    Seq<Event>,
    Seq<Event>,
) {
    if e is Exec {
        (out + flush_opt(run), seq![e])
    } else if e is ExecArgs {
        if run.len() > 0 && run[0] is Exec && run[0].pid() == e.pid() {
            (out, run.push(e))
        } else {
            (out, run)
        }
    } else {
        (out + flush_opt(run) + seq![e], Seq::empty())
    }
}

/// The (output, buffered run) state after merging a whole record sequence.
pub open spec fn collapse_state(es: Seq<Event>) -> (Seq<Event>, Seq<Event>)
    decreases es.len(),
{
    if es.len() == 0 {
        (Seq::empty(), Seq::empty())
    } else {
        let st = collapse_state(es.drop_last());
        collapse_step(st.0, st.1, es.last())
    }
}

/// The merged record sequence: the pass over all records, with the run still
/// pending at the end flushed.
pub open spec fn collapse_buffer(es: Seq<Event>) -> Seq<Event> {
    let st = collapse_state(es);
    st.0 + flush_opt(st.1)
}

/// A flushed run's record keeps the timestamp of the `Exec` that opened the
/// run.
proof fn lemma_fill_spec_timestamp(run: Seq<Event>)
    ensures
        fill_spec(run) matches Some(e) ==> run.len() > 0 && e.timestamp() == run[0].timestamp(),
{
}

/// Merging a timestamp-sorted record sequence leaves both the emitted output
/// and the still-buffered run timestamp-sorted, with the run's records no
/// earlier than the output's and nothing later than the last record seen.
pub proof fn lemma_collapse_state_sorted(es: Seq<Event>)
    requires
        crate::store::buf_sorted(es),
    ensures
        crate::store::buf_sorted(collapse_state(es).0),
        crate::store::buf_sorted(collapse_state(es).1),
        forall|i: int, j: int|
            0 <= i < collapse_state(es).0.len() && 0 <= j < collapse_state(es).1.len()
                ==> collapse_state(es).0[i].timestamp() <= collapse_state(es).1[j].timestamp(),
        es.len() > 0 ==> forall|i: int|
            0 <= i < collapse_state(es).0.len() ==> collapse_state(es).0[i].timestamp()
                <= es.last().timestamp(),
        es.len() > 0 ==> forall|i: int|
            0 <= i < collapse_state(es).1.len() ==> collapse_state(es).1[i].timestamp()
                <= es.last().timestamp(),
    decreases es.len(),
{
    if es.len() == 0 {
    } else {
        let prior = es.drop_last();
        let e = es.last();
        assert(forall|i: int, j: int|
            0 <= i < j < prior.len() ==> prior[i].timestamp() <= prior[j].timestamp());
        lemma_collapse_state_sorted(prior);
        let out = collapse_state(prior).0;
        let run = collapse_state(prior).1;
        lemma_fill_spec_timestamp(run);
        assert(prior.len() > 0 ==> prior.last().timestamp() <= e.timestamp());
    }
}

/// Merging a timestamp-sorted record sequence yields a timestamp-sorted one.
pub proof fn lemma_collapse_buffer_sorted(es: Seq<Event>)
    requires
        crate::store::buf_sorted(es),
    ensures
        crate::store::buf_sorted(collapse_buffer(es)),
{
    lemma_collapse_state_sorted(es);
    lemma_fill_spec_timestamp(collapse_state(es).1);
}

/// Tries to build one enriched `Exec` from a run of buffered exec records;
/// see [`fill_spec`] for the shapes accepted and how two captures of the
/// command line are reconciled.
pub fn fill_in_exec_args(execs: Vec<Event>) -> (r: Option<Event>)
    ensures
        r == fill_spec(execs@),
{
    let ghost run = execs@;
    let mut execs = execs;
    if execs.len() == 1 {
        let e = execs.remove(0);
        proof {
            assert(e == run[0]);
        }
        if e.is_exec() {
            Some(e)
        } else {
            None
        }
    } else if execs.len() == 2 {
        let first = execs.remove(0);
        let second = execs.remove(0);
        proof {
            assert(first == run[0]);
            assert(second == run[1]);
        }
        match (first, second) {
            (
                Event::Exec { seq, timestamp, pid, ppid, pgid, cmdline: _ },
                Event::ExecArgs { args, .. },
            ) => Some(Event::Exec { seq, timestamp, pid, ppid, pgid, cmdline: Some(args) }),
            _ => None,
        }
    } else if execs.len() == 3 {
        let first = execs.remove(0);
        let second = execs.remove(0);
        let third = execs.remove(0);
        proof {
            assert(first == run[0]);
            assert(second == run[1]);
            assert(third == run[2]);
        }
        match (first, second, third) {
            (
                Event::Exec { seq, timestamp, pid, ppid, pgid, cmdline: _ },
                Event::ExecArgs { args: args1, .. },
                Event::ExecArgs { args: args2, .. },
            ) => {
                let args = if args1.rendered_len() > args2.rendered_len() {
                    args1
                } else {
                    args2
                };
                Some(Event::Exec { seq, timestamp, pid, ppid, pgid, cmdline: Some(args) })
            },
            _ => None,
        }
    } else {
        None
    }
}

/// Merges the exec runs of one record sequence; see [`collapse_step`].
pub fn collapse_buffer_execs(events: Vec<Event>) -> (r: Vec<Event>)
    ensures
        r@ == collapse_buffer(events@),
{
    let ghost es = events@;
    let ghost total = es.len() as int;
    let n = events.len();
    let mut events = events;
    let mut out: Vec<Event> = Vec::new();
    let mut run: Vec<Event> = Vec::new();
    let mut i: usize = 0;
    proof {
        assert(total == n as int);
        assert(events@.subrange(0, total) =~= es);
        assert(out@ =~= collapse_state(es.take(0)).0);
        assert(run@ =~= collapse_state(es.take(0)).1);
    }
    while events.len() > 0
        invariant
            total == es.len(),
            total <= usize::MAX,
            i + events@.len() == total,
            events@ == es.subrange(i as int, total),
            out@ == collapse_state(es.take(i as int)).0,
            run@ == collapse_state(es.take(i as int)).1,
        decreases events.len(),
    {
        proof {
            assert(events@[0] == es[i as int]);
            assert(es.take(i + 1).drop_last() =~= es.take(i as int));
            assert(es.take(i + 1).last() == es[i as int]);
        }
        let e = events.remove(0);
        proof {
            assert(events@ =~= es.subrange(i + 1, total));
        }
        let ghost out0 = out@;
        let ghost run0 = run@;
        match &e {
            Event::Exec { .. } => {
                if run.len() == 0 {
                    run.push(e);
                    proof {
                        assert(out@ + flush_opt(run0) =~= out@);
                        assert(run@ =~= seq![es[i as int]]);
                    }
                } else {
                    let mut pending: Vec<Event> = Vec::new();
                    std::mem::swap(&mut pending, &mut run);
                    if let Some(exec) = fill_in_exec_args(pending) {
                        out.push(exec);
                        proof {
                            assert(out@ =~= out0 + flush_opt(run0));
                        }
                    } else {
                        proof {
                            assert(out@ =~= out0 + flush_opt(run0));
                        }
                    }
                    run.push(e);
                    proof {
                        assert(run@ =~= seq![es[i as int]]);
                    }
                }
            },
            Event::ExecArgs { .. } => {
                let take_it = if run.len() > 0 {
                    if run[0].is_exec() {
                        run[0].pid() == e.pid()
                    } else {
                        false
                    }
                } else {
                    false
                };
                if take_it {
                    run.push(e);
                }
            },
            _ => {
                if run.len() > 0 {
                    let mut pending: Vec<Event> = Vec::new();
                    std::mem::swap(&mut pending, &mut run);
                    if let Some(exec) = fill_in_exec_args(pending) {
                        out.push(exec);
                    }
                }
                out.push(e);
                proof {
                    assert(out@ =~= out0 + flush_opt(run0) + seq![es[i as int]]);
                    assert(run@ =~= Seq::<Event>::empty());
                }
            },
        }
        i = i + 1;
    }
    proof {
        assert(es.take(total) =~= es);
    }
    if run.len() > 0 {
        let mut pending: Vec<Event> = Vec::new();
        std::mem::swap(&mut pending, &mut run);
        let ghost out1 = out@;
        if let Some(exec) = fill_in_exec_args(pending) {
            out.push(exec);
            proof {
                assert(out@ =~= collapse_buffer(es));
            }
        } else {
            proof {
                assert(out@ =~= collapse_buffer(es));
            }
        }
    } else {
        proof {
            assert(out@ =~= collapse_buffer(es));
        }
    }
    out
}

} // verus!
