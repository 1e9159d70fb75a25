//! The telemetry record type and the command-line payloads it carries.

use vstd::prelude::*;
use vstd::utf8::encode_scalar;
use vstd::utf8::encode_utf8;

verus! {

/// The arguments of an `exec` call.
///
/// Depending on the instrumentation point that captured them, the arguments
/// arrive either as one already-joined string or as a list of separate
/// argument strings. Both render by joining with single spaces, and length
/// comparisons between two captures go by the byte length of that rendering.
#[derive(Debug, PartialEq, Eq)]
pub enum ExecArgsKind {
    Joined(String),
    Args(Vec<String>),
}

/// The mathematical content of an [`ExecArgsKind`]: the same two shapes, with
/// each string abstracted to its character sequence.
pub enum ArgsView {
    Joined(Seq<char>),
    Args(Seq<Seq<char>>),
}

impl View for ExecArgsKind {
    type V = ArgsView;

    open spec fn view(&self) -> ArgsView {
        match self {
            ExecArgsKind::Joined(s) => ArgsView::Joined(s@),
            ExecArgsKind::Args(v) => ArgsView::Args(v.deep_view()),
        }
    }
}

/// The space-joined rendering of a list of argument strings.
pub open spec fn spec_join_chars(parts: Seq<Seq<char>>) -> Seq<char>
    decreases parts.len(),
{
    if parts.len() == 0 {
        Seq::empty()
    } else if parts.len() == 1 {
        parts[0]
    } else {
        spec_join_chars(parts.drop_last()) + seq![' '] + parts.last()
    }
}

impl ArgsView {
    /// The character sequence this payload renders to.
    pub open spec fn rendered(self) -> Seq<char> {
        match self {
            ArgsView::Joined(s) => s,
            ArgsView::Args(parts) => spec_join_chars(parts),
        }
    }

    /// The byte length of the UTF-8 encoding of the rendering; the measure by
    /// which two captures of the same command line are compared.
    pub open spec fn rendered_len(self) -> int {
        encode_utf8(self.rendered()).len() as int
    }
}

/// UTF-8 encoding distributes over concatenation of character sequences.
pub proof fn lemma_encode_utf8_concat(a: Seq<char>, b: Seq<char>)
    ensures
        encode_utf8(a + b) == encode_utf8(a) + encode_utf8(b),
    decreases a.len(),
{
    if a.len() == 0 {
        assert(a + b =~= b);
        assert(encode_utf8(a) + encode_utf8(b) =~= encode_utf8(b));
    } else {
        assert((a + b).drop_first() =~= a.drop_first() + b);
        lemma_encode_utf8_concat(a.drop_first(), b);
        assert((a + b)[0] == a[0]);
        assert(encode_scalar(a[0] as u32) + (encode_utf8(a.drop_first()) + encode_utf8(b)) =~= (
        encode_scalar(a[0] as u32) + encode_utf8(a.drop_first())) + encode_utf8(b));
    }
}

/// A single space encodes to a single byte.
proof fn lemma_encode_space_len()
    ensures
        encode_utf8(seq![' ']).len() == 1,
{
    let s = seq![' '];
    assert(s.drop_first() =~= Seq::<char>::empty());
    assert(encode_utf8(s.drop_first()) =~= Seq::<u8>::empty());
    assert(s[0] == ' ');
    assert(' ' as u32 == 32);
    assert(vstd::utf8::has_width_1_encoding(32));
    assert(encode_scalar(32).len() == 1);
    assert(encode_utf8(s) == encode_scalar(32) + encode_utf8(s.drop_first()));
}

impl Clone for ExecArgsKind {
    /// Cloning keeps the payload's shape and characters.
    fn clone(&self) -> (r: ExecArgsKind)
        ensures
            r@ == self@,
    {
        match self {
            ExecArgsKind::Joined(s) => ExecArgsKind::Joined(s.clone()),
            ExecArgsKind::Args(v) => {
                let mut parts: Vec<String> = Vec::new();
                let mut i: usize = 0;
                while i < v.len()
                    invariant
                        i <= v.len(),
                        parts.len() == i,
                        forall|j: int| 0 <= j < i ==> parts@[j]@ == v@[j]@,
                    decreases v.len() - i,
                {
                    parts.push(v[i].clone());
                    i = i + 1;
                }
                assert(parts.deep_view() =~= v.deep_view());
                ExecArgsKind::Args(parts)
            },
        }
    }
}

impl ExecArgsKind {
    /// The byte length of this payload's space-joined rendering, the measure
    /// used to pick the more complete of two captures of one command line.
    pub fn rendered_len(&self) -> (r: u128)
        ensures
            r == self@.rendered_len(),
    {
        match self {
            ExecArgsKind::Joined(s) => s.as_str().as_bytes().len() as u128,
            ExecArgsKind::Args(v) => {
                let ghost parts = v.deep_view();
                let mut total: u128 = 0;
                let mut i: usize = 0;
                while i < v.len()
                    invariant
                        i <= v.len(),
                        parts == v.deep_view(),
                        total == encode_utf8(spec_join_chars(parts.take(i as int))).len(),
                        total <= i * 0x1_0000_0000_0000_0000u128,
                    decreases v.len() - i,
                {
                    let part_len = v[i].as_str().as_bytes().len();
                    proof {
                        assert(parts[i as int] == v@[i as int]@);
                        assert(parts.take(i + 1).last() == parts[i as int]);
                        assert(parts.take(i + 1).drop_last() =~= parts.take(i as int));
                        if i == 0 {
                            assert(spec_join_chars(parts.take(1)) == parts[0]);
                        } else {
                            lemma_encode_utf8_concat(
                                spec_join_chars(parts.take(i as int)) + seq![' '],
                                parts[i as int],
                            );
                            lemma_encode_utf8_concat(
                                spec_join_chars(parts.take(i as int)),
                                seq![' '],
                            );
                            lemma_encode_space_len();
                        }
                        assert((i + 1) * 0x1_0000_0000_0000_0000u128 == i
                            * 0x1_0000_0000_0000_0000u128 + 0x1_0000_0000_0000_0000u128)
                            by (nonlinear_arith);
                    }
                    if i == 0 {
                        total = part_len as u128;
                    } else {
                        total = total + 1 + part_len as u128;
                    }
                    i = i + 1;
                }
                proof {
                    assert(parts.take(v.len() as int) =~= parts);
                }
                total
            },
        }
    }
}

/// One kernel-visible lifecycle transition for one process.
///
/// Every variant carries the `timestamp` at which the transition was observed
/// (a counter that increases monotonically from trace start; the canonical
/// ordering key) and the `seq` counter assigned by the telemetry source,
/// retained for diagnostics only and never used for ordering.
#[derive(Debug, Clone, PartialEq, Eq)]
pub enum Event {
    Fork { seq: u128, timestamp: u128, parent_pid: i32, child_pid: i32, parent_pgid: i32 },
    Exec {
        seq: u128,
        timestamp: u128,
        pid: i32,
        ppid: i32,
        pgid: i32,
        cmdline: Option<ExecArgsKind>,
    },
    ExecArgs { seq: u128, timestamp: u128, pid: i32, args: ExecArgsKind },
    BadExec { seq: u128, timestamp: u128, pid: i32 },
    Exit { seq: u128, timestamp: u128, pid: i32, ppid: i32, pgid: i32 },
    SetSID { seq: u128, timestamp: u128, pid: i32, ppid: i32, pgid: i32, sid: i32 },
    SetPGID { seq: u128, timestamp: u128, pid: i32, ppid: i32, pgid: i32 },
}

impl Event {
    /// The timestamp the record was observed at.
    pub open spec fn spec_timestamp(&self) -> u128 {
        match self {
            Event::Fork { timestamp, .. } => *timestamp,
            Event::Exec { timestamp, .. } => *timestamp,
            Event::ExecArgs { timestamp, .. } => *timestamp,
            Event::BadExec { timestamp, .. } => *timestamp,
            Event::Exit { timestamp, .. } => *timestamp,
            Event::SetSID { timestamp, .. } => *timestamp,
            Event::SetPGID { timestamp, .. } => *timestamp,
        }
    }

    #[verifier::when_used_as_spec(spec_timestamp)]
    pub fn timestamp(&self) -> (r: u128)
        ensures
            r == self.spec_timestamp(),
    {
        match self {
            Event::Fork { timestamp, .. } => *timestamp,
            Event::Exec { timestamp, .. } => *timestamp,
            Event::ExecArgs { timestamp, .. } => *timestamp,
            Event::BadExec { timestamp, .. } => *timestamp,
            Event::Exit { timestamp, .. } => *timestamp,
            Event::SetSID { timestamp, .. } => *timestamp,
            Event::SetPGID { timestamp, .. } => *timestamp,
        }
    }

    /// The same record with its timestamp replaced and all else unchanged.
    pub open spec fn spec_with_timestamp(&self, new_ts: u128) -> Event {
        match *self {
            Event::Fork { seq, parent_pid, child_pid, parent_pgid, .. } => Event::Fork {
                seq,
                timestamp: new_ts,
                parent_pid,
                child_pid,
                parent_pgid,
            },
            Event::Exec { seq, pid, ppid, pgid, ref cmdline, .. } => Event::Exec {
                seq,
                timestamp: new_ts,
                pid,
                ppid,
                pgid,
                cmdline: *cmdline,
            },
            Event::ExecArgs { seq, pid, ref args, .. } => Event::ExecArgs {
                seq,
                timestamp: new_ts,
                pid,
                args: *args,
            },
            Event::BadExec { seq, pid, .. } => Event::BadExec { seq, timestamp: new_ts, pid },
            Event::Exit { seq, pid, ppid, pgid, .. } => Event::Exit {
                seq,
                timestamp: new_ts,
                pid,
                ppid,
                pgid,
            },
            Event::SetSID { seq, pid, ppid, pgid, sid, .. } => Event::SetSID {
                seq,
                timestamp: new_ts,
                pid,
                ppid,
                pgid,
                sid,
            },
            Event::SetPGID { seq, pid, ppid, pgid, .. } => Event::SetPGID {
                seq,
                timestamp: new_ts,
                pid,
                ppid,
                pgid,
            },
        }
    }

    /// Overwrites the timestamp, leaving every other field as it was.
    pub fn set_timestamp(&mut self, new_ts: u128)
        ensures
            *final(self) == old(self).spec_with_timestamp(new_ts),
    {
        match self {
            Event::Fork { timestamp, .. } => *timestamp = new_ts,
            Event::Exec { timestamp, .. } => *timestamp = new_ts,
            Event::ExecArgs { timestamp, .. } => *timestamp = new_ts,
            Event::BadExec { timestamp, .. } => *timestamp = new_ts,
            Event::Exit { timestamp, .. } => *timestamp = new_ts,
            Event::SetSID { timestamp, .. } => *timestamp = new_ts,
            Event::SetPGID { timestamp, .. } => *timestamp = new_ts,
        }
    }

    /// The process this record is about: the child for `Fork`, the record's
    /// own pid for every other variant.
    pub open spec fn spec_pid(&self) -> i32 {
        match self {
            Event::Fork { child_pid, .. } => *child_pid,
            Event::Exec { pid, .. } => *pid,
            Event::ExecArgs { pid, .. } => *pid,
            Event::BadExec { pid, .. } => *pid,
            Event::Exit { pid, .. } => *pid,
            Event::SetSID { pid, .. } => *pid,
            Event::SetPGID { pid, .. } => *pid,
        }
    }

    #[verifier::when_used_as_spec(spec_pid)]
    pub fn pid(&self) -> (r: i32)
        ensures
            r == self.spec_pid(),
    {
        match self {
            Event::Fork { child_pid, .. } => *child_pid,
            Event::Exec { pid, .. } => *pid,
            Event::ExecArgs { pid, .. } => *pid,
            Event::BadExec { pid, .. } => *pid,
            Event::Exit { pid, .. } => *pid,
            Event::SetSID { pid, .. } => *pid,
            Event::SetPGID { pid, .. } => *pid,
        }
    }

    pub open spec fn spec_is_fork(&self) -> bool {
        self is Fork
    }

    #[verifier::when_used_as_spec(spec_is_fork)]
    pub fn is_fork(&self) -> (r: bool)
        ensures
            r == self.spec_is_fork(),
    {
        matches!(self, Event::Fork { .. })
    }

    /// The pid of the forking parent, for `Fork` records only.
    pub open spec fn spec_fork_parent(&self) -> Option<i32> {
        match self {
            Event::Fork { parent_pid, .. } => Some(*parent_pid),
            _ => None,
        }
    }

    #[verifier::when_used_as_spec(spec_fork_parent)]
    pub fn fork_parent(&self) -> (r: Option<i32>)
        ensures
            r == self.spec_fork_parent(),
    {
        if let Event::Fork { parent_pid, .. } = self {
            Some(*parent_pid)
        } else {
            None
        }
    }

    pub open spec fn spec_is_exec(&self) -> bool {
        self is Exec
    }

    #[verifier::when_used_as_spec(spec_is_exec)]
    pub fn is_exec(&self) -> (r: bool)
        ensures
            r == self.spec_is_exec(),
    {
        matches!(self, Event::Exec { .. })
    }

    pub open spec fn spec_is_exit(&self) -> bool {
        self is Exit
    }

    #[verifier::when_used_as_spec(spec_is_exit)]
    pub fn is_exit(&self) -> (r: bool)
        ensures
            r == self.spec_is_exit(),
    {
        matches!(self, Event::Exit { .. })
    }
}

} // verus!
