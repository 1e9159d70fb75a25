//! The ingestion router: classifies each incoming record as tracked or
//! pending and, after every record, runs a draining pass that promotes whole
//! chains of pending processes once a `Fork` record links them to the tracked
//! set.

use vstd::prelude::*;

use crate::models::Event;
use crate::store::EventStore;
use crate::store::StoreView;
use crate::store::bufs_nonempty;
use crate::store::spec_start_or_zero;
use crate::store::store_add;
use crate::store::store_buf;
use crate::store::store_contains;
use crate::store::store_parent;
use crate::store::store_wf;
use crate::store::subjects_match;
use crate::store::vec_contains;

verus! {

/// The errors of the ingestion engine.
#[derive(Debug, Clone, PartialEq, Eq)]
pub enum IngestError {
    /// The root pid was set when one was already set: protocol misuse, fatal
    /// to the call but harmless to the router's state.
    RootPidAlreadySet,
    /// A pid chosen for promotion had no pending records when its removal was
    /// attempted: an internal invariant violation, unrecoverable for the
    /// ingestion session. The router proves it never raises this.
    MissingPendingBuffer { pid: i32 },
    /// The write-through sink refused a record. The router's own state is
    /// complete despite the failure.
    SinkFailure,
}

/// A refusal by a write-through sink.
#[derive(Debug, Clone, PartialEq, Eq)]
pub struct SinkError;

/// A write-through sink for records identified as part of the traced subtree,
/// and for raw telemetry lines. Implementations live with their outputs
/// outside this crate; nothing is assumed of them.
pub trait EventWrite {
    /// Accepts one in-scope record.
    fn write_event(&mut self, event: &Event) -> Result<(), SinkError>;

    /// Accepts one raw telemetry line.
    fn write_raw(&mut self, line: &str) -> Result<(), SinkError>;
}

/// A sink that discards everything, for callers that only want the ledger.
#[derive(Debug)]
pub struct NoOpWriter;

impl EventWrite for NoOpWriter {
    fn write_event(&mut self, _event: &Event) -> Result<(), SinkError> {
        Ok(())
    }

    fn write_raw(&mut self, _line: &str) -> Result<(), SinkError> {
        Ok(())
    }
}

/// Where one observed record goes before any draining: to the tracked ledger
/// if its subject pid is already tracked, or if it is the `Fork` of the
/// configured root pid (which seeds tracking); to the pending ledger
/// otherwise.
pub open spec fn classify(root: Option<i32>, t: StoreView, p: StoreView, e: Event) -> (
    StoreView,
    StoreView,
) {
    if goes_tracked(root, t, e) {
        (store_add(t, e.pid(), e), p)
    } else {
        (t, store_add(p, e.pid(), e))
    }
}

/// Whether an observed record goes straight to the tracked ledger — and is
/// therefore written through the sink at once: its subject pid is already
/// tracked, or it is the root pid's seeding `Fork`.
pub open spec fn goes_tracked(root: Option<i32>, t: StoreView, e: Event) -> bool {
    store_contains(t, e.pid()) || (root matches Some(rp) && e.pid() == rp && e is Fork)
}

/// Whether one drain pass promotes pending pid `q`, given the tracked pids
/// and the pids promoted so far: `q` is promoted when it is itself tracked,
/// or when its front record is a `Fork` whose parent is tracked or promoted.
pub open spec fn pass_promotes(t: StoreView, p: StoreView, promoted: Set<i32>, q: i32) -> bool {
    store_contains(p, q) && (store_contains(t, q) || (match store_parent(p, q) {
        Some(par) => store_contains(t, par) || promoted.contains(par),
        None => false,
    }))
}

/// A drained state: no pending pid is tracked, and no pending pid's front
/// record is a `Fork` with a tracked parent. Draining runs to this fixpoint,
/// so the state after every observation satisfies it.
pub open spec fn saturated(t: StoreView, p: StoreView) -> bool {
    forall|q: i32|
        #[trigger] store_contains(p, q) ==> !store_contains(t, q) && (match store_parent(p, q) {
            Some(par) => !store_contains(t, par),
            None => true,
        })
}

/// A chain of pending pids, each the fork-child of the one before it, whose
/// first member is tracked or fork-linked directly to a tracked pid.
pub open spec fn is_link_chain(t: StoreView, p: StoreView, c: Seq<i32>) -> bool {
    c.len() > 0 && (forall|i: int| 0 <= i < c.len() ==> store_contains(p, #[trigger] c[i])) && (
    store_contains(t, c[0]) || (store_parent(p, c[0]) matches Some(par) && store_contains(t, par)))
        && (forall|i: int| 1 <= i < c.len() ==> store_parent(p, #[trigger] c[i]) == Some(c[i - 1]))
}

/// Whether pending pid `q` is transitively fork-linked to the tracked set.
/// Only such pids are ever promoted out of the pending ledger.
pub open spec fn chain_linked(t: StoreView, p: StoreView, q: i32) -> bool {
    exists|c: Seq<i32>| is_link_chain(t, p, c) && c.last() == q
}

/// What one draining pass over the ledgers guarantees, relating the tracked
/// and pending contents before (`t0`, `p0`) and after (`tf`, `pf`):
///
/// - nothing tracked is ever dropped, and a pid becomes tracked only when a
///   fork chain inside the pending ledger links it to the tracked set;
/// - the result is saturated: promotion ran to its fixpoint;
/// - pending entries survive untouched or are promoted wholesale, a promoted
///   pid's records merging into its tracked sequence at their timestamps'
///   places.
pub open spec fn drained(t0: StoreView, p0: StoreView, tf: StoreView, pf: StoreView) -> bool {
    &&& forall|q: i32| store_contains(t0, q) ==> store_contains(tf, q)
    &&& forall|q: i32|
        #[trigger] store_contains(tf, q) ==> store_contains(t0, q) || chain_linked(t0, p0, q)
    &&& saturated(tf, pf)
    &&& forall|q: i32|
        #[trigger] store_contains(pf, q) ==> store_contains(p0, q) && store_buf(pf, q)
            == store_buf(p0, q)
    &&& forall|q: i32|
        #[trigger] store_contains(p0, q) ==> store_contains(pf, q) || store_contains(tf, q)
    &&& forall|q: i32|
        #![trigger store_contains(tf, q), store_contains(p0, q)]
        store_contains(tf, q) && !store_contains(p0, q) ==> store_buf(tf, q) == store_buf(t0, q)
    &&& forall|q: i32|
        #![trigger store_contains(tf, q), store_contains(pf, q)]
        store_contains(tf, q) && store_contains(p0, q) && !store_contains(pf, q) ==> store_buf(
            tf,
            q,
        ) == crate::store::buf_insert_all(store_buf(t0, q), store_buf(p0, q))
}

/// The records a promotion batch hands to the sink: each batch pid's pending
/// records in stored order, batches in batch order.
pub open spec fn logs_of(p: StoreView, batch: Seq<i32>) -> Seq<Event>
    decreases batch.len(),
{
    if batch.len() == 0 {
        Seq::empty()
    } else {
        logs_of(p, batch.drop_last()) + store_buf(p, batch.last())
    }
}

/// A valid promotion batch order against the pending ledgers before (`p0`)
/// and after (`pf`) a drain: exactly the promoted pids — those that left the
/// pending ledger — each once, ascending by the first timestamp of their
/// pending records.
pub open spec fn promotion_batch(p0: StoreView, pf: StoreView, batch: Seq<i32>) -> bool {
    &&& batch.no_duplicates()
    &&& forall|q: i32|
        #[trigger] batch.contains(q) <==> (store_contains(p0, q) && !store_contains(pf, q))
    &&& forall|i: int, j: int|
        0 <= i < j < batch.len() ==> spec_start_or_zero(p0, batch[i]) <= spec_start_or_zero(
            p0,
            batch[j],
        )
}

/// Every record in a promotion batch's log carries one of the batch's pids
/// as its subject.
proof fn lemma_logs_of_subjects(p: StoreView, batch: Seq<i32>)
    requires
        subjects_match(p),
        forall|k: int| 0 <= k < batch.len() ==> store_contains(p, #[trigger] batch[k]),
    ensures
        forall|i: int|
            0 <= i < logs_of(p, batch).len() ==> exists|k: int|
                0 <= k < batch.len() && (#[trigger] logs_of(p, batch)[i]).pid() == batch[k],
    decreases batch.len(),
{
    if batch.len() == 0 {
    } else {
        let init = batch.drop_last();
        assert(forall|k: int| 0 <= k < init.len() ==> init[k] == batch[k]);
        lemma_logs_of_subjects(p, init);
        let q = batch.last();
        let front = logs_of(p, init);
        let buf = store_buf(p, q);
        assert forall|i: int|
            0 <= i < logs_of(p, batch).len() implies exists|k: int|
                0 <= k < batch.len() && (#[trigger] logs_of(p, batch)[i]).pid() == batch[k] by {
            if i < front.len() {
                let k = choose|k: int| 0 <= k < init.len() && front[i].pid() == init[k];
                assert(logs_of(p, batch)[i] == front[i]);
                assert(logs_of(p, batch)[i].pid() == batch[k]);
            } else {
                assert(logs_of(p, batch)[i] == buf[i - front.len()]);
                assert(buf[i - front.len()].pid() == q);
                assert(batch[batch.len() - 1] == q);
            }
        }
    }
}

/// Eventual promotion: in a saturated state — and the state after every
/// observation is saturated — a chain of processes connected by `Fork`
/// records back to a tracked pid is wholly tracked, with nothing of it left
/// pending. Each chain member is either already tracked or sits pending with
/// its front record a `Fork` naming the previous member; the first member is
/// tracked.
pub proof fn lemma_eventual_promotion(t: StoreView, p: StoreView, pids: Seq<i32>)
    requires
        saturated(t, p),
        pids.len() > 0,
        store_contains(t, pids[0]),
        forall|i: int|
            1 <= i < pids.len() ==> store_contains(t, #[trigger] pids[i]) || (store_contains(
                p,
                pids[i],
            ) && store_parent(p, pids[i]) == Some(pids[i - 1])),
    ensures
        forall|i: int|
            0 <= i < pids.len() ==> store_contains(t, #[trigger] pids[i]) && !store_contains(
                p,
                pids[i],
            ),
    decreases pids.len(),
{
    let n = pids.len() as int;
    if n == 1 {
        assert(!store_contains(p, pids[0]));
    } else {
        let init = pids.drop_last();
        assert(forall|i: int| 0 <= i < init.len() ==> init[i] == pids[i]);
        lemma_eventual_promotion(t, p, init);
        let q = pids[n - 1];
        if !store_contains(t, q) {
            assert(store_contains(p, q) && store_parent(p, q) == Some(pids[n - 2]));
            assert(store_contains(t, pids[n - 2]));
            assert(false);
        }
        assert(!store_contains(p, q));
        assert forall|i: int|
            0 <= i < n implies store_contains(t, #[trigger] pids[i]) && !store_contains(
            p,
            pids[i],
        ) by {
            if i < n - 1 {
                assert(init[i] == pids[i]);
            }
        }
    }
}

/// Permanent quarantine: a pending pid not transitively fork-linked to the
/// tracked set is untouched by a draining pass — it does not enter the
/// tracked ledger, and its pending records stay exactly as they were. Since
/// every observation only drains, such a pid stays pending for as long as no
/// later record links it.
pub proof fn lemma_permanent_quarantine(
    t0: StoreView,
    p0: StoreView,
    tf: StoreView,
    pf: StoreView,
    q: i32,
)
    requires
        drained(t0, p0, tf, pf),
        store_contains(p0, q),
        !store_contains(t0, q),
        !chain_linked(t0, p0, q),
    ensures
        !store_contains(tf, q),
        store_contains(pf, q),
        store_buf(pf, q) == store_buf(p0, q),
{
    if store_contains(tf, q) {
        assert(store_contains(t0, q) || chain_linked(t0, p0, q));
        assert(false);
    }
    assert(store_contains(pf, q));
}

/// The sink half of quarantine: every record handed to the sink has a subject
/// tracked afterwards — as each observation ensures of its appended log
/// entries — so a pid kept out of the tracked ledger never has a record
/// written through.
pub proof fn lemma_quarantine_sink(tf: StoreView, log: Seq<Event>, lo: int, q: i32)
    requires
        !store_contains(tf, q),
        forall|i: int| lo <= i < log.len() ==> store_contains(tf, (#[trigger] log[i]).pid()),
    ensures
        forall|i: int| lo <= i < log.len() ==> (#[trigger] log[i]).pid() != q,
{
}

/// The ingestion router.
///
/// Owns the tracked ledger (records known to belong to the traced subtree),
/// the pending ledger (records whose provenance is still unknown), the root
/// pid once known, and an optional write-through sink.
pub struct EventIngester<T> {
    root_pid: Option<i32>,
    tracked_events: EventStore,
    buffered_events: EventStore,
    writer: Option<T>,
    written: Ghost<Seq<Event>>,
    raw_written: Ghost<Seq<Seq<char>>>,
}

impl<T> EventIngester<T> {
    /// The configured root pid.
    pub closed spec fn root(&self) -> Option<i32> {
        self.root_pid
    }

    /// The tracked ledger's content.
    pub closed spec fn tracked_view(&self) -> StoreView {
        self.tracked_events@
    }

    /// The pending ledger's content.
    pub closed spec fn pending_view(&self) -> StoreView {
        self.buffered_events@
    }

    /// Whether a write-through sink is attached.
    pub closed spec fn has_writer(&self) -> bool {
        self.writer is Some
    }

    /// Every record handed to the sink's `write_event` so far, in call order:
    /// the ghost trace against which write-through is specified.
    pub closed spec fn write_log(&self) -> Seq<Event> {
        self.written@
    }

    /// Every raw line handed to the sink's `write_raw` so far, in call order.
    pub closed spec fn raw_log(&self) -> Seq<Seq<char>> {
        self.raw_written@
    }

    /// The router's structural invariant: both ledgers well-formed, every
    /// pending entry non-empty (an entry is created only by buffering a
    /// record into it), and every pending record filed under its own subject
    /// pid.
    pub open spec fn wf(&self) -> bool {
        store_wf(self.tracked_view()) && store_wf(self.pending_view()) && bufs_nonempty(
            self.pending_view(),
        ) && subjects_match(self.pending_view())
    }

    /// A reference to the tracked ledger.
    pub fn tracked_events(&self) -> (r: &EventStore)
        ensures
            r@ == self.tracked_view(),
    {
        &self.tracked_events
    }

    /// Consumes the router and yields the tracked ledger.
    pub fn into_tracked_events(self) -> (r: EventStore)
        ensures
            r@ == self.tracked_view(),
    {
        self.tracked_events
    }

    /// A reference to the write-through sink, if one is attached.
    pub fn writer(&self) -> (r: Option<&T>)
        ensures
            r is Some <==> self.has_writer(),
    {
        self.writer.as_ref()
    }

    /// Sets the root pid after construction; an error if one was already set,
    /// with the router unchanged either way but for the root itself.
    pub fn set_root_pid(&mut self, pid: i32) -> (r: Result<(), IngestError>)
        ensures
            final(self).tracked_view() == old(self).tracked_view(),
            final(self).pending_view() == old(self).pending_view(),
            final(self).has_writer() == old(self).has_writer(),
            final(self).write_log() == old(self).write_log(),
            final(self).raw_log() == old(self).raw_log(),
            old(self).root() is None ==> r is Ok && final(self).root() == Some(pid),
            old(self).root() is Some ==> r == Result::<(), IngestError>::Err(
                IngestError::RootPidAlreadySet,
            ) && final(self).root() == old(self).root(),
    {
        if self.root_pid.is_some() {
            Err(IngestError::RootPidAlreadySet)
        } else {
            self.root_pid = Some(pid);
            Ok(())
        }
    }

    /// The configured root pid, if one has been set.
    pub fn root_pid(&self) -> (r: Option<i32>)
        ensures
            r == self.root(),
    {
        self.root_pid
    }

    /// `Some(true)` when the record is the initial fork of the root process,
    /// `Some(false)` when it is not, `None` when no root pid is set yet.
    pub fn is_initial_fork(&self, event: &Event) -> (r: Option<bool>)
        ensures
            r == match self.root() {
                Some(rp) => Some(event.pid() == rp && event is Fork),
                None => None::<bool>,
            },
    {
        match self.root_pid {
            Some(rp) => Some(event.pid() == rp && event.is_fork()),
            None => None,
        }
    }

    /// Whether the initial fork of the root process has been seen: the
    /// tracked ledger only becomes non-empty through it (or through
    /// [`EventIngester::register_root`]).
    pub fn have_seen_initial_fork(&self) -> (r: bool)
        ensures
            r == (self.tracked_view().len() > 0),
    {
        !self.tracked_events.is_empty()
    }

    /// Whether no pid is tracked yet.
    pub fn is_empty(&self) -> (r: bool)
        ensures
            r == (self.tracked_view().len() == 0),
    {
        self.tracked_events.is_empty()
    }

    /// Runs the exec-merge pass over the tracked ledger, in place; the last
    /// step of ingestion before the ledger is handed to renderers.
    pub fn prepare_for_rendering(&mut self)
        requires
            old(self).wf(),
        ensures
            final(self).wf(),
            final(self).root() == old(self).root(),
            final(self).pending_view() == old(self).pending_view(),
            final(self).has_writer() == old(self).has_writer(),
            final(self).write_log() == old(self).write_log(),
            final(self).raw_log() == old(self).raw_log(),
            final(self).tracked_view().len() == old(self).tracked_view().len(),
            forall|k: int|
                0 <= k < old(self).tracked_view().len() ==> final(self).tracked_view()[k].0 == old(
                    self,
                ).tracked_view()[k].0 && final(self).tracked_view()[k].1 == crate::merge::collapse_buffer(
                    old(self).tracked_view()[k].1,
                ),
    {
        self.tracked_events.collapse_execs();
    }

    /// Pre-creates the root pid's (empty) tracked entry; for callers that
    /// know the root pid independent of telemetry, before anything is
    /// tracked.
    pub fn register_root(&mut self, pid: i32)
        requires
            old(self).tracked_view().len() == 0,
        ensures
            final(self).wf() == old(self).wf(),
            final(self).tracked_view() == seq![(pid, Seq::<Event>::empty())],
            final(self).pending_view() == old(self).pending_view(),
            final(self).root() == old(self).root(),
            final(self).has_writer() == old(self).has_writer(),
            final(self).write_log() == old(self).write_log(),
            final(self).raw_log() == old(self).raw_log(),
    {
        self.tracked_events.register_root(pid);
    }
}

impl<T: EventWrite> EventIngester<T> {
    /// Creates a router.
    ///
    /// Without a root pid it buffers every record until one is set. With a
    /// sink, records are written through as they are identified as part of
    /// the traced subtree.
    pub fn new(root_pid: Option<i32>, writer: Option<T>) -> (r: EventIngester<T>)
        ensures
            r.wf(),
            r.root() == root_pid,
            r.tracked_view().len() == 0,
            r.pending_view().len() == 0,
            r.has_writer() == (writer is Some),
            r.write_log() == Seq::<Event>::empty(),
            r.raw_log() == Seq::<Seq<char>>::empty(),
    {
        EventIngester {
            root_pid,
            tracked_events: EventStore::new(),
            buffered_events: EventStore::new(),
            writer,
            written: Ghost(Seq::empty()),
            raw_written: Ghost(Seq::empty()),
        }
    }

    /// Hands one raw telemetry line to the sink, if one is attached: exactly
    /// one `write_raw` call with this very line, a refusal surfacing as
    /// [`IngestError::SinkFailure`]. Without a sink, nothing happens.
    pub fn write_raw(&mut self, line: &str) -> (r: Result<(), IngestError>)
        ensures
            final(self).tracked_view() == old(self).tracked_view(),
            final(self).pending_view() == old(self).pending_view(),
            final(self).root() == old(self).root(),
            final(self).has_writer() == old(self).has_writer(),
            final(self).write_log() == old(self).write_log(),
            old(self).has_writer() ==> final(self).raw_log() == old(self).raw_log().push(line@),
            !old(self).has_writer() ==> final(self).raw_log() == old(self).raw_log() && r is Ok,
            r matches Err(e) ==> e is SinkFailure,
    {
        match self.writer.as_mut() {
            Some(w) => {
                let result = w.write_raw(line);
                proof {
                    self.raw_written@ = self.raw_written@.push(line@);
                }
                match result {
                    Ok(()) => Ok(()),
                    Err(_) => Err(IngestError::SinkFailure),
                }
            },
            None => Ok(()),
        }
    }

    /// Hands one in-scope record to the sink, if one is attached: exactly one
    /// `write_event` call with this very record; `true` on a sink failure.
    fn write_through(&mut self, event: &Event) -> (failed: bool)
        ensures
            final(self).tracked_view() == old(self).tracked_view(),
            final(self).pending_view() == old(self).pending_view(),
            final(self).root() == old(self).root(),
            final(self).has_writer() == old(self).has_writer(),
            final(self).raw_log() == old(self).raw_log(),
            old(self).has_writer() ==> final(self).write_log() == old(self).write_log().push(
                *event,
            ),
            !old(self).has_writer() ==> final(self).write_log() == old(self).write_log()
                && !failed,
    {
        match self.writer.as_mut() {
            Some(w) => {
                let failed = w.write_event(event).is_err();
                proof {
                    self.written@ = self.written@.push(*event);
                }
                failed
            },
            None => false,
        }
    }

    /// Files the record in the tracked ledger.
    fn store_event(&mut self, event: Event)
        requires
            old(self).wf(),
        ensures
            final(self).wf(),
            final(self).tracked_view() == store_add(
                old(self).tracked_view(),
                event.pid(),
                event,
            ),
            final(self).pending_view() == old(self).pending_view(),
            final(self).root() == old(self).root(),
            final(self).has_writer() == old(self).has_writer(),
            final(self).write_log() == old(self).write_log(),
            final(self).raw_log() == old(self).raw_log(),
    {
        let pid = event.pid();
        self.tracked_events.add(pid, event);
    }

    /// Files the record in the pending ledger, where it waits until its
    /// process is linked to the traced subtree.
    fn buffer_event(&mut self, event: Event)
        requires
            old(self).wf(),
        ensures
            final(self).wf(),
            final(self).pending_view() == store_add(
                old(self).pending_view(),
                event.pid(),
                event,
            ),
            final(self).tracked_view() == old(self).tracked_view(),
            final(self).root() == old(self).root(),
            final(self).has_writer() == old(self).has_writer(),
            final(self).write_log() == old(self).write_log(),
            final(self).raw_log() == old(self).raw_log(),
    {
        let ghost p0 = self.pending_view();
        let pid = event.pid();
        proof {
            crate::store::lemma_store_add_frame(p0, pid, event);
            crate::store::lemma_insert_pos_props(store_buf(p0, pid), event.spec_timestamp());
            crate::store::lemma_store_add_subjects(p0, event);
        }
        self.buffered_events.add(pid, event);
        proof {
            let p1 = self.pending_view();
            assert forall|q: i32|
                #[trigger] store_contains(p1, q) implies store_buf(p1, q).len() > 0 by {
                if q != pid {
                    assert(store_contains(p0, q));
                }
            }
        }
    }

    /// Picks, to a fixpoint, the pending pids to promote: those already
    /// tracked, and those whose front record is a `Fork` whose parent is
    /// tracked or itself picked.
    fn select_promoted(&self) -> (promoted: Vec<i32>)
        requires
            self.wf(),
        ensures
            promoted@.no_duplicates(),
            forall|j: int|
                0 <= j < promoted@.len() ==> store_contains(
                    self.pending_view(),
                    #[trigger] promoted@[j],
                ),
            forall|j: int|
                0 <= j < promoted@.len() ==> chain_linked(
                    self.tracked_view(),
                    self.pending_view(),
                    #[trigger] promoted@[j],
                ),
            forall|q: i32|
                pass_promotes(self.tracked_view(), self.pending_view(), promoted@.to_set(), q)
                    ==> promoted@.contains(q),
    {
        let ghost t0 = self.tracked_view();
        let ghost p0 = self.pending_view();
        let pending_pids = self.buffered_events.currently_tracked();
        let ghost keys = pending_pids@;
        let npending = pending_pids.len();
        let bound: u128 = npending as u128 + 1;
        let mut promoted: Vec<i32> = Vec::new();
        let mut stable = false;
        let mut round: u128 = 0;
        while round < bound && !stable
            invariant
                self.wf(),
                t0 == self.tracked_view(),
                p0 == self.pending_view(),
                keys == crate::store::store_pids(p0),
                keys == pending_pids@,
                npending == keys.len(),
                bound == npending as u128 + 1,
                promoted@.no_duplicates(),
                forall|j: int|
                    0 <= j < promoted@.len() ==> store_contains(p0, #[trigger] promoted@[j]),
                forall|j: int|
                    0 <= j < promoted@.len() ==> chain_linked(t0, p0, #[trigger] promoted@[j]),
                promoted@.len() <= keys.len(),
                stable ==> (forall|q: i32|
                    pass_promotes(t0, p0, promoted@.to_set(), q) ==> promoted@.contains(q)),
                !stable ==> promoted@.len() >= round,
            decreases bound - round,
        {
            let ghost start = promoted@;
            let mut added = false;
            let mut idx: usize = 0;
            while idx < pending_pids.len()
                invariant
                    self.wf(),
                    t0 == self.tracked_view(),
                    p0 == self.pending_view(),
                    keys == crate::store::store_pids(p0),
                    keys == pending_pids@,
                    idx <= keys.len(),
                    promoted@.no_duplicates(),
                    forall|j: int|
                        0 <= j < promoted@.len() ==> store_contains(p0, #[trigger] promoted@[j]),
                    forall|j: int|
                        0 <= j < promoted@.len() ==> chain_linked(t0, p0, #[trigger] promoted@[j]),
                    promoted@.len() <= keys.len(),
                    !added ==> promoted@ == start,
                    added ==> promoted@.len() > start.len(),
                    !added ==> (forall|j: int|
                        0 <= j < idx ==> promoted@.contains(#[trigger] keys[j]) || !pass_promotes(
                            t0,
                            p0,
                            promoted@.to_set(),
                            keys[j],
                        )),
                decreases pending_pids.len() - idx,
            {
                let pid = pending_pids[idx];
                proof {
                    assert(keys[idx as int] == p0[idx as int].0);
                    assert(store_contains(p0, pid));
                }
                if !vec_contains(&promoted, pid) {
                    let cond = if self.tracked_events.pid_is_tracked(pid) {
                        true
                    } else {
                        match self.buffered_events.parent(pid) {
                            Some(par) => self.tracked_events.pid_is_tracked(par) || vec_contains(
                                &promoted,
                                par,
                            ),
                            None => false,
                        }
                    };
                    if cond {
                        proof {
                            if store_contains(t0, pid) || (store_parent(p0, pid) matches Some(par)
                                && store_contains(t0, par)) {
                                let c = seq![pid];
                                assert(is_link_chain(t0, p0, c));
                                assert(c.last() == pid);
                            } else {
                                let par = store_parent(p0, pid).unwrap();
                                assert(promoted@.contains(par));
                                let j = choose|j: int|
                                    0 <= j < promoted@.len() && promoted@[j] == par;
                                assert(chain_linked(t0, p0, par));
                                let c = choose|c: Seq<i32>|
                                    is_link_chain(t0, p0, c) && c.last() == par;
                                let c2 = c.push(pid);
                                assert(c2[0] == c[0]);
                                assert forall|i: int|
                                    1 <= i < c2.len() implies store_parent(p0, #[trigger] c2[i])
                                    == Some(c2[i - 1]) by {
                                    if i < c.len() {
                                        assert(c2[i] == c[i]);
                                        assert(c2[i - 1] == c[i - 1]);
                                    } else {
                                        assert(c2[i] == pid);
                                        assert(c2[i - 1] == c.last());
                                    }
                                }
                                assert(is_link_chain(t0, p0, c2));
                                assert(c2.last() == pid);
                            }
                            assert(chain_linked(t0, p0, pid));
                        }
                        let ghost before = promoted@;
                        promoted.push(pid);
                        added = true;
                        proof {
                            assert(promoted@.drop_last() =~= before);
                            assert(promoted@.no_duplicates());
                            promoted@.unique_seq_to_set();
                            assert(promoted@.to_set().subset_of(keys.to_set())) by {
                                assert forall|x: i32|
                                    promoted@.to_set().contains(x) implies keys.to_set().contains(
                                    x,
                                ) by {
                                    assert(promoted@.contains(x));
                                    let j = choose|j: int|
                                        0 <= j < promoted@.len() && promoted@[j] == x;
                                    assert(store_contains(p0, x));
                                    let m = choose|m: int| 0 <= m < p0.len() && p0[m].0 == x;
                                    assert(keys[m] == x);
                                    assert(keys.contains(x));
                                }
                            }
                            vstd::set_lib::lemma_len_subset(promoted@.to_set(), keys.to_set());
                            keys.lemma_cardinality_of_set();
                        }
                    }
                }
                idx = idx + 1;
            }
            if !added {
                stable = true;
                proof {
                    assert forall|q: i32|
                        pass_promotes(t0, p0, promoted@.to_set(), q) implies promoted@.contains(
                        q,
                    ) by {
                        assert(store_contains(p0, q));
                        let m = choose|m: int| 0 <= m < p0.len() && p0[m].0 == q;
                        assert(keys[m] == q);
                        if !promoted@.contains(q) {
                            assert(promoted@.contains(keys[m]) || !pass_promotes(
                                t0,
                                p0,
                                promoted@.to_set(),
                                keys[m],
                            ));
                        }
                    }
                }
            }
            round = round + 1;
        }
        proof {
            if !stable {
                assert(round == bound);
                assert(promoted@.len() >= round);
                assert(false);
            }
        }
        promoted
    }

    /// The timestamp of a pending pid's earliest record (zero without one).
    fn pending_start(&self, pid: i32) -> (t: u128)
        requires
            self.wf(),
        ensures
            t == (match crate::store::store_start_time(self.pending_view(), pid) {
                Some(x) => x,
                None => 0u128,
            }),
    {
        match self.buffered_events.pid_start_time(pid) {
            Some(t) => t,
            None => 0,
        }
    }

    /// Reorders the picked pids ascending by the timestamp of their earliest
    /// pending record (equal starts keep their picked order), so that whole
    /// processes merge and write through in chronological batch order.
    fn order_by_start_time(&self, promoted: Vec<i32>) -> (order: Vec<i32>)
        requires
            self.wf(),
            promoted@.no_duplicates(),
            forall|j: int|
                0 <= j < promoted@.len() ==> store_contains(
                    self.pending_view(),
                    #[trigger] promoted@[j],
                ),
        ensures
            order@.no_duplicates(),
            forall|j: int|
                0 <= j < order@.len() ==> store_contains(self.pending_view(), #[trigger] order@[j]),
            forall|q: i32| order@.contains(q) <==> promoted@.contains(q),
            forall|i: int, j: int|
                0 <= i < j < order@.len() ==> spec_start_or_zero(self.pending_view(), order@[i])
                    <= spec_start_or_zero(self.pending_view(), order@[j]),
    {
        let ghost p0 = self.pending_view();
        let ghost all = promoted@;
        let ghost total = all.len() as int;
        let n = promoted.len();
        let mut promoted = promoted;
        let mut order: Vec<i32> = Vec::new();
        let mut i: usize = 0;
        proof {
            assert(total == n as int);
            assert(promoted@.subrange(0, total) =~= all);
            assert(forall|q: i32| all.take(0).contains(q) ==> false);
        }
        while promoted.len() > 0
            invariant
                self.wf(),
                p0 == self.pending_view(),
                total == all.len(),
                total <= usize::MAX,
                all.no_duplicates(),
                forall|j: int| 0 <= j < all.len() ==> store_contains(p0, #[trigger] all[j]),
                i + promoted@.len() == total,
                promoted@ == all.subrange(i as int, total),
                order@.no_duplicates(),
                forall|j: int| 0 <= j < order@.len() ==> store_contains(p0, #[trigger] order@[j]),
                forall|q: i32| order@.contains(q) <==> all.take(i as int).contains(q),
                forall|j1: int, j2: int|
                    0 <= j1 < j2 < order@.len() ==> spec_start_or_zero(p0, order@[j1])
                        <= spec_start_or_zero(p0, order@[j2]),
            decreases promoted.len(),
        {
            proof {
                assert(promoted@[0] == all[i as int]);
            }
            let pid = promoted.remove(0);
            proof {
                assert(promoted@ =~= all.subrange(i + 1, total));
                assert(store_contains(p0, pid));
            }
            let t = self.pending_start(pid);
            proof {
                assert(t == spec_start_or_zero(p0, pid));
            }
            let ghost order0 = order@;
            let mut p: usize = 0;
            while p < order.len() && self.pending_start(order[p]) <= t
                invariant
                    self.wf(),
                    p0 == self.pending_view(),
                    order@ == order0,
                    p <= order0.len(),
                    t == spec_start_or_zero(p0, pid),
                    forall|j: int| 0 <= j < order0.len() ==> store_contains(p0, #[trigger] order0[j]),
                    forall|j: int| 0 <= j < p ==> spec_start_or_zero(p0, order0[j]) <= t,
                decreases order.len() - p,
            {
                p = p + 1;
            }
            proof {
                // the new pid is fresh: it sits at `i` in a duplicate-free list
                if order@.contains(pid) {
                    assert(all.take(i as int).contains(pid));
                    let j = choose|j: int| 0 <= j < i && all.take(i as int)[j] == pid;
                    assert(all[j] == all[i as int]);
                    assert(false);
                }
            }
            order.insert(p, pid);
            proof {
                let onew = order@;
                assert(onew =~= order0.take(p as int) + seq![pid] + order0.skip(p as int));
                assert forall|j1: int, j2: int|
                    0 <= j1 < j2 < onew.len() implies spec_start_or_zero(p0, onew[j1])
                    <= spec_start_or_zero(p0, onew[j2]) by {
                    if j1 < p {
                        assert(onew[j1] == order0[j1]);
                    } else if j1 == p {
                        assert(onew[j1] == pid);
                    } else {
                        assert(onew[j1] == order0[j1 - 1]);
                    }
                    if j2 < p {
                        assert(onew[j2] == order0[j2]);
                    } else if j2 == p {
                        assert(onew[j2] == pid);
                    } else {
                        assert(onew[j2] == order0[j2 - 1]);
                        if j1 <= p && p < order0.len() {
                            assert(spec_start_or_zero(p0, order0[p as int]) > t);
                            assert(spec_start_or_zero(p0, order0[j2 - 1]) >= spec_start_or_zero(
                                p0,
                                order0[p as int],
                            ));
                        }
                    }
                }
                assert forall|j1: int, j2: int|
                    0 <= j1 < j2 < onew.len() implies onew[j1] != onew[j2] by {
                    let v1 = if j1 < p {
                        order0[j1]
                    } else if j1 == p {
                        pid
                    } else {
                        order0[j1 - 1]
                    };
                    let v2 = if j2 < p {
                        order0[j2]
                    } else if j2 == p {
                        pid
                    } else {
                        order0[j2 - 1]
                    };
                    assert(onew[j1] == v1);
                    assert(onew[j2] == v2);
                    if v1 == pid {
                        assert(!order0.contains(v2) == false || v2 != pid);
                        if v2 == pid {
                            assert(order0.contains(onew[j2]) || j2 == p);
                        }
                    }
                }
                assert forall|q: i32| onew.contains(q) <==> all.take(i + 1).contains(q) by {
                    if onew.contains(q) {
                        let j = choose|j: int| 0 <= j < onew.len() && onew[j] == q;
                        if j == p {
                            assert(all.take(i + 1)[i as int] == pid);
                        } else if j < p {
                            assert(order0[j] == q);
                            assert(order0.contains(q));
                            assert(all.take(i as int).contains(q));
                            let m = choose|m: int| 0 <= m < i && all.take(i as int)[m] == q;
                            assert(all.take(i + 1)[m] == q);
                        } else {
                            assert(order0[j - 1] == q);
                            assert(order0.contains(q));
                            assert(all.take(i as int).contains(q));
                            let m = choose|m: int| 0 <= m < i && all.take(i as int)[m] == q;
                            assert(all.take(i + 1)[m] == q);
                        }
                    }
                    if all.take(i + 1).contains(q) {
                        let m = choose|m: int| 0 <= m < i + 1 && #[trigger] all.take(i + 1)[m] == q;
                        if m == i {
                            assert(onew[p as int] == q);
                        } else {
                            assert(all.take(i as int)[m] == q);
                            assert(all.take(i as int).contains(q));
                            assert(order0.contains(q));
                            let j = choose|j: int| 0 <= j < order0.len() && order0[j] == q;
                            if j < p {
                                assert(onew[j] == q);
                            } else {
                                assert(onew[j + 1] == q);
                            }
                        }
                    }
                }
            }
            i = i + 1;
        }
        proof {
            assert(all.take(total) =~= all);
        }
        order
    }

    /// The transitive-closure promotion pass, run after every observation:
    /// picks every pending pid that is tracked or fork-linked (directly or
    /// through other pending pids) to the tracked set, removes those pids'
    /// records from the pending ledger wholesale in ascending order of first
    /// timestamp, merges them into the tracked ledger, and writes each merged
    /// record through the sink.
    ///
    /// The router's state is fully updated even when the sink fails; the only
    /// error this can surface is [`IngestError::SinkFailure`].
    fn drain_buffer(&mut self) -> (r: Result<(), IngestError>)
        requires
            old(self).wf(),
        ensures
            final(self).wf(),
            final(self).root() == old(self).root(),
            final(self).has_writer() == old(self).has_writer(),
            drained(
                old(self).tracked_view(),
                old(self).pending_view(),
                final(self).tracked_view(),
                final(self).pending_view(),
            ),
            // sink calls: nothing raw, and exactly the promoted pids' records,
            // whole batches ascending by first timestamp, records in stored order
            final(self).raw_log() == old(self).raw_log(),
            !old(self).has_writer() ==> final(self).write_log() == old(self).write_log(),
            old(self).has_writer() ==> exists|batch: Seq<i32>|
                promotion_batch(old(self).pending_view(), final(self).pending_view(), batch)
                    && final(self).write_log() == old(self).write_log() + logs_of(
                    old(self).pending_view(),
                    batch,
                ),
            // nothing reaches the sink whose subject does not end up tracked
            forall|i: int|
                old(self).write_log().len() <= i < final(self).write_log().len()
                    ==> store_contains(
                    final(self).tracked_view(),
                    (#[trigger] final(self).write_log()[i]).pid(),
                ),
            r matches Err(e) ==> e is SinkFailure,
            !old(self).has_writer() ==> r is Ok,
    {
        let ghost t0 = self.tracked_view();
        let ghost p0 = self.pending_view();
        let ghost root0 = self.root();
        let ghost hasw = self.has_writer();
        let ghost wl0 = self.write_log();
        let ghost rl0 = self.raw_log();
        let promoted = self.select_promoted();
        let ghost psel = promoted@;
        let order = self.order_by_start_time(promoted);
        let ghost ord = order@;
        proof {
            assert forall|q: i32|
                pass_promotes(t0, p0, ord.to_set(), q) implies ord.contains(q) by {
                assert(ord.to_set() =~= psel.to_set()) by {
                    assert forall|x: i32| #[trigger]
                        ord.to_set().contains(x) == psel.to_set().contains(x) by {
                        assert(ord.to_set().contains(x) == ord.contains(x));
                        assert(psel.to_set().contains(x) == psel.contains(x));
                    }
                }
                assert(pass_promotes(t0, p0, psel.to_set(), q));
                assert(psel.contains(q));
            }
            assert forall|q: i32| ord.contains(q) implies chain_linked(t0, p0, q) by {
                assert(psel.contains(q));
                let j = choose|j: int| 0 <= j < psel.len() && psel[j] == q;
            }
        }
        // detach every picked pid's records from the pending ledger
        let mut pairs: Vec<(i32, Vec<Event>)> = Vec::new();
        let norder = order.len();
        let mut i: usize = 0;
        while i < norder
            invariant
                self.wf(),
                bufs_nonempty(p0),
                norder == ord.len(),
                order@ == ord,
                i <= norder,
                self.tracked_view() == t0,
                self.root() == root0,
                self.has_writer() == hasw,
                self.write_log() == wl0,
                self.raw_log() == rl0,
                ord.no_duplicates(),
                forall|j: int| 0 <= j < ord.len() ==> store_contains(p0, #[trigger] ord[j]),
                forall|q: i32|
                    #[trigger] store_contains(self.pending_view(), q) ==> store_contains(p0, q)
                        && store_buf(self.pending_view(), q) == store_buf(p0, q),
                forall|q: i32|
                    #[trigger] store_contains(p0, q) ==> store_contains(self.pending_view(), q)
                        || ord.take(i as int).contains(q),
                forall|j: int|
                    0 <= j < i ==> !store_contains(self.pending_view(), #[trigger] ord[j]),
                pairs@.len() == i,
                forall|j: int|
                    0 <= j < i ==> (#[trigger] pairs@[j]).0 == ord[j] && pairs@[j].1@ == store_buf(
                        p0,
                        ord[j],
                    ),
            decreases norder - i,
        {
            let pid = order[i];
            proof {
                assert(store_contains(p0, pid));
                if !store_contains(self.pending_view(), pid) {
                    assert(ord.take(i as int).contains(pid));
                    let j = choose|j: int| 0 <= j < i && ord.take(i as int)[j] == pid;
                    assert(ord[j] == ord[i as int]);
                    assert(false);
                }
            }
            let ghost pmid = self.pending_view();
            match self.buffered_events.remove(pid) {
                Some(buf) => {
                    pairs.push((pid, buf));
                },
                None => {
                    return Err(IngestError::MissingPendingBuffer { pid });
                },
            }
            proof {
                crate::store::lemma_store_remove_frame(pmid, pid);
                let pnow = self.pending_view();
                assert forall|q: i32|
                    #[trigger] store_contains(pnow, q) implies store_contains(p0, q) && store_buf(
                    pnow,
                    q,
                ) == store_buf(p0, q) by {
                    assert(q != pid);
                    assert(store_contains(pmid, q));
                }
                assert forall|q: i32|
                    #[trigger] store_contains(pnow, q) implies store_buf(pnow, q).len() > 0 by {
                    assert(store_contains(p0, q));
                }
                assert forall|q: i32|
                    #[trigger] store_contains(p0, q) implies store_contains(pnow, q) || ord.take(
                    i + 1,
                ).contains(q) by {
                    if !store_contains(pnow, q) {
                        if q == pid {
                            assert(ord.take(i + 1)[i as int] == pid);
                        } else if store_contains(pmid, q) {
                            assert(false);
                        } else {
                            assert(ord.take(i as int).contains(q));
                            let j = choose|j: int| 0 <= j < i && ord.take(i as int)[j] == q;
                            assert(ord.take(i + 1)[j] == q);
                        }
                    }
                }
                assert forall|j: int|
                    0 <= j < i + 1 implies !store_contains(self.pending_view(), #[trigger] ord[j])
                by {
                    if j < i {
                        assert(ord[j] != pid);
                        assert(!store_contains(pmid, ord[j]));
                    }
                }
            }
            i = i + 1;
        }
        let ghost pf = self.pending_view();
        proof {
            assert(ord.take(norder as int) =~= ord);
            assert(ord.take(0).len() == 0);
            assert(wl0 + logs_of(p0, ord.take(0)) =~= wl0);
        }
        // merge each detached process into the tracked ledger, writing its
        // records through the sink, in ascending order of first timestamp
        let mut sink_failed = false;
        let mut pairs = pairs;
        let mut m: usize = 0;
        while m < norder
            invariant
                self.wf(),
                bufs_nonempty(p0),
                norder == ord.len(),
                norder <= usize::MAX,
                m <= norder,
                pairs@.len() == norder - m,
                forall|j: int|
                    0 <= j < pairs@.len() ==> (#[trigger] pairs@[j]).0 == ord[j + m]
                        && pairs@[j].1@ == store_buf(p0, ord[j + m]),
                ord.no_duplicates(),
                forall|j: int| 0 <= j < ord.len() ==> store_contains(p0, #[trigger] ord[j]),
                self.pending_view() == pf,
                self.root() == root0,
                self.has_writer() == hasw,
                self.raw_log() == rl0,
                hasw ==> self.write_log() == wl0 + logs_of(p0, ord.take(m as int)),
                !hasw ==> self.write_log() == wl0,
                !hasw ==> !sink_failed,
                forall|q: i32|
                    !ord.take(m as int).contains(q) ==> store_contains(self.tracked_view(), q)
                        == store_contains(t0, q) && store_buf(self.tracked_view(), q) == store_buf(
                        t0,
                        q,
                    ),
                forall|j: int|
                    0 <= j < m ==> store_contains(self.tracked_view(), #[trigger] ord[j])
                        && store_buf(self.tracked_view(), ord[j])
                        == crate::store::buf_insert_all(
                        store_buf(t0, ord[j]),
                        store_buf(p0, ord[j]),
                    ),
            decreases norder - m,
        {
            let ghost pre = pairs@;
            let pair = pairs.remove(0);
            let pid = pair.0;
            let buf = pair.1;
            proof {
                assert(pair == pre[0]);
                assert(pid == ord[m as int]);
                assert(buf@ == store_buf(p0, pid));
                assert forall|j: int|
                    0 <= j < pairs@.len() implies (#[trigger] pairs@[j]).0 == ord[j + (m + 1)]
                        && pairs@[j].1@ == store_buf(p0, ord[j + (m + 1)]) by {
                    assert(pairs@[j] == pre[j + 1]);
                }
                if ord.take(m as int).contains(pid) {
                    let j = choose|j: int| 0 <= j < m && ord.take(m as int)[j] == pid;
                    assert(ord[j] == ord[m as int]);
                    assert(false);
                }
            }
            let ghost tmid = self.tracked_view();
            let ghost wl_pair = self.write_log();
            let ghost bufv = buf@;
            let mut j: usize = 0;
            proof {
                assert(wl_pair + bufv.take(0) =~= wl_pair);
            }
            while j < buf.len()
                invariant
                    self.wf(),
                    self.tracked_view() == tmid,
                    self.pending_view() == pf,
                    self.root() == root0,
                    self.has_writer() == hasw,
                    self.raw_log() == rl0,
                    bufv == buf@,
                    j <= bufv.len(),
                    hasw ==> self.write_log() == wl_pair + bufv.take(j as int),
                    !hasw ==> self.write_log() == wl_pair,
                    !hasw ==> !sink_failed,
                decreases buf.len() - j,
            {
                let ghost wl_pre = self.write_log();
                if self.write_through(&buf[j]) {
                    sink_failed = true;
                }
                proof {
                    if hasw {
                        assert(self.write_log() == wl_pre.push(bufv[j as int]));
                        assert(bufv.take(j + 1).drop_last() =~= bufv.take(j as int));
                        assert(bufv.take(j + 1).last() == bufv[j as int]);
                        assert((wl_pair + bufv.take(j as int)).push(bufv[j as int]) =~= wl_pair
                            + bufv.take(j + 1));
                    }
                }
                j = j + 1;
            }
            proof {
                assert(bufv.take(bufv.len() as int) =~= bufv);
                if hasw {
                    assert(ord.take(m + 1).drop_last() =~= ord.take(m as int));
                    assert(ord.take(m + 1).last() == ord[m as int]);
                    assert(logs_of(p0, ord.take(m + 1)) == logs_of(p0, ord.take(m as int))
                        + store_buf(p0, ord[m as int]));
                    assert(wl0 + logs_of(p0, ord.take(m as int)) + bufv =~= wl0 + logs_of(
                        p0,
                        ord.take(m + 1),
                    ));
                }
            }
            proof {
                crate::store::lemma_store_add_all_frame(tmid, pid, buf@);
                assert(store_buf(p0, pid).len() > 0);
            }
            self.tracked_events.add_many(pid, buf);
            proof {
                let tnow = self.tracked_view();
                assert(tnow == crate::store::store_add_all(tmid, pid, buf@));
                assert(store_buf(tmid, pid) == store_buf(t0, pid));
                assert forall|q: i32|
                    !ord.take(m + 1).contains(q) implies store_contains(tnow, q)
                        == store_contains(t0, q) && store_buf(tnow, q) == store_buf(t0, q) by {
                    assert(!ord.take(m + 1).contains(pid) == false) by {
                        assert(ord.take(m + 1)[m as int] == pid);
                    }
                    assert(q != pid);
                    if ord.take(m as int).contains(q) {
                        let jj = choose|jj: int| 0 <= jj < m && ord.take(m as int)[jj] == q;
                        assert(ord.take(m + 1)[jj] == q);
                        assert(false);
                    }
                }
                assert forall|jj: int|
                    0 <= jj < m + 1 implies store_contains(tnow, #[trigger] ord[jj]) && store_buf(
                    tnow,
                    ord[jj],
                ) == crate::store::buf_insert_all(store_buf(t0, ord[jj]), store_buf(p0, ord[jj]))
                by {
                    if jj < m {
                        assert(ord[jj] != pid);
                    }
                }
            }
            m = m + 1;
        }
        // the drained-state guarantees, assembled
        proof {
            let tf = self.tracked_view();
            assert(ord.take(norder as int) =~= ord);
            assert forall|q: i32|
                store_contains(t0, q) implies store_contains(tf, q) by {
                if ord.contains(q) {
                    let j = choose|j: int| 0 <= j < ord.len() && ord[j] == q;
                } else {
                    assert(!ord.take(norder as int).contains(q));
                }
            }
            assert forall|q: i32|
                #[trigger] store_contains(tf, q) implies store_contains(t0, q) || chain_linked(
                t0,
                p0,
                q,
            ) by {
                if !ord.contains(q) {
                    assert(!ord.take(norder as int).contains(q));
                }
            }
            assert forall|q: i32|
                #[trigger] store_contains(pf, q) implies !store_contains(tf, q) && (
                match store_parent(pf, q) {
                    Some(par) => !store_contains(tf, par),
                    None => true,
                }) by {
                assert(store_contains(p0, q));
                assert(store_buf(pf, q) == store_buf(p0, q));
                if ord.contains(q) {
                    let j = choose|j: int| 0 <= j < ord.len() && ord[j] == q;
                    assert(!store_contains(pf, ord[j]));
                    assert(false);
                }
                if store_contains(tf, q) {
                    if store_contains(t0, q) {
                        assert(pass_promotes(t0, p0, ord.to_set(), q));
                        assert(ord.contains(q));
                    } else {
                        assert(ord.take(norder as int).contains(q));
                    }
                    assert(false);
                }
                match store_parent(pf, q) {
                    Some(par) => {
                        assert(store_parent(p0, q) == Some(par));
                        if store_contains(tf, par) {
                            if store_contains(t0, par) {
                                assert(pass_promotes(t0, p0, ord.to_set(), q));
                                assert(ord.contains(q));
                                assert(false);
                            } else {
                                assert(ord.take(norder as int).contains(par));
                                assert(ord.to_set().contains(par));
                                assert(pass_promotes(t0, p0, ord.to_set(), q));
                                assert(ord.contains(q));
                                assert(false);
                            }
                        }
                    },
                    None => {},
                }
            }
            assert forall|q: i32|
                #[trigger] store_contains(p0, q) implies store_contains(pf, q) || store_contains(
                tf,
                q,
            ) by {
                if !store_contains(pf, q) {
                    assert(ord.take(norder as int).contains(q));
                    let j = choose|j: int| 0 <= j < ord.len() && ord[j] == q;
                }
            }
            assert forall|q: i32|
                store_contains(tf, q) && !store_contains(p0, q) implies store_buf(tf, q)
                    == store_buf(t0, q) by {
                if ord.contains(q) {
                    let j = choose|j: int| 0 <= j < ord.len() && ord[j] == q;
                    assert(store_contains(p0, ord[j]));
                    assert(false);
                }
                assert(!ord.take(norder as int).contains(q));
            }
            assert forall|q: i32|
                store_contains(tf, q) && store_contains(p0, q) && !store_contains(pf, q) implies
                store_buf(tf, q) == crate::store::buf_insert_all(
                store_buf(t0, q),
                store_buf(p0, q),
            ) by {
                assert(ord.take(norder as int).contains(q));
                let j = choose|j: int| 0 <= j < ord.len() && ord[j] == q;
            }
            // the sink log: the promotion order itself is the batch witness
            if hasw {
                assert(self.write_log() == wl0 + logs_of(p0, ord));
                assert forall|q: i32| #[trigger]
                    ord.contains(q) <==> (store_contains(p0, q) && !store_contains(pf, q)) by {
                    if ord.contains(q) {
                        let j = choose|j: int| 0 <= j < ord.len() && ord[j] == q;
                        assert(store_contains(p0, ord[j]));
                        assert(!store_contains(pf, ord[j]));
                    }
                    if store_contains(p0, q) && !store_contains(pf, q) {
                        assert(ord.take(norder as int).contains(q));
                    }
                }
                assert(promotion_batch(p0, pf, ord));
            }
            // every record handed over belongs to a pid now tracked
            lemma_logs_of_subjects(p0, ord);
            assert forall|i: int|
                wl0.len() <= i < self.write_log().len() implies store_contains(
                tf,
                (#[trigger] self.write_log()[i]).pid(),
            ) by {
                assert(hasw);
                assert(self.write_log()[i] == logs_of(p0, ord)[i - wl0.len()]);
                let k = choose|k: int|
                    0 <= k < ord.len() && logs_of(p0, ord)[i - wl0.len()].pid() == ord[k];
                assert(store_contains(tf, ord[k]));
            }
        }
        if sink_failed {
            Err(IngestError::SinkFailure)
        } else {
            Ok(())
        }
    }

    /// Observes one telemetry record: the core of ingestion.
    ///
    /// The record is appended to the tracked ledger when its subject pid is
    /// already tracked, or when it is the `Fork` of the configured root pid
    /// (which seeds tracking) — and in either case written through the sink;
    /// otherwise its provenance is unknown and it is buffered in the pending
    /// ledger. Either way, the draining pass then runs to its fixpoint: the
    /// state afterwards relates to the classified state exactly as
    /// [`drained`] describes, and is saturated.
    ///
    /// The state transition completes even if the sink fails; the only error
    /// ever surfaced is [`IngestError::SinkFailure`], and never without a
    /// sink.
    pub fn observe_event(&mut self, event: Event) -> (r: Result<(), IngestError>)
        requires
            old(self).wf(),
        ensures
            final(self).wf(),
            final(self).root() == old(self).root(),
            final(self).has_writer() == old(self).has_writer(),
            drained(
                classify(
                    old(self).root(),
                    old(self).tracked_view(),
                    old(self).pending_view(),
                    event,
                ).0,
                classify(
                    old(self).root(),
                    old(self).tracked_view(),
                    old(self).pending_view(),
                    event,
                ).1,
                final(self).tracked_view(),
                final(self).pending_view(),
            ),
            saturated(final(self).tracked_view(), final(self).pending_view()),
            // sink calls: the record itself when it goes straight to the
            // tracked ledger, then the drain's promotion batch; nothing raw
            final(self).raw_log() == old(self).raw_log(),
            !old(self).has_writer() ==> final(self).write_log() == old(self).write_log(),
            old(self).has_writer() ==> exists|batch: Seq<i32>|
                promotion_batch(
                    classify(
                        old(self).root(),
                        old(self).tracked_view(),
                        old(self).pending_view(),
                        event,
                    ).1,
                    final(self).pending_view(),
                    batch,
                ) && final(self).write_log() == old(self).write_log() + (if goes_tracked(
                    old(self).root(),
                    old(self).tracked_view(),
                    event,
                ) {
                    seq![event]
                } else {
                    Seq::<Event>::empty()
                }) + logs_of(
                    classify(
                        old(self).root(),
                        old(self).tracked_view(),
                        old(self).pending_view(),
                        event,
                    ).1,
                    batch,
                ),
            // nothing reaches the sink whose subject does not end up tracked
            forall|i: int|
                old(self).write_log().len() <= i < final(self).write_log().len()
                    ==> store_contains(
                    final(self).tracked_view(),
                    (#[trigger] final(self).write_log()[i]).pid(),
                ),
            r matches Err(e) ==> e is SinkFailure,
            !old(self).has_writer() ==> r is Ok,
    {
        let ghost t0 = self.tracked_view();
        let ghost p0 = self.pending_view();
        let ghost root0 = self.root();
        let ghost hasw = self.has_writer();
        let ghost wl0 = self.write_log();
        let ghost mid = classify(self.root(), self.tracked_view(), self.pending_view(), event);
        let ghost inline = if goes_tracked(root0, t0, event) {
            seq![event]
        } else {
            Seq::<Event>::empty()
        };
        let pid = event.pid();
        let mut sink_failed = false;
        if self.tracked_events.pid_is_tracked(pid) {
            // already in scope: keep and write through
            if self.write_through(&event) {
                sink_failed = true;
            }
            self.store_event(event);
        } else {
            let seed = match self.is_initial_fork(&event) {
                Some(b) => b,
                None => false,
            };
            if seed {
                // the root's own fork: seeds tracking
                if self.write_through(&event) {
                    sink_failed = true;
                }
                self.store_event(event);
            } else {
                // provenance unknown: defer
                self.buffer_event(event);
            }
        }
        proof {
            assert(self.tracked_view() == mid.0);
            assert(self.pending_view() == mid.1);
            if hasw {
                assert(self.write_log() =~= wl0 + inline);
            } else {
                assert(self.write_log() == wl0);
            }
            if goes_tracked(root0, t0, event) {
                crate::store::lemma_store_add_frame(t0, pid, event);
                assert(store_contains(mid.0, pid));
            }
        }
        let ghost wl1 = self.write_log();
        let dr = self.drain_buffer();
        proof {
            if hasw {
                let batch = choose|batch: Seq<i32>|
                    promotion_batch(mid.1, self.pending_view(), batch) && self.write_log() == wl1
                        + logs_of(mid.1, batch);
                assert(wl0 + inline + logs_of(mid.1, batch) =~= wl1 + logs_of(mid.1, batch));
                assert(promotion_batch(mid.1, self.pending_view(), batch) && self.write_log()
                    == wl0 + inline + logs_of(mid.1, batch));
            }
            let tf = self.tracked_view();
            assert forall|i: int|
                wl0.len() <= i < self.write_log().len() implies store_contains(
                tf,
                (#[trigger] self.write_log()[i]).pid(),
            ) by {
                if i < wl1.len() {
                    assert(self.write_log()[i] == wl1[i]);
                    assert(wl1[i] == event);
                    assert(store_contains(mid.0, event.pid()));
                }
            }
        }
        if sink_failed {
            Err(IngestError::SinkFailure)
        } else {
            dr
        }
    }
}

} // verus!
