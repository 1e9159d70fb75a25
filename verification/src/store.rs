//! The per-process event ledger: a mapping from pid to that process's
//! records, kept sorted by timestamp.

use vstd::multiset::Multiset;
use vstd::prelude::*;

use crate::models::Event;

verus! {

/// The ledger's mathematical content: its (pid, record sequence) entries in
/// ascending pid order.
pub type StoreView = Seq<(i32, Seq<Event>)>;

/// The index at which a record with timestamp `t` is inserted into `buf`:
/// directly after every record whose timestamp is at most `t`, so that
/// records with equal timestamps keep their insertion order.
pub open spec fn insert_pos(buf: Seq<Event>, t: u128) -> int
    decreases buf.len(),
{
    if buf.len() == 0 {
        0
    } else if buf[0].timestamp() > t {
        0
    } else {
        1 + insert_pos(buf.drop_first(), t)
    }
}

/// `buf` with `e` inserted at its timestamp's position.
pub open spec fn buf_insert(buf: Seq<Event>, e: Event) -> Seq<Event> {
    let p = insert_pos(buf, e.timestamp());
    buf.take(p) + seq![e] + buf.skip(p)
}

/// A record sequence sorted ascending by timestamp.
pub open spec fn buf_sorted(buf: Seq<Event>) -> bool {
    forall|i: int, j: int|
        0 <= i < j < buf.len() ==> buf[i].timestamp() <= buf[j].timestamp()
}

/// The ledger with `e` filed under `pid`: inserted into `pid`'s entry if one
/// exists, else a fresh entry for `pid` at its place in the pid order.
pub open spec fn store_add(s: StoreView, pid: i32, e: Event) -> StoreView
    decreases s.len(),
{
    if s.len() == 0 {
        seq![(pid, seq![e])]
    } else if s[0].0 == pid {
        seq![(s[0].0, buf_insert(s[0].1, e))] + s.drop_first()
    } else if s[0].0 > pid {
        seq![(pid, seq![e])] + s
    } else {
        seq![s[0]] + store_add(s.drop_first(), pid, e)
    }
}

/// Entry pids strictly ascending: each pid holds at most one entry.
pub open spec fn pids_sorted(s: StoreView) -> bool {
    forall|i: int, j: int| 0 <= i < j < s.len() ==> s[i].0 < s[j].0
}

/// Whether the ledger has an entry for `pid`.
pub open spec fn store_contains(s: StoreView, pid: i32) -> bool {
    exists|i: int| 0 <= i < s.len() && s[i].0 == pid
}

/// The records filed under `pid` (empty if no entry).
pub open spec fn store_buf(s: StoreView, pid: i32) -> Seq<Event>
    decreases s.len(),
{
    if s.len() == 0 {
        Seq::empty()
    } else if s[0].0 == pid {
        s[0].1
    } else {
        store_buf(s.drop_first(), pid)
    }
}

/// Insertion position for record timestamp `t` in a sorted buffer: every
/// record before it is at or below `t`, every record from it on is above.
pub proof fn lemma_insert_pos_at(buf: Seq<Event>, t: u128, p: int)
    requires
        0 <= p <= buf.len(),
        forall|i: int| 0 <= i < p ==> buf[i].timestamp() <= t,
        p < buf.len() ==> buf[p].timestamp() > t,
    ensures
        insert_pos(buf, t) == p,
    decreases p,
{
    if p == 0 {
    } else {
        assert(buf[0].timestamp() <= t);
        assert(forall|i: int|
            0 <= i < p - 1 ==> buf.drop_first()[i] == buf[i + 1]);
        lemma_insert_pos_at(buf.drop_first(), t, p - 1);
    }
}

/// The basic bounds and ordering facts about the insertion position.
pub proof fn lemma_insert_pos_props(buf: Seq<Event>, t: u128)
    ensures
        0 <= insert_pos(buf, t) <= buf.len(),
        forall|i: int| 0 <= i < insert_pos(buf, t) ==> buf[i].timestamp() <= t,
        insert_pos(buf, t) < buf.len() ==> buf[insert_pos(buf, t)].timestamp() > t,
    decreases buf.len(),
{
    if buf.len() == 0 {
    } else if buf[0].timestamp() > t {
    } else {
        lemma_insert_pos_props(buf.drop_first(), t);
        assert forall|i: int| 0 <= i < insert_pos(buf, t) implies buf[i].timestamp() <= t by {
            if i > 0 {
                assert(buf.drop_first()[i - 1] == buf[i]);
            }
        }
        if insert_pos(buf, t) < buf.len() {
            assert(buf.drop_first()[insert_pos(buf, t) - 1] == buf[insert_pos(buf, t)]);
        }
    }
}

/// Inserting into a sorted buffer keeps it sorted.
pub proof fn lemma_buf_insert_sorted(buf: Seq<Event>, e: Event)
    requires
        buf_sorted(buf),
    ensures
        buf_sorted(buf_insert(buf, e)),
        buf_insert(buf, e).len() == buf.len() + 1,
{
    let t = e.timestamp();
    let p = insert_pos(buf, t);
    lemma_insert_pos_props(buf, t);
    let out = buf_insert(buf, e);
    assert forall|i: int, j: int| 0 <= i < j < out.len() implies out[i].timestamp()
        <= out[j].timestamp() by {
        if i < p {
            assert(out[i] == buf[i]);
        } else if i == p {
            assert(out[i] == e);
        } else {
            assert(out[i] == buf[i - 1]);
        }
        if j < p {
            assert(out[j] == buf[j]);
        } else if j == p {
            assert(out[j] == e);
        } else {
            assert(out[j] == buf[j - 1]);
        }
    }
}

/// Where `store_add` lands when the first `k` entries have pids below the
/// target: it either updates the entry at `k` (same pid) or inserts a fresh
/// entry there.
pub proof fn lemma_store_add_at(s: StoreView, pid: i32, e: Event, k: int)
    requires
        0 <= k <= s.len(),
        forall|j: int| 0 <= j < k ==> s[j].0 < pid,
        k < s.len() ==> s[k].0 >= pid,
    ensures
        k < s.len() && s[k].0 == pid ==> store_add(s, pid, e) == s.update(
            k,
            (pid, buf_insert(s[k].1, e)),
        ),
        !(k < s.len() && s[k].0 == pid) ==> store_add(s, pid, e) == s.take(k) + seq![
            (pid, seq![e]),
        ] + s.skip(k),
    decreases k,
{
    if k == 0 {
        if s.len() == 0 {
            assert(store_add(s, pid, e) =~= s.take(0) + seq![(pid, seq![e])] + s.skip(0));
        } else if s[0].0 == pid {
            assert(store_add(s, pid, e) =~= s.update(0, (pid, buf_insert(s[0].1, e))));
        } else {
            assert(s[0].0 > pid);
            assert(store_add(s, pid, e) =~= s.take(0) + seq![(pid, seq![e])] + s.skip(0));
        }
    } else {
        assert(s[0].0 < pid);
        let rest = s.drop_first();
        assert(forall|j: int| 0 <= j < k - 1 ==> rest[j] == s[j + 1]);
        lemma_store_add_at(rest, pid, e, k - 1);
        assert(store_add(s, pid, e) == seq![s[0]] + store_add(rest, pid, e));
        if k < s.len() && s[k].0 == pid {
            assert(rest[k - 1] == s[k]);
            assert(seq![s[0]] + rest.update(k - 1, (pid, buf_insert(s[k].1, e))) =~= s.update(
                k,
                (pid, buf_insert(s[k].1, e)),
            ));
        } else {
            assert(seq![s[0]] + (rest.take(k - 1) + seq![(pid, seq![e])] + rest.skip(k - 1)) =~= s
                .take(k) + seq![(pid, seq![e])] + s.skip(k));
        }
    }
}

/// The ledger after filing every record of `events` in order under `pid`.
pub open spec fn store_add_all(s: StoreView, pid: i32, events: Seq<Event>) -> StoreView
    decreases events.len(),
{
    if events.len() == 0 {
        s
    } else {
        store_add(store_add_all(s, pid, events.drop_last()), pid, events.last())
    }
}

/// The ledger without `pid`'s entry (unchanged if there is none).
pub open spec fn store_remove(s: StoreView, pid: i32) -> StoreView
    decreases s.len(),
{
    if s.len() == 0 {
        s
    } else if s[0].0 == pid {
        s.drop_first()
    } else {
        seq![s[0]] + store_remove(s.drop_first(), pid)
    }
}

/// The entry pids, in entry order.
pub open spec fn store_pids(s: StoreView) -> Seq<i32> {
    Seq::new(s.len(), |i: int| s[i].0)
}

/// The fork parent recorded in the front record of `pid`'s entry, if that
/// entry exists, is non-empty, and its front record is a `Fork`.
pub open spec fn store_parent(s: StoreView, pid: i32) -> Option<i32> {
    if store_contains(s, pid) && store_buf(s, pid).len() > 0 {
        store_buf(s, pid)[0].fork_parent()
    } else {
        None
    }
}

/// The timestamp of the earliest record of `pid`'s entry, if any.
pub open spec fn store_start_time(s: StoreView, pid: i32) -> Option<u128> {
    if store_contains(s, pid) && store_buf(s, pid).len() > 0 {
        Some(store_buf(s, pid)[0].timestamp())
    } else {
        None
    }
}

/// Whether an entry counts as unfinished: it is empty, or its last record is
/// not an `Exit`.
pub open spec fn entry_unfinished(buf: Seq<Event>) -> bool {
    buf.len() == 0 || !(buf.last() is Exit)
}

/// The pids of the unfinished entries, in entry order.
pub open spec fn store_unfinished(s: StoreView) -> Seq<i32>
    decreases s.len(),
{
    if s.len() == 0 {
        Seq::empty()
    } else if entry_unfinished(s.last().1) {
        store_unfinished(s.drop_last()).push(s.last().0)
    } else {
        store_unfinished(s.drop_last())
    }
}

/// All records of all entries, flattened in entry (ascending pid) order.
pub open spec fn store_flatten(s: StoreView) -> Seq<Event>
    decreases s.len(),
{
    if s.len() == 0 {
        Seq::empty()
    } else {
        store_flatten(s.drop_last()) + s.last().1
    }
}

/// Every record of `es` inserted, in order, into `buf` at its timestamp's
/// position. Starting from an empty buffer this is a stable sort by
/// timestamp: records with equal timestamps keep their order in `es`.
pub open spec fn buf_insert_all(buf: Seq<Event>, es: Seq<Event>) -> Seq<Event>
    decreases es.len(),
{
    if es.len() == 0 {
        buf
    } else {
        buf_insert(buf_insert_all(buf, es.drop_last()), es.last())
    }
}

/// No two records share a timestamp.
pub open spec fn distinct_timestamps(es: Seq<Event>) -> bool {
    forall|i: int, j: int|
        0 <= i < j < es.len() ==> es[i].timestamp() != es[j].timestamp()
}

/// Repeated insertion keeps exactly the records put in: the result's
/// multiset is the buffer's plus the inserted ones.
pub proof fn lemma_buf_insert_all_multiset(buf: Seq<Event>, es: Seq<Event>)
    ensures
        buf_insert_all(buf, es).to_multiset() == buf.to_multiset().add(es.to_multiset()),
    decreases es.len(),
{
    broadcast use vstd::seq_lib::group_to_multiset_ensures;

    if es.len() == 0 {
        assert(es.to_multiset() =~= Multiset::<Event>::empty());
        assert(buf.to_multiset().add(es.to_multiset()) =~= buf.to_multiset());
    } else {
        let init = es.drop_last();
        let e = es.last();
        lemma_buf_insert_all_multiset(buf, init);
        let acc = buf_insert_all(buf, init);
        let p = insert_pos(acc, e.timestamp());
        lemma_insert_pos_props(acc, e.timestamp());
        assert(buf_insert(acc, e) =~= acc.insert(p, e));
        vstd::seq_lib::to_multiset_insert(acc, p, e);
        assert(init.push(e) =~= es);
        assert(es.to_multiset() == init.to_multiset().insert(e));
        assert(buf.to_multiset().add(init.to_multiset().insert(e)) =~= buf.to_multiset().add(
            init.to_multiset(),
        ).insert(e));
    }
}

/// Repeated insertion into a sorted buffer leaves it sorted.
pub proof fn lemma_buf_insert_all_sorted(buf: Seq<Event>, es: Seq<Event>)
    requires
        buf_sorted(buf),
    ensures
        buf_sorted(buf_insert_all(buf, es)),
    decreases es.len(),
{
    if es.len() == 0 {
    } else {
        lemma_buf_insert_all_sorted(buf, es.drop_last());
        lemma_buf_insert_sorted(buf_insert_all(buf, es.drop_last()), es.last());
    }
}

/// Two timestamp-sorted record sequences holding the same records, none of
/// which share a timestamp, are the same sequence.
proof fn lemma_sorted_distinct_unique(s1: Seq<Event>, s2: Seq<Event>)
    requires
        buf_sorted(s1),
        buf_sorted(s2),
        distinct_timestamps(s1),
        s1.to_multiset() == s2.to_multiset(),
    ensures
        s1 == s2,
    decreases s1.len(),
{
    broadcast use vstd::seq_lib::group_to_multiset_ensures;

    assert(s1.len() == s1.to_multiset().len());
    assert(s2.len() == s2.to_multiset().len());
    assert(s1.len() == s2.len());
    if s1.len() == 0 {
        assert(s1 =~= s2);
    } else {
        let n = s1.len() as int;
        assert(s2.to_multiset().count(s2.last()) > 0);
        assert(s1.contains(s2.last()));
        let k = choose|k: int| 0 <= k < n && s1[k] == s2.last();
        assert(s1.to_multiset().count(s1.last()) > 0);
        assert(s2.contains(s1.last()));
        let k2 = choose|k2: int| 0 <= k2 < n && s2[k2] == s1.last();
        assert(s1[k].timestamp() <= s1[n - 1].timestamp());
        assert(s2[k2].timestamp() <= s2[n - 1].timestamp());
        assert(s1.last().timestamp() == s2.last().timestamp());
        assert(k == n - 1) by {
            if k < n - 1 {
                assert(s1[k].timestamp() != s1[n - 1].timestamp());
            }
        }
        assert(s1.last() == s2.last());
        assert(s1.remove(n - 1) =~= s1.drop_last());
        assert(s2.remove(n - 1) =~= s2.drop_last());
        assert(s1.drop_last().to_multiset() == s1.to_multiset().remove(s1[n - 1]));
        assert(s2.drop_last().to_multiset() == s2.to_multiset().remove(s2[n - 1]));
        lemma_sorted_distinct_unique(s1.drop_last(), s2.drop_last());
        assert(s1 =~= s1.drop_last().push(s1.last()));
        assert(s2 =~= s2.drop_last().push(s2.last()));
    }
}

/// Order-insensitive insertion: filing any permutation of a set of records
/// whose timestamps are pairwise distinct, one by one, yields the same final
/// timestamp-sorted sequence.
pub proof fn lemma_add_order_insensitive(es1: Seq<Event>, es2: Seq<Event>)
    requires
        es1.to_multiset() == es2.to_multiset(),
        distinct_timestamps(es1),
    ensures
        buf_insert_all(Seq::empty(), es1) == buf_insert_all(Seq::empty(), es2),
        buf_sorted(buf_insert_all(Seq::empty(), es1)),
{
    broadcast use vstd::seq_lib::group_to_multiset_ensures;

    lemma_buf_insert_all_multiset(Seq::empty(), es1);
    lemma_buf_insert_all_multiset(Seq::empty(), es2);
    lemma_buf_insert_all_sorted(Seq::empty(), es1);
    lemma_buf_insert_all_sorted(Seq::empty(), es2);
    let r1 = buf_insert_all(Seq::empty(), es1);
    let r2 = buf_insert_all(Seq::empty(), es2);
    assert(Seq::<Event>::empty().to_multiset() =~= Multiset::<Event>::empty());
    assert(r1.to_multiset() =~= es1.to_multiset());
    assert(r2.to_multiset() =~= es2.to_multiset());
    assert(distinct_timestamps(r1)) by {
        assert forall|i: int, j: int|
            0 <= i < j < r1.len() implies r1[i].timestamp() != r1[j].timestamp() by {
            if r1[i].timestamp() == r1[j].timestamp() {
                let sub = r1.remove(j);
                assert(sub.to_multiset() == r1.to_multiset().remove(r1[j]));
                assert(sub[i] == r1[i]);
                assert(sub.contains(r1[i]));
                assert(sub.to_multiset().count(r1[i]) > 0);
                if r1[i] == r1[j] {
                    // the same record twice: it sits at two indices of es1
                    assert(r1.to_multiset().count(r1[j]) >= 2);
                    assert(es1.to_multiset().count(r1[j]) >= 2);
                    let a = choose|a: int| 0 <= a < es1.len() && es1[a] == r1[j];
                    let sube = es1.remove(a);
                    assert(sube.to_multiset() == es1.to_multiset().remove(es1[a]));
                    assert(sube.to_multiset().count(r1[j]) >= 1);
                    assert(sube.contains(r1[j]));
                    let b = choose|b: int| 0 <= b < sube.len() && sube[b] == r1[j];
                    if b < a {
                        assert(es1[b] == r1[j]);
                        assert(es1[b].timestamp() == es1[a].timestamp());
                    } else {
                        assert(es1[b + 1] == r1[j]);
                        assert(es1[b + 1].timestamp() == es1[a].timestamp());
                    }
                    assert(false);
                } else {
                    // two distinct records with one timestamp: both in es1
                    assert(es1.contains(r1[i]));
                    assert(es1.contains(r1[j]));
                    let a = choose|a: int| 0 <= a < es1.len() && es1[a] == r1[i];
                    let b = choose|b: int| 0 <= b < es1.len() && es1[b] == r1[j];
                    assert(a != b);
                    assert(es1[a].timestamp() == es1[b].timestamp());
                    assert(false);
                }
            }
        }
    }
    lemma_sorted_distinct_unique(r1, r2);
}

/// Order-insensitive insertion, at the ledger: filing any permutation of a
/// set of records with pairwise distinct timestamps under a fresh pid gives
/// that pid the same timestamp-sorted sequence and leaves every other pid's
/// records alone.
pub proof fn lemma_add_many_order_insensitive(
    s: StoreView,
    pid: i32,
    es1: Seq<Event>,
    es2: Seq<Event>,
)
    requires
        pids_sorted(s),
        !store_contains(s, pid),
        es1.to_multiset() == es2.to_multiset(),
        distinct_timestamps(es1),
    ensures
        store_buf(store_add_all(s, pid, es1), pid) == store_buf(store_add_all(s, pid, es2), pid),
        buf_sorted(store_buf(store_add_all(s, pid, es1), pid)),
        forall|q: i32|
            q != pid ==> store_buf(store_add_all(s, pid, es1), q) == store_buf(
                store_add_all(s, pid, es2),
                q,
            ),
{
    lemma_store_add_all_frame(s, pid, es1);
    lemma_store_add_all_frame(s, pid, es2);
    assert forall|i: int| 0 <= i < s.len() implies s[i].0 != pid by {
        if s[i].0 == pid {
            assert(store_contains(s, pid));
        }
    }
    lemma_store_buf_absent(s, pid);
    lemma_add_order_insensitive(es1, es2);
    lemma_buf_insert_all_sorted(Seq::empty(), es1);
    assert forall|q: i32|
        q != pid implies store_buf(store_add_all(s, pid, es1), q) == store_buf(
        store_add_all(s, pid, es2),
        q,
    ) by {
        assert(store_buf(store_add_all(s, pid, es1), q) == store_buf(s, q));
        assert(store_buf(store_add_all(s, pid, es2), q) == store_buf(s, q));
    }
}

/// The entries with at least one record, in entry order.
pub open spec fn nonempty_entries(s: StoreView) -> StoreView
    decreases s.len(),
{
    if s.len() == 0 {
        Seq::empty()
    } else if s.last().1.len() > 0 {
        nonempty_entries(s.drop_last()).push(s.last())
    } else {
        nonempty_entries(s.drop_last())
    }
}

/// The index at which an entry whose first record has timestamp `t` is
/// inserted among entries ordered by start time: after every entry whose
/// start is at most `t`.
pub open spec fn entry_insert_pos(s: StoreView, t: u128) -> int
    decreases s.len(),
{
    if s.len() == 0 {
        0
    } else if s[0].1.len() == 0 || s[0].1[0].timestamp() > t {
        0
    } else {
        1 + entry_insert_pos(s.drop_first(), t)
    }
}

/// `s` with the (non-empty) entry `ent` inserted at its start time's position.
pub open spec fn entries_insert(s: StoreView, ent: (i32, Seq<Event>)) -> StoreView
    recommends
        ent.1.len() > 0,
{
    let p = entry_insert_pos(s, ent.1[0].timestamp());
    s.take(p) + seq![ent] + s.skip(p)
}

/// Every entry of `es` inserted, in order, at its start time's position.
/// Starting from empty this is a stable sort by start time: entries with
/// equal starts keep their order in `es`.
pub open spec fn entries_insert_all(acc: StoreView, es: StoreView) -> StoreView
    decreases es.len(),
{
    if es.len() == 0 {
        acc
    } else {
        entries_insert(entries_insert_all(acc, es.drop_last()), es.last())
    }
}

/// A pid with no entry has the empty record sequence.
pub proof fn lemma_store_buf_absent(s: StoreView, pid: i32)
    requires
        forall|i: int| 0 <= i < s.len() ==> s[i].0 != pid,
    ensures
        store_buf(s, pid) == Seq::<Event>::empty(),
        !store_contains(s, pid),
    decreases s.len(),
{
    if s.len() == 0 {
    } else {
        let rest = s.drop_first();
        assert(forall|i: int| 0 <= i < rest.len() ==> rest[i] == s[i + 1]);
        lemma_store_buf_absent(rest, pid);
    }
}

/// A ledger whose first entry is `head`: membership and records of every
/// other pid are those of the remainder.
proof fn lemma_store_cons(s: StoreView, head: (i32, Seq<Event>), rest: StoreView)
    requires
        s == seq![head] + rest,
    ensures
        forall|q: i32| q != head.0 ==> store_contains(s, q) == store_contains(rest, q),
        forall|q: i32| q != head.0 ==> store_buf(s, q) == store_buf(rest, q),
        store_contains(s, head.0),
        store_buf(s, head.0) == head.1,
{
    assert(s[0] == head);
    assert(s.drop_first() =~= rest);
    assert forall|q: i32|
        q != head.0 implies store_contains(s, q) == store_contains(rest, q) by {
        if store_contains(rest, q) {
            let i = choose|i: int| 0 <= i < rest.len() && rest[i].0 == q;
            assert(s[i + 1].0 == q);
        }
        if store_contains(s, q) {
            let i = choose|i: int| 0 <= i < s.len() && s[i].0 == q;
            assert(i > 0);
            assert(rest[i - 1].0 == q);
        }
    }
}

/// `store_add` keeps the entries in ascending pid order, and introduces no
/// pid but the target.
pub proof fn lemma_store_add_sorted(s: StoreView, pid: i32, e: Event)
    requires
        pids_sorted(s),
    ensures
        pids_sorted(store_add(s, pid, e)),
        forall|k: int|
            0 <= k < store_add(s, pid, e).len() ==> (#[trigger] store_add(s, pid, e)[k].0 == pid
                || exists|m: int| 0 <= m < s.len() && s[m].0 == store_add(s, pid, e)[k].0),
    decreases s.len(),
{
    let out = store_add(s, pid, e);
    if s.len() == 0 {
    } else if s[0].0 == pid {
        assert(forall|k: int| 1 <= k < out.len() ==> out[k] == s[k]);
        assert forall|k: int|
            0 <= k < out.len() implies (#[trigger] out[k].0 == pid || exists|m: int|
                0 <= m < s.len() && s[m].0 == out[k].0) by {
            if k > 0 {
                assert(s[k].0 == out[k].0);
            }
        }
    } else if s[0].0 > pid {
        assert(forall|k: int| 1 <= k < out.len() ==> out[k] == s[k - 1]);
        assert forall|k: int|
            0 <= k < out.len() implies (#[trigger] out[k].0 == pid || exists|m: int|
                0 <= m < s.len() && s[m].0 == out[k].0) by {
            if k > 0 {
                assert(s[k - 1].0 == out[k].0);
            }
        }
    } else {
        let rest = s.drop_first();
        assert(forall|i: int, j: int| 0 <= i < j < rest.len() ==> rest[i].0 < rest[j].0);
        lemma_store_add_sorted(rest, pid, e);
        let tail = store_add(rest, pid, e);
        assert(out == seq![s[0]] + tail);
        assert(forall|k: int| 1 <= k < out.len() ==> out[k] == tail[k - 1]);
        assert forall|k: int|
            0 <= k < out.len() implies (#[trigger] out[k].0 == pid || exists|m: int|
                0 <= m < s.len() && s[m].0 == out[k].0) by {
            if k == 0 {
                assert(s[0].0 == out[0].0);
            } else if tail[k - 1].0 != pid {
                let m = choose|m: int| 0 <= m < rest.len() && rest[m].0 == tail[k - 1].0;
                assert(s[m + 1].0 == out[k].0);
            }
        }
        assert forall|i: int, j: int|
            0 <= i < j < out.len() implies out[i].0 < out[j].0 by {
            if i == 0 {
                assert(out[j] == tail[j - 1]);
                if tail[j - 1].0 == pid {
                    assert(s[0].0 < pid);
                } else {
                    let m = choose|m: int| 0 <= m < rest.len() && rest[m].0 == tail[j - 1].0;
                    assert(s[0].0 < rest[m].0);
                }
            } else {
                assert(out[i] == tail[i - 1]);
                assert(out[j] == tail[j - 1]);
            }
        }
    }
}

/// What `store_add` does, entry by entry: the target pid's records gain the
/// new one at its timestamp's place, every other pid's records are untouched.
pub proof fn lemma_store_add_frame(s: StoreView, pid: i32, e: Event)
    requires
        pids_sorted(s),
    ensures
        store_contains(store_add(s, pid, e), pid),
        store_buf(store_add(s, pid, e), pid) == buf_insert(store_buf(s, pid), e),
        forall|q: i32|
            q != pid ==> store_contains(store_add(s, pid, e), q) == store_contains(s, q),
        forall|q: i32| q != pid ==> store_buf(store_add(s, pid, e), q) == store_buf(s, q),
    decreases s.len(),
{
    let out = store_add(s, pid, e);
    if s.len() == 0 {
        assert(s =~= Seq::<(i32, Seq<Event>)>::empty());
        assert(buf_insert(Seq::<Event>::empty(), e) =~= seq![e]);
        assert(out =~= seq![(pid, seq![e])] + Seq::<(i32, Seq<Event>)>::empty());
        lemma_store_cons(out, (pid, seq![e]), Seq::empty());
    } else if s[0].0 == pid {
        assert(out =~= seq![(s[0].0, buf_insert(s[0].1, e))] + s.drop_first());
        assert(s =~= seq![s[0]] + s.drop_first());
        lemma_store_cons(out, (s[0].0, buf_insert(s[0].1, e)), s.drop_first());
        lemma_store_cons(s, s[0], s.drop_first());
    } else if s[0].0 > pid {
        assert forall|i: int| 0 <= i < s.len() implies s[i].0 != pid by {
            if i > 0 {
                assert(s[0].0 < s[i].0);
            }
        }
        lemma_store_buf_absent(s, pid);
        assert(buf_insert(Seq::<Event>::empty(), e) =~= seq![e]);
        assert(out =~= seq![(pid, seq![e])] + s);
        lemma_store_cons(out, (pid, seq![e]), s);
    } else {
        let rest = s.drop_first();
        assert(forall|i: int, j: int| 0 <= i < j < rest.len() ==> rest[i].0 < rest[j].0);
        lemma_store_add_frame(rest, pid, e);
        assert(out == seq![s[0]] + store_add(rest, pid, e));
        assert(s =~= seq![s[0]] + rest);
        lemma_store_cons(out, s[0], store_add(rest, pid, e));
        lemma_store_cons(s, s[0], rest);
    }
}

/// `store_add_all` keeps the pid order too.
pub proof fn lemma_store_add_all_sorted(s: StoreView, pid: i32, events: Seq<Event>)
    requires
        pids_sorted(s),
    ensures
        pids_sorted(store_add_all(s, pid, events)),
    decreases events.len(),
{
    if events.len() == 0 {
    } else {
        lemma_store_add_all_sorted(s, pid, events.drop_last());
        lemma_store_add_sorted(store_add_all(s, pid, events.drop_last()), pid, events.last());
    }
}

/// What `store_add_all` does, entry by entry: like `store_add`, repeated.
pub proof fn lemma_store_add_all_frame(s: StoreView, pid: i32, events: Seq<Event>)
    requires
        pids_sorted(s),
    ensures
        events.len() > 0 ==> store_contains(store_add_all(s, pid, events), pid),
        store_buf(store_add_all(s, pid, events), pid) == buf_insert_all(
            store_buf(s, pid),
            events,
        ),
        forall|q: i32|
            q != pid ==> store_contains(store_add_all(s, pid, events), q) == store_contains(s, q),
        forall|q: i32| q != pid ==> store_buf(store_add_all(s, pid, events), q) == store_buf(s, q),
    decreases events.len(),
{
    if events.len() == 0 {
    } else {
        lemma_store_add_all_frame(s, pid, events.drop_last());
        lemma_store_add_all_sorted(s, pid, events.drop_last());
        lemma_store_add_frame(store_add_all(s, pid, events.drop_last()), pid, events.last());
    }
}

/// What `store_remove` does, entry by entry: the target pid's entry is gone,
/// every other pid's entry is untouched.
pub proof fn lemma_store_remove_frame(s: StoreView, pid: i32)
    requires
        pids_sorted(s),
    ensures
        !store_contains(store_remove(s, pid), pid),
        forall|q: i32|
            q != pid ==> store_contains(store_remove(s, pid), q) == store_contains(s, q),
        forall|q: i32| q != pid ==> store_buf(store_remove(s, pid), q) == store_buf(s, q),
        pids_sorted(store_remove(s, pid)),
        store_remove(s, pid).len() >= s.len() - 1,
        forall|k: int|
            0 <= k < store_remove(s, pid).len() ==> exists|m: int|
                0 <= m < s.len() && s[m] == #[trigger] store_remove(s, pid)[k],
    decreases s.len(),
{
    let out = store_remove(s, pid);
    if s.len() == 0 {
    } else if s[0].0 == pid {
        assert(out =~= s.drop_first());
        assert(s =~= seq![s[0]] + s.drop_first());
        lemma_store_cons(s, s[0], s.drop_first());
        assert(forall|i: int, j: int| 0 <= i < j < out.len() ==> out[i].0 < out[j].0);
        assert forall|i: int| 0 <= i < out.len() implies out[i].0 != pid by {
            assert(s[0].0 < s[i + 1].0);
        }
        lemma_store_buf_absent(out, pid);
        assert forall|k: int|
            0 <= k < out.len() implies exists|m: int|
                0 <= m < s.len() && s[m] == #[trigger] out[k] by {
            assert(s[k + 1] == out[k]);
        }
    } else {
        let rest = s.drop_first();
        assert(forall|i: int, j: int| 0 <= i < j < rest.len() ==> rest[i].0 < rest[j].0);
        lemma_store_remove_frame(rest, pid);
        assert(out == seq![s[0]] + store_remove(rest, pid));
        assert(s =~= seq![s[0]] + rest);
        lemma_store_cons(out, s[0], store_remove(rest, pid));
        lemma_store_cons(s, s[0], rest);
        let orest = store_remove(rest, pid);
        assert forall|k: int|
            0 <= k < out.len() implies exists|m: int|
                0 <= m < s.len() && s[m] == #[trigger] out[k] by {
            if k == 0 {
                assert(s[0] == out[0]);
            } else {
                assert(out[k] == orest[k - 1]);
                let m = choose|m: int| 0 <= m < rest.len() && rest[m] == orest[k - 1];
                assert(s[m + 1] == out[k]);
            }
        }
        assert forall|i: int, j: int|
            0 <= i < j < out.len() implies out[i].0 < out[j].0 by {
            if i == 0 {
                assert(out[j] == orest[j - 1]);
                let m = choose|m: int| 0 <= m < rest.len() && rest[m] == orest[j - 1];
                assert(s[0].0 < rest[m].0);
            } else {
                assert(out[i] == orest[i - 1]);
                assert(out[j] == orest[j - 1]);
            }
        }
        assert(store_contains(out, pid) == store_contains(orest, pid));
    }
}

/// The (pid, records) view of a vector of owned entries.
pub open spec fn pairs_view(es: Seq<(i32, Vec<Event>)>) -> StoreView {
    Seq::new(es.len(), |i: int| (es[i].0, es[i].1@))
}

/// Insertion position for start time `t` among entries whose buffers are all
/// non-empty: every entry before it starts at or below `t`, the entry at it
/// (if any) starts above.
pub proof fn lemma_entry_insert_pos_at(s: StoreView, t: u128, p: int)
    requires
        0 <= p <= s.len(),
        forall|i: int| 0 <= i < p ==> s[i].1.len() > 0 && s[i].1[0].timestamp() <= t,
        p < s.len() ==> s[p].1.len() == 0 || s[p].1[0].timestamp() > t,
    ensures
        entry_insert_pos(s, t) == p,
    decreases p,
{
    if p == 0 {
    } else {
        assert(s[0].1.len() > 0 && s[0].1[0].timestamp() <= t);
        assert(forall|i: int| 0 <= i < p - 1 ==> s.drop_first()[i] == s[i + 1]);
        lemma_entry_insert_pos_at(s.drop_first(), t, p - 1);
    }
}

/// Where the scan for `pid` stops in a pid-sorted ledger: the entry is there,
/// or nowhere.
pub proof fn lemma_store_find(s: StoreView, pid: i32, k: int)
    requires
        pids_sorted(s),
        0 <= k <= s.len(),
        forall|j: int| 0 <= j < k ==> s[j].0 < pid,
        k < s.len() ==> s[k].0 >= pid,
    ensures
        k < s.len() && s[k].0 == pid ==> store_contains(s, pid) && store_buf(s, pid) == s[k].1
            && store_remove(s, pid) == s.remove(k),
        !(k < s.len() && s[k].0 == pid) ==> !store_contains(s, pid) && store_remove(s, pid) == s,
    decreases k,
{
    if k == 0 {
        if s.len() == 0 {
        } else if s[0].0 == pid {
            assert(store_remove(s, pid) =~= s.remove(0));
        } else {
            assert(s[0].0 > pid);
            assert forall|i: int| 0 <= i < s.len() implies s[i].0 != pid by {
                if i > 0 {
                    assert(s[0].0 < s[i].0);
                }
            }
            lemma_store_remove_absent(s, pid);
        }
    } else {
        let rest = s.drop_first();
        assert(forall|j: int| 0 <= j < k - 1 ==> rest[j] == s[j + 1]);
        assert(forall|i: int, j: int| 0 <= i < j < rest.len() ==> rest[i].0 < rest[j].0);
        lemma_store_find(rest, pid, k - 1);
        assert(s[0].0 < pid);
        if k < s.len() && s[k].0 == pid {
            assert(rest[k - 1] == s[k]);
            assert(store_buf(s, pid) == store_buf(rest, pid));
            assert(seq![s[0]] + rest.remove(k - 1) =~= s.remove(k));
        } else {
            assert(seq![s[0]] + rest =~= s);
        }
    }
}

/// Removing a pid with no entry changes nothing.
proof fn lemma_store_remove_absent(s: StoreView, pid: i32)
    requires
        forall|i: int| 0 <= i < s.len() ==> s[i].0 != pid,
    ensures
        store_remove(s, pid) == s,
        !store_contains(s, pid),
    decreases s.len(),
{
    if s.len() == 0 {
        assert(store_remove(s, pid) =~= s);
    } else {
        let rest = s.drop_first();
        assert(forall|i: int| 0 <= i < rest.len() ==> rest[i] == s[i + 1]);
        lemma_store_remove_absent(rest, pid);
        assert(seq![s[0]] + rest =~= s);
    }
}

/// Inserts a record into a buffer at its timestamp's position: after every
/// record whose timestamp is at most the new record's.
fn insert_by_timestamp(buf: &mut Vec<Event>, event: Event)
    ensures
        final(buf)@ == buf_insert(old(buf)@, event),
{
    let ghost buf0 = buf@;
    let t = event.timestamp();
    let mut p: usize = 0;
    while p < buf.len() && buf[p].timestamp() <= t
        invariant
            buf@ == buf0,
            p <= buf0.len(),
            forall|i: int| 0 <= i < p ==> buf0[i].timestamp() <= t,
        decreases buf.len() - p,
    {
        p = p + 1;
    }
    proof {
        lemma_insert_pos_at(buf0, t, p as int);
    }
    buf.insert(p, event);
    proof {
        assert(buf@ =~= buf_insert(buf0, event));
    }
}

/// Whether a pid occurs in a vector of pids.
pub(crate) fn vec_contains(v: &Vec<i32>, x: i32) -> (r: bool)
    ensures
        r == v@.contains(x),
{
    let mut i: usize = 0;
    while i < v.len()
        invariant
            i <= v@.len(),
            forall|j: int| 0 <= j < i ==> v@[j] != x,
        decreases v.len() - i,
    {
        if v[i] == x {
            return true;
        }
        i = i + 1;
    }
    false
}

/// The start time a pid is ordered by when a traversal compares siblings:
/// its entry's first timestamp, or zero when it has none.
pub open spec fn spec_start_or_zero(s: StoreView, pid: i32) -> u128 {
    match store_start_time(s, pid) {
        Some(t) => t,
        None => 0u128,
    }
}

/// The index at which a child with start time `t` is inserted among already
/// ordered children: after every child whose start is at most `t`.
pub open spec fn child_pos(s: StoreView, cs: Seq<i32>, t: u128) -> int
    decreases cs.len(),
{
    if cs.len() == 0 {
        0
    } else if spec_start_or_zero(s, cs[0]) > t {
        0
    } else {
        1 + child_pos(s, cs.drop_first(), t)
    }
}

/// `cs` with the child `pid` inserted at its start time's position.
pub open spec fn child_insert(s: StoreView, cs: Seq<i32>, pid: i32) -> Seq<i32> {
    let p = child_pos(s, cs, spec_start_or_zero(s, pid));
    cs.take(p) + seq![pid] + cs.skip(p)
}

/// The children found among the first `k` entries of the ledger, each
/// inserted at its start time's place as it is met (entries are met in
/// ascending pid order, so equal starts tie in ascending pid order).
pub open spec fn children_upto(s: StoreView, parent: i32, k: int) -> Seq<i32>
    decreases k,
{
    if k <= 0 {
        Seq::empty()
    } else {
        let prev = children_upto(s, parent, k - 1);
        if store_parent(s, s[k - 1].0) == Some(parent) {
            child_insert(s, prev, s[k - 1].0)
        } else {
            prev
        }
    }
}

/// The children of `parent` — the pids whose entry's front record is a
/// `Fork` naming it — in ascending order of their own start timestamp (equal
/// starts in ascending pid order).
pub open spec fn spec_children(s: StoreView, parent: i32) -> Seq<i32> {
    children_upto(s, parent, s.len() as int)
}

/// What keeps the depth-first recursion well-founded: how many entries have
/// no place in `visited` yet.
pub open spec fn unvisited(s: StoreView, visited: Seq<i32>) -> nat {
    if s.len() >= visited.len() {
        (s.len() - visited.len()) as nat
    } else {
        0
    }
}

/// The pids a depth-first visit of `p` appends after `p` itself: for each of
/// `p`'s children not already listed, the child followed by its whole
/// subtree, children taken in their start-time order.
pub open spec fn dfs_subtree(s: StoreView, p: i32, visited: Seq<i32>) -> Seq<i32>
    decreases unvisited(s, visited), 1int, 0int,
{
    dfs_expand(s, spec_children(s, p), visited)
}

/// The depth-first expansion of a pending child list `cs` against the pids
/// already listed in `visited`.
pub open spec fn dfs_expand(s: StoreView, cs: Seq<i32>, visited: Seq<i32>) -> Seq<i32>
    decreases unvisited(s, visited), 0int, cs.len(),
{
    if cs.len() == 0 {
        Seq::empty()
    } else {
        let c = cs[0];
        if visited.contains(c) || visited.len() >= s.len() {
            dfs_expand(s, cs.drop_first(), visited)
        } else {
            let sub = dfs_subtree(s, c, visited.push(c));
            seq![c] + sub + dfs_expand(s, cs.drop_first(), visited + seq![c] + sub)
        }
    }
}

/// The depth-first pre-order of the fork tree rooted at `root`: the root,
/// then recursively each child's subtree, children in ascending order of
/// their own start timestamp.
pub open spec fn dfs_order(s: StoreView, root: i32) -> Seq<i32> {
    seq![root] + dfs_subtree(s, root, seq![root])
}

/// Insertion position for a child with start time `t` among ordered
/// children: every child before it starts at or below `t`, the child at it
/// (if any) starts above.
proof fn lemma_child_pos_at(s: StoreView, cs: Seq<i32>, t: u128, p: int)
    requires
        0 <= p <= cs.len(),
        forall|i: int| 0 <= i < p ==> spec_start_or_zero(s, cs[i]) <= t,
        p < cs.len() ==> spec_start_or_zero(s, cs[p]) > t,
    ensures
        child_pos(s, cs, t) == p,
    decreases p,
{
    if p == 0 {
    } else {
        assert(spec_start_or_zero(s, cs[0]) <= t);
        assert(forall|i: int| 0 <= i < p - 1 ==> cs.drop_first()[i] == cs[i + 1]);
        lemma_child_pos_at(s, cs.drop_first(), t, p - 1);
    }
}

/// The ledger's error: a depth-first traversal was asked to start at a pid
/// that has no entry.
#[derive(Debug, Clone, PartialEq, Eq)]
pub enum StoreError {
    UntrackedRoot { pid: i32 },
}

/// The entry at index `m` of a pid-sorted ledger is what lookups at its pid
/// find.
pub proof fn lemma_store_entry(s: StoreView, m: int)
    requires
        pids_sorted(s),
        0 <= m < s.len(),
    ensures
        store_contains(s, s[m].0),
        store_buf(s, s[m].0) == s[m].1,
{
    lemma_store_find(s, s[m].0, m);
}

/// The per-process event ledger.
///
/// Entries are kept in ascending pid order, one per pid, and each entry's
/// records in ascending timestamp order; a record with a timestamp already
/// present goes after the records that share it.
pub struct EventStore {
    entries: Vec<(i32, Vec<Event>)>,
}

impl View for EventStore {
    type V = StoreView;

    closed spec fn view(&self) -> StoreView {
        Seq::new(self.entries@.len(), |i: int| (self.entries@[i].0, self.entries@[i].1@))
    }
}

/// A well-formed ledger view: one entry per pid, entries in ascending pid
/// order, each buffer sorted by timestamp.
pub open spec fn store_wf(s: StoreView) -> bool {
    pids_sorted(s) && forall|k: int| 0 <= k < s.len() ==> buf_sorted(#[trigger] s[k].1)
}

/// Every entry holds at least one record.
pub open spec fn bufs_nonempty(s: StoreView) -> bool {
    forall|q: i32| #[trigger] store_contains(s, q) ==> store_buf(s, q).len() > 0
}

/// Every entry holds only records whose subject is the entry's own pid.
pub open spec fn subjects_match(s: StoreView) -> bool {
    forall|q: i32, i: int|
        store_contains(s, q) && 0 <= i < store_buf(s, q).len() ==> (#[trigger] store_buf(
            s,
            q,
        )[i]).pid() == q
}

/// Filing a record under its own subject pid keeps every entry's records
/// matching its pid.
pub proof fn lemma_store_add_subjects(s: StoreView, e: Event)
    requires
        pids_sorted(s),
        subjects_match(s),
    ensures
        subjects_match(store_add(s, e.pid(), e)),
{
    let pid = e.pid();
    let out = store_add(s, pid, e);
    lemma_store_add_frame(s, pid, e);
    lemma_insert_pos_props(store_buf(s, pid), e.timestamp());
    if !store_contains(s, pid) {
        assert forall|i: int| 0 <= i < s.len() implies s[i].0 != pid by {
            if s[i].0 == pid {
                assert(store_contains(s, pid));
            }
        }
        lemma_store_buf_absent(s, pid);
    }
    assert forall|q: i32, i: int|
        store_contains(out, q) && 0 <= i < store_buf(out, q).len() implies (#[trigger] store_buf(
        out,
        q,
    )[i]).pid() == q by {
        if q == pid {
            let buf = store_buf(s, pid);
            let p = insert_pos(buf, e.timestamp());
            assert(store_buf(out, pid) == buf.take(p) + seq![e] + buf.skip(p));
            if i < p {
                assert(store_buf(out, q)[i] == buf[i]);
                assert(store_contains(s, pid));
            } else if i == p {
                assert(store_buf(out, q)[i] == e);
            } else {
                assert(store_buf(out, q)[i] == buf[i - 1]);
                assert(store_contains(s, pid));
            }
        } else {
            assert(store_contains(s, q));
            assert(store_buf(out, q) == store_buf(s, q));
        }
    }
}

impl EventStore {
    /// The ledger's structural invariant; see [`store_wf`].
    pub open spec fn wf(&self) -> bool {
        store_wf(self@)
    }

    /// Creates an empty ledger.
    pub fn new() -> (r: EventStore)
        ensures
            r.wf(),
            r@ == Seq::<(i32, Seq<Event>)>::empty(),
    {
        let r = EventStore { entries: Vec::new() };
        proof {
            assert(r@ =~= Seq::<(i32, Seq<Event>)>::empty());
        }
        r
    }

    /// Files one record under `pid`, at its timestamp's place in that pid's
    /// sequence; records with equal timestamps keep insertion order.
    pub fn add(&mut self, pid: i32, event: Event)
        requires
            old(self).wf(),
        ensures
            final(self).wf(),
            final(self)@ == store_add(old(self)@, pid, event),
    {
        let ghost s0 = self@;
        let mut k: usize = 0;
        while k < self.entries.len() && self.entries[k].0 < pid
            invariant
                self@ == s0,
                k <= s0.len(),
                forall|j: int| 0 <= j < k ==> s0[j].0 < pid,
            decreases self.entries.len() - k,
        {
            k = k + 1;
        }
        proof {
            lemma_store_add_at(s0, pid, event, k as int);
        }
        if k < self.entries.len() && self.entries[k].0 == pid {
            let mut entry = self.entries.remove(k);
            insert_by_timestamp(&mut entry.1, event);
            self.entries.insert(k, entry);
            proof {
                assert(self@ =~= s0.update(k as int, (pid, buf_insert(s0[k as int].1, event))));
                lemma_buf_insert_sorted(s0[k as int].1, event);
            }
        } else {
            let mut buf: Vec<Event> = Vec::new();
            buf.push(event);
            self.entries.insert(k, (pid, buf));
            proof {
                assert(self@ =~= s0.take(k as int) + seq![(pid, seq![event])] + s0.skip(k as int));
            }
        }
    }

    /// Files several records under one pid, in the order given; the resulting
    /// sequence is timestamp-sorted whatever order the records arrive in.
    pub fn add_many(&mut self, pid: i32, events: Vec<Event>)
        requires
            old(self).wf(),
        ensures
            final(self).wf(),
            final(self)@ == store_add_all(old(self)@, pid, events@),
    {
        let ghost s0 = self@;
        let ghost evs = events@;
        let ghost total = evs.len() as int;
        let n = events.len();
        proof {
            assert(total == n as int);
        }
        let mut events = events;
        let mut i: usize = 0;
        proof {
            assert(evs.subrange(0, total) =~= evs);
        }
        while events.len() > 0
            invariant
                self.wf(),
                total == evs.len(),
                total <= usize::MAX,
                i + events@.len() == total,
                events@ == evs.subrange(i as int, total),
                self@ == store_add_all(s0, pid, evs.take(i as int)),
            decreases events.len(),
        {
            proof {
                assert(events@[0] == evs[i as int]);
            }
            let e = events.remove(0);
            proof {
                assert(events@ =~= evs.subrange(i + 1, total));
                assert(evs.take(i + 1).drop_last() =~= evs.take(i as int));
                assert(evs.take(i + 1).last() == evs[i as int]);
            }
            self.add(pid, e);
            i = i + 1;
        }
        proof {
            assert(evs.take(total) =~= evs);
        }
    }

    /// The index where a scan in pid order stops for `pid`: at its entry if
    /// one exists, else at its would-be place.
    fn scan_to(&self, pid: i32) -> (k: usize)
        ensures
            k <= self@.len(),
            forall|j: int| 0 <= j < k ==> self@[j].0 < pid,
            (k as int) < self@.len() ==> self@[k as int].0 >= pid,
    {
        let mut k: usize = 0;
        while k < self.entries.len() && self.entries[k].0 < pid
            invariant
                k <= self@.len(),
                forall|j: int| 0 <= j < k ==> self@[j].0 < pid,
            decreases self.entries.len() - k,
        {
            k = k + 1;
        }
        k
    }

    /// Detaches and returns `pid`'s full record sequence; `None` (and no
    /// change) if the pid has no entry.
    pub fn remove(&mut self, pid: i32) -> (r: Option<Vec<Event>>)
        requires
            old(self).wf(),
        ensures
            final(self).wf(),
            final(self)@ == store_remove(old(self)@, pid),
            store_contains(old(self)@, pid) ==> (r matches Some(buf) && buf@ == store_buf(
                old(self)@,
                pid,
            )),
            !store_contains(old(self)@, pid) ==> r is None && final(self)@ == old(self)@,
    {
        let ghost s0 = self@;
        let k = self.scan_to(pid);
        proof {
            lemma_store_find(s0, pid, k as int);
        }
        if k < self.entries.len() && self.entries[k].0 == pid {
            let entry = self.entries.remove(k);
            proof {
                assert(self@ =~= s0.remove(k as int));
                assert forall|i: int, j: int|
                    0 <= i < j < self@.len() implies self@[i].0 < self@[j].0 by {
                    if j < k {
                    } else if i < k {
                        assert(self@[j] == s0[j + 1]);
                    } else {
                        assert(self@[i] == s0[i + 1]);
                        assert(self@[j] == s0[j + 1]);
                    }
                }
            }
            Some(entry.1)
        } else {
            None
        }
    }

    /// Pre-creates an empty entry for `pid`; for use only on a fresh ledger,
    /// when the embedding caller knows the root pid independent of telemetry.
    pub fn register_root(&mut self, pid: i32)
        requires
            old(self)@.len() == 0,
        ensures
            final(self).wf(),
            final(self)@ == seq![(pid, Seq::<Event>::empty())],
    {
        self.entries.push((pid, Vec::new()));
        proof {
            assert(self@ =~= seq![(pid, Seq::<Event>::empty())]);
        }
    }

    /// Whether `pid` has an entry in this ledger.
    pub fn pid_is_tracked(&self, pid: i32) -> (r: bool)
        requires
            self.wf(),
        ensures
            r == store_contains(self@, pid),
    {
        let k = self.scan_to(pid);
        proof {
            lemma_store_find(self@, pid, k as int);
        }
        k < self.entries.len() && self.entries[k].0 == pid
    }

    /// Whether no pid has an entry.
    pub fn is_empty(&self) -> (r: bool)
        ensures
            r == (self@.len() == 0),
    {
        self.entries.len() == 0
    }

    /// A snapshot of the tracked pids, in ascending order.
    pub fn currently_tracked(&self) -> (r: Vec<i32>)
        ensures
            r@ == store_pids(self@),
    {
        let mut out: Vec<i32> = Vec::new();
        let mut k: usize = 0;
        while k < self.entries.len()
            invariant
                k <= self@.len(),
                out@ =~= store_pids(self@).take(k as int),
            decreases self.entries.len() - k,
        {
            out.push(self.entries[k].0);
            proof {
                assert(out@ =~= store_pids(self@).take(k + 1));
            }
            k = k + 1;
        }
        proof {
            assert(store_pids(self@).take(self@.len() as int) =~= store_pids(self@));
        }
        out
    }

    /// The pid this process was forked from, if its entry's front record is a
    /// `Fork`; `None` otherwise — notably for the traced root, whose own fork
    /// is usually not visible.
    pub fn parent(&self, child_pid: i32) -> (r: Option<i32>)
        requires
            self.wf(),
        ensures
            r == store_parent(self@, child_pid),
    {
        let k = self.scan_to(child_pid);
        proof {
            lemma_store_find(self@, child_pid, k as int);
        }
        if k < self.entries.len() && self.entries[k].0 == child_pid {
            if self.entries[k].1.len() > 0 {
                self.entries[k].1[0].fork_parent()
            } else {
                None
            }
        } else {
            None
        }
    }

    /// The timestamp of the earliest record tracked for `pid`.
    pub fn pid_start_time(&self, pid: i32) -> (r: Option<u128>)
        requires
            self.wf(),
        ensures
            r == store_start_time(self@, pid),
    {
        let k = self.scan_to(pid);
        proof {
            lemma_store_find(self@, pid, k as int);
        }
        if k < self.entries.len() && self.entries[k].0 == pid {
            if self.entries[k].1.len() > 0 {
                Some(self.entries[k].1[0].timestamp())
            } else {
                None
            }
        } else {
            None
        }
    }

    /// The pids whose processes have not finished: their entry is empty or
    /// its last record is not an `Exit`. An empty ledger reports none, so a
    /// caller must pair this with a non-emptiness check to tell "nothing
    /// started" from "everything finished".
    pub fn unfinished_pids(&self) -> (r: Vec<i32>)
        ensures
            r@ == store_unfinished(self@),
    {
        let mut out: Vec<i32> = Vec::new();
        let mut k: usize = 0;
        while k < self.entries.len()
            invariant
                k <= self@.len(),
                out@ == store_unfinished(self@.take(k as int)),
            decreases self.entries.len() - k,
        {
            proof {
                assert(self@.take(k + 1).drop_last() =~= self@.take(k as int));
                assert(self@.take(k + 1).last() == self@[k as int]);
            }
            let buf = &self.entries[k].1;
            if buf.len() == 0 {
                out.push(self.entries[k].0);
            } else if !buf[buf.len() - 1].is_exit() {
                out.push(self.entries[k].0);
            }
            k = k + 1;
        }
        proof {
            assert(self@.take(self@.len() as int) =~= self@);
        }
        out
    }

    /// Consumes the ledger and returns every record, sorted by timestamp
    /// alone. Records with equal timestamps keep the order they have in the
    /// flattening of the entries in ascending pid order — the fixed,
    /// documented tie-break that keeps this ordering reproducible.
    pub fn events_ordered(self) -> (r: Vec<Event>)
        ensures
            r@ == buf_insert_all(Seq::empty(), store_flatten(self@)),
            buf_sorted(r@),
            r@.to_multiset() == store_flatten(self@).to_multiset(),
    {
        proof {
            lemma_buf_insert_all_sorted(Seq::empty(), store_flatten(self@));
            lemma_buf_insert_all_multiset(Seq::empty(), store_flatten(self@));
            broadcast use vstd::seq_lib::group_to_multiset_ensures;

            assert(Seq::<Event>::empty().to_multiset() =~= Multiset::<Event>::empty());
            assert(buf_insert_all(Seq::empty(), store_flatten(self@)).to_multiset()
                =~= store_flatten(self@).to_multiset());
        }
        let ghost s0 = self@;
        let ghost n = s0.len() as int;
        let mut out: Vec<Event> = Vec::new();
        let mut entries = self.entries;
        let nn = entries.len();
        let mut k: usize = 0;
        proof {
            assert(n == nn as int);
            assert(store_flatten(s0.take(0)) =~= Seq::<Event>::empty());
        }
        while entries.len() > 0
            invariant
                n == s0.len(),
                n <= usize::MAX,
                k + entries@.len() == n,
                forall|m: int| 0 <= m < entries@.len() ==> (
                entries@[m].0,
                entries@[m].1@,
                ) == s0[m + k],
                out@ == buf_insert_all(Seq::empty(), store_flatten(s0.take(k as int))),
            decreases entries.len(),
        {
            let ghost flat_k = store_flatten(s0.take(k as int));
            let ghost buf = s0[k as int].1;
            let ghost pre = entries@;
            let entry = entries.remove(0);
            proof {
                assert(entry.1@ == buf);
                assert forall|m: int| 0 <= m < entries@.len() implies (
                entries@[m].0,
                entries@[m].1@,
                ) == s0[m + (k + 1)] by {
                    assert(entries@[m] == pre[m + 1]);
                }
            }
            let mut events = entry.1;
            let ghost total = buf.len() as int;
            let mlen = events.len();
            let mut j: usize = 0;
            proof {
                assert(total == mlen as int);
                assert(events@.subrange(0, total) =~= buf);
                assert(flat_k + buf.take(0) =~= flat_k);
            }
            while events.len() > 0
                invariant
                    total == buf.len(),
                    total <= usize::MAX,
                    j + events@.len() == total,
                    events@ == buf.subrange(j as int, total),
                    out@ == buf_insert_all(Seq::empty(), flat_k + buf.take(j as int)),
                decreases events.len(),
            {
                proof {
                    assert(events@[0] == buf[j as int]);
                }
                let e = events.remove(0);
                proof {
                    assert(events@ =~= buf.subrange(j + 1, total));
                    assert((flat_k + buf.take(j + 1)).drop_last() =~= flat_k + buf.take(j as int));
                    assert((flat_k + buf.take(j + 1)).last() == buf[j as int]);
                }
                insert_by_timestamp(&mut out, e);
                j = j + 1;
            }
            proof {
                assert(buf.take(total) =~= buf);
                assert(s0.take(k + 1).drop_last() =~= s0.take(k as int));
                assert(s0.take(k + 1).last() == s0[k as int]);
                assert(store_flatten(s0.take(k + 1)) == flat_k + buf);
            }
            k = k + 1;
        }
        proof {
            assert(s0.take(n) =~= s0);
        }
        out
    }

    /// Consumes the ledger and returns the (pid, records) pairs of the
    /// non-empty entries, ordered by each entry's first timestamp; entries
    /// whose first timestamps are equal stay in ascending pid order.
    pub fn pid_buffers_ordered(self) -> (r: Vec<(i32, Vec<Event>)>)
        ensures
            pairs_view(r@) == entries_insert_all(Seq::empty(), nonempty_entries(self@)),
    {
        let ghost s0 = self@;
        let ghost n = s0.len() as int;
        let mut entries = self.entries;
        let nn = entries.len();
        let mut out: Vec<(i32, Vec<Event>)> = Vec::new();
        let mut k: usize = 0;
        proof {
            assert(n == nn as int);
            assert(nonempty_entries(s0.take(0)) =~= Seq::<(i32, Seq<Event>)>::empty());
            assert(pairs_view(out@) =~= Seq::<(i32, Seq<Event>)>::empty());
        }
        while entries.len() > 0
            invariant
                n == s0.len(),
                n <= usize::MAX,
                k + entries@.len() == n,
                forall|m: int| 0 <= m < entries@.len() ==> (
                entries@[m].0,
                entries@[m].1@,
                ) == s0[m + k],
                pairs_view(out@) == entries_insert_all(
                    Seq::empty(),
                    nonempty_entries(s0.take(k as int)),
                ),
                forall|m: int| 0 <= m < out@.len() ==> out@[m].1@.len() > 0,
            decreases entries.len(),
        {
            let ghost pre = entries@;
            let entry = entries.remove(0);
            proof {
                assert((entry.0, entry.1@) == s0[k as int]);
                assert forall|m: int| 0 <= m < entries@.len() implies (
                entries@[m].0,
                entries@[m].1@,
                ) == s0[m + (k + 1)] by {
                    assert(entries@[m] == pre[m + 1]);
                }
                assert(s0.take(k + 1).drop_last() =~= s0.take(k as int));
                assert(s0.take(k + 1).last() == s0[k as int]);
            }
            if entry.1.len() > 0 {
                let t = entry.1[0].timestamp();
                let ghost out0 = out@;
                let mut p: usize = 0;
                while p < out.len() && out[p].1[0].timestamp() <= t
                    invariant
                        out@ == out0,
                        p <= out0.len(),
                        forall|m: int| 0 <= m < out0.len() ==> out0[m].1@.len() > 0,
                        forall|i: int| 0 <= i < p ==> out0[i].1@[0].timestamp() <= t,
                    decreases out.len() - p,
                {
                    p = p + 1;
                }
                proof {
                    assert forall|i: int|
                        0 <= i < p implies pairs_view(out0)[i].1.len() > 0 && pairs_view(
                        out0,
                    )[i].1[0].timestamp() <= t by {}
                    lemma_entry_insert_pos_at(pairs_view(out0), t, p as int);
                }
                out.insert(p, entry);
                proof {
                    assert(pairs_view(out@) =~= entries_insert(
                        pairs_view(out0),
                        (entry.0, entry.1@),
                    ));
                    assert(nonempty_entries(s0.take(k + 1)) == nonempty_entries(
                        s0.take(k as int),
                    ).push(s0[k as int]));
                    assert(nonempty_entries(s0.take(k + 1)).drop_last() =~= nonempty_entries(
                        s0.take(k as int),
                    ));
                }
            } else {
                proof {
                    assert(nonempty_entries(s0.take(k + 1)) == nonempty_entries(s0.take(k as int)));
                }
            }
            k = k + 1;
        }
        proof {
            assert(s0.take(n) =~= s0);
        }
        out
    }

    /// The timestamp of a pid's earliest record (zero without one).
    fn start_or_zero(&self, pid: i32) -> (t: u128)
        requires
            self.wf(),
        ensures
            t == (match store_start_time(self@, pid) {
                Some(x) => x,
                None => 0u128,
            }),
    {
        match self.pid_start_time(pid) {
            Some(t) => t,
            None => 0,
        }
    }

    /// The pids whose entry's front record is a `Fork` naming `parent_pid`,
    /// in ascending order of their own start timestamp (equal starts in
    /// ascending pid order).
    fn direct_children_sorted(&self, parent_pid: i32) -> (r: Vec<i32>)
        requires
            self.wf(),
        ensures
            r@ == spec_children(self@, parent_pid),
            r@.no_duplicates(),
            forall|j: int|
                0 <= j < r@.len() ==> store_contains(self@, #[trigger] r@[j]) && store_parent(
                    self@,
                    r@[j],
                ) == Some(parent_pid),
            forall|q: i32|
                store_contains(self@, q) && store_parent(self@, q) == Some(parent_pid)
                    ==> r@.contains(q),
    {
        let ghost s = self@;
        let n = self.entries.len();
        let mut r: Vec<i32> = Vec::new();
        let mut k: usize = 0;
        while k < n
            invariant
                self.wf(),
                s == self@,
                n == s.len(),
                k <= n,
                r@ == children_upto(s, parent_pid, k as int),
                r@.no_duplicates(),
                forall|j: int|
                    0 <= j < r@.len() ==> store_contains(s, #[trigger] r@[j]) && store_parent(
                        s,
                        r@[j],
                    ) == Some(parent_pid),
                forall|m: int|
                    0 <= m < k && store_parent(s, (#[trigger] s[m]).0) == Some(parent_pid)
                        ==> r@.contains(s[m].0),
                forall|x: i32| #[trigger] r@.contains(x) ==> exists|m: int| 0 <= m < k && s[m].0 == x,
            decreases n - k,
        {
            proof {
                lemma_store_entry(s, k as int);
            }
            let is_child = match self.parent(self.entries[k].0) {
                Some(par) => par == parent_pid,
                None => false,
            };
            proof {
                assert(is_child == (store_parent(s, s[k as int].0) == Some(parent_pid)));
            }
            if is_child {
                let pid = self.entries[k].0;
                proof {
                    if r@.contains(pid) {
                        let m = choose|m: int| 0 <= m < k && s[m].0 == pid;
                        assert(s[m].0 < s[k as int].0);
                        assert(false);
                    }
                }
                let t = self.start_or_zero(pid);
                let ghost r0 = r@;
                let mut p: usize = 0;
                while p < r.len() && self.start_or_zero(r[p]) <= t
                    invariant
                        self.wf(),
                        s == self@,
                        r@ == r0,
                        p <= r0.len(),
                        t == spec_start_or_zero(s, pid),
                        forall|i: int| 0 <= i < p ==> spec_start_or_zero(s, r0[i]) <= t,
                    decreases r.len() - p,
                {
                    p = p + 1;
                }
                proof {
                    lemma_child_pos_at(s, r0, t, p as int);
                }
                r.insert(p, pid);
                proof {
                    let rnew = r@;
                    assert(rnew =~= r0.take(p as int) + seq![pid] + r0.skip(p as int));
                    assert(rnew =~= child_insert(s, r0, pid));
                    assert(rnew == children_upto(s, parent_pid, k + 1));
                    assert forall|j1: int, j2: int|
                        0 <= j1 < j2 < rnew.len() implies rnew[j1] != rnew[j2] by {
                        if j1 < p {
                            assert(rnew[j1] == r0[j1]);
                        } else if j1 == p {
                            assert(rnew[j1] == pid);
                        } else {
                            assert(rnew[j1] == r0[j1 - 1]);
                        }
                        if j2 < p {
                            assert(rnew[j2] == r0[j2]);
                        } else if j2 == p {
                            assert(rnew[j2] == pid);
                        } else {
                            assert(rnew[j2] == r0[j2 - 1]);
                        }
                        if rnew[j1] == pid || rnew[j2] == pid {
                            if rnew[j1] == rnew[j2] {
                                assert(r0.contains(pid));
                            }
                        }
                    }
                    assert forall|x: i32| #[trigger] rnew.contains(x) implies exists|m: int|
                        0 <= m < k + 1 && s[m].0 == x by {
                        let j = choose|j: int| 0 <= j < rnew.len() && rnew[j] == x;
                        if j == p {
                            assert(s[k as int].0 == x);
                        } else if j < p {
                            assert(r0.contains(r0[j]));
                        } else {
                            assert(r0.contains(r0[j - 1]));
                        }
                    }
                    assert forall|m: int|
                        0 <= m < k + 1 && store_parent(s, (#[trigger] s[m]).0) == Some(parent_pid)
                        implies rnew.contains(s[m].0) by {
                        if m < k {
                            assert(r0.contains(s[m].0));
                            let j = choose|j: int| 0 <= j < r0.len() && r0[j] == s[m].0;
                            if j < p {
                                assert(rnew[j] == s[m].0);
                            } else {
                                assert(rnew[j + 1] == s[m].0);
                            }
                        } else {
                            assert(rnew[p as int] == pid);
                        }
                    }
                }
            } else {
                proof {
                    assert(r@ == children_upto(s, parent_pid, k + 1));
                    assert forall|m: int|
                        0 <= m < k + 1 && store_parent(s, (#[trigger] s[m]).0) == Some(parent_pid)
                        implies r@.contains(s[m].0) by {}
                }
            }
            k = k + 1;
        }
        proof {
            assert forall|q: i32|
                store_contains(s, q) && store_parent(s, q) == Some(parent_pid) implies r@.contains(
                q,
            ) by {
                let m = choose|m: int| 0 <= m < s.len() && s[m].0 == q;
            }
        }
        r
    }

    /// Appends to `order`, in depth-first pre-order, every process reachable
    /// from `parent_pid` by fork links and not yet listed; a pid's children
    /// are visited in ascending order of their own start timestamp. The
    /// appended pids are exactly [`dfs_subtree`] of `parent_pid` against the
    /// pids already listed.
    fn find_child_pids(&self, parent_pid: i32, order: &mut Vec<i32>)
        requires
            self.wf(),
            old(order)@.no_duplicates(),
            forall|j: int| 0 <= j < old(order)@.len() ==> store_contains(self@, #[trigger] old(order)@[j]),
            old(order)@.contains(parent_pid),
            old(order)@.len() <= self@.len(),
        ensures
            final(order)@ == old(order)@ + dfs_subtree(self@, parent_pid, old(order)@),
            final(order)@.len() >= old(order)@.len(),
            final(order)@.take(old(order)@.len() as int) == old(order)@,
            final(order)@.no_duplicates(),
            forall|j: int|
                0 <= j < final(order)@.len() ==> store_contains(self@, #[trigger] final(order)@[j]),
            // every newly listed pid's fork parent is listed before it
            forall|j: int|
                old(order)@.len() <= j < final(order)@.len() ==> exists|m: int|
                    0 <= m < j && store_parent(self@, #[trigger] final(order)@[j]) == Some(
                        final(order)@[m],
                    ),
            // every child of `parent_pid`, and of each newly listed pid, is listed
            forall|q: i32|
                store_contains(self@, q) && store_parent(self@, q) == Some(parent_pid)
                    ==> final(order)@.contains(q),
            forall|x: i32, q: i32|
                (final(order)@.contains(x) && !old(order)@.contains(x) && store_contains(self@, q)
                    && store_parent(self@, q) == Some(x)) ==> final(order)@.contains(q),
        decreases self@.len() - old(order)@.len(),
    {
        let ghost s = self@;
        let ghost base = order@;
        proof {
            order@.unique_seq_to_set();
            assert(order@.to_set().subset_of(store_pids(s).to_set())) by {
                assert forall|x: i32|
                    order@.to_set().contains(x) implies store_pids(s).to_set().contains(x) by {
                    assert(order@.contains(x));
                    let j = choose|j: int| 0 <= j < order@.len() && order@[j] == x;
                    assert(store_contains(s, x));
                    let m = choose|m: int| 0 <= m < s.len() && s[m].0 == x;
                    assert(store_pids(s)[m] == x);
                    assert(store_pids(s).contains(x));
                }
            }
            vstd::set_lib::lemma_len_subset(order@.to_set(), store_pids(s).to_set());
            store_pids(s).lemma_cardinality_of_set();
        }
        let children = self.direct_children_sorted(parent_pid);
        let ghost cs = children@;
        let nc = children.len();
        let mut i: usize = 0;
        proof {
            assert(cs.skip(0) =~= cs);
        }
        while i < nc
            invariant
                self.wf(),
                s == self@,
                cs == children@,
                cs == spec_children(s, parent_pid),
                nc == cs.len(),
                i <= nc,
                base + dfs_expand(s, cs, base) == order@ + dfs_expand(
                    s,
                    cs.skip(i as int),
                    order@,
                ),
                children@.no_duplicates(),
                forall|j: int|
                    0 <= j < children@.len() ==> store_contains(s, #[trigger] children@[j])
                        && store_parent(s, children@[j]) == Some(parent_pid),
                base == old(order)@,
                base.len() <= s.len(),
                order@.len() >= base.len(),
                order@.take(base.len() as int) == base,
                order@.no_duplicates(),
                forall|j: int| 0 <= j < order@.len() ==> store_contains(s, #[trigger] order@[j]),
                base.contains(parent_pid),
                forall|j: int|
                    base.len() <= j < order@.len() ==> exists|m: int|
                        0 <= m < j && store_parent(s, #[trigger] order@[j]) == Some(order@[m]),
                forall|j: int| 0 <= j < i ==> order@.contains(#[trigger] children@[j]),
                forall|x: i32, q: i32|
                    (order@.contains(x) && !base.contains(x) && store_contains(s, q)
                        && store_parent(s, q) == Some(x)) ==> order@.contains(q),
            decreases nc - i,
        {
            let c = children[i];
            let ghost before = order@;
            proof {
                assert(cs.skip(i as int)[0] == cs[i as int]);
                assert(cs.skip(i as int).drop_first() =~= cs.skip(i + 1));
            }
            if !vec_contains(order, c) {
                order.push(c);
                proof {
                    assert(order@.drop_last() =~= before);
                    assert(order@.take(base.len() as int) =~= before.take(base.len() as int));
                    assert(order@.no_duplicates());
                    // the parent of the pushed child is already listed
                    assert(base.contains(parent_pid));
                    let mp = choose|mp: int| 0 <= mp < base.len() && base[mp] == parent_pid;
                    assert(before.take(base.len() as int)[mp] == parent_pid);
                    assert(order@[mp] == parent_pid);
                    assert forall|j: int|
                        base.len() <= j < order@.len() implies exists|m: int|
                            0 <= m < j && store_parent(s, #[trigger] order@[j]) == Some(
                                order@[m],
                            ) by {
                        if j < before.len() {
                            assert(order@[j] == before[j]);
                            let m = choose|m: int|
                                0 <= m < j && store_parent(s, before[j]) == Some(before[m]);
                            assert(order@[m] == before[m]);
                        } else {
                            assert(order@[j] == c);
                            assert(store_parent(s, c) == Some(parent_pid));
                            assert(store_parent(s, order@[j]) == Some(order@[mp]));
                        }
                    }
                    // termination: the grown list still fits among the pids
                    order@.unique_seq_to_set();
                    assert(order@.to_set().subset_of(store_pids(s).to_set())) by {
                        assert forall|x: i32|
                            order@.to_set().contains(x) implies store_pids(s).to_set().contains(
                            x,
                        ) by {
                            assert(order@.contains(x));
                            let j = choose|j: int| 0 <= j < order@.len() && order@[j] == x;
                            assert(store_contains(s, x));
                            let m = choose|m: int| 0 <= m < s.len() && s[m].0 == x;
                            assert(store_pids(s)[m] == x);
                            assert(store_pids(s).contains(x));
                        }
                    }
                    vstd::set_lib::lemma_len_subset(order@.to_set(), store_pids(s).to_set());
                    store_pids(s).lemma_cardinality_of_set();
                    assert(order@.to_set().len() == order@.len());
                    assert(order@.len() <= store_pids(s).len());
                    assert(order@.len() <= s.len());
                    assert(order@[order@.len() - 1] == c);
                    assert(order@.contains(c));
                    assert(order@.len() > base.len());
                }
                let ghost mid = order@;
                proof {
                    assert(0 <= s.len() - mid.len());
                    assert(s.len() - mid.len() < s.len() - base.len());
                    // the spec takes the visit branch: `c` is fresh and fits
                    assert(before.len() < s.len());
                    assert(mid =~= before + seq![c]);
                    assert(mid == before.push(c));
                }
                self.find_child_pids(c, order);
                proof {
                    let ghost sub = dfs_subtree(s, c, mid);
                    assert(order@ == mid + sub);
                    assert(dfs_expand(s, cs.skip(i as int), before) == seq![c] + sub + dfs_expand(
                        s,
                        cs.skip(i + 1),
                        before + seq![c] + sub,
                    ));
                    assert(before + seq![c] + sub =~= order@);
                    assert(before + (seq![c] + sub + dfs_expand(s, cs.skip(i + 1), order@)) =~= (
                    before + seq![c] + sub) + dfs_expand(s, cs.skip(i + 1), order@));
                    assert(before + dfs_expand(s, cs.skip(i as int), before) =~= order@
                        + dfs_expand(s, cs.skip(i + 1), order@));
                    assert(order@.take(mid.len() as int) == mid);
                    assert forall|j: int|
                        0 <= j < mid.len() implies order@[j] == mid[j] by {
                        assert(order@.take(mid.len() as int)[j] == mid[j]);
                    }
                    assert(order@.take(base.len() as int) =~= base);
                    assert forall|j: int|
                        base.len() <= j < order@.len() implies exists|m: int|
                            0 <= m < j && store_parent(s, #[trigger] order@[j]) == Some(
                                order@[m],
                            ) by {
                        if j < mid.len() {
                            assert(order@[j] == mid[j]);
                            let m = choose|m: int|
                                0 <= m < j && store_parent(s, mid[j]) == Some(mid[m]);
                            assert(order@[m] == mid[m]);
                        }
                    }
                    assert forall|j: int| 0 <= j < i + 1 implies order@.contains(
                        #[trigger] children@[j],
                    ) by {
                        if j < i {
                            assert(before.contains(children@[j]));
                            let m = choose|m: int|
                                0 <= m < before.len() && before[m] == children@[j];
                            assert(mid[m] == children@[j]);
                            assert(order@[m] == children@[j]);
                        } else {
                            assert(mid[mid.len() - 1] == c);
                            assert(order@[mid.len() - 1] == c);
                        }
                    }
                    assert forall|x: i32, q: i32|
                        (order@.contains(x) && !base.contains(x) && store_contains(s, q)
                            && store_parent(s, q) == Some(x)) implies order@.contains(q) by {
                        if mid.contains(x) && !before.contains(x) {
                            // x == c: its children were appended by the recursive call
                            assert(x == c) by {
                                let m = choose|m: int| 0 <= m < mid.len() && mid[m] == x;
                                if m < before.len() {
                                    assert(before[m] == x);
                                    assert(false);
                                }
                            }
                        } else if before.contains(x) {
                            // handled before this iteration; `order` only grew
                            assert(before.contains(q) || base.contains(x)) by {
                                if !base.contains(x) {
                                }
                            }
                            if before.contains(q) {
                                let m = choose|m: int|
                                    0 <= m < before.len() && before[m] == q;
                                assert(mid[m] == q);
                                assert(order@[m] == q);
                            }
                        }
                    }
                }
            } else {
                proof {
                    assert(order@.contains(c));
                    assert(dfs_expand(s, cs.skip(i as int), order@) == dfs_expand(
                        s,
                        cs.skip(i + 1),
                        order@,
                    ));
                    assert forall|j: int| 0 <= j < i + 1 implies order@.contains(
                        #[trigger] children@[j],
                    ) by {}
                }
            }
            i = i + 1;
        }
        proof {
            assert(cs.skip(nc as int) =~= Seq::<i32>::empty());
            assert(dfs_expand(s, cs.skip(nc as int), order@) =~= Seq::<i32>::empty());
            assert(order@ + Seq::<i32>::empty() =~= order@);
            assert(base + dfs_expand(s, cs, base) =~= base + dfs_subtree(s, parent_pid, base));
            assert(order@ == base + dfs_subtree(s, parent_pid, base));
            assert forall|q: i32|
                store_contains(s, q) && store_parent(s, q) == Some(parent_pid) implies
                order@.contains(q) by {
                assert(children@.contains(q));
                let j = choose|j: int| 0 <= j < children@.len() && children@[j] == q;
            }
        }
    }

    /// Consumes the ledger and returns its (pid, records) pairs in depth-first
    /// pre-order of the fork tree rooted at `root_pid`: first the root, then
    /// each child's subtree, children in ascending order of their own start
    /// timestamp. A pid's children are the pids whose front record is a
    /// `Fork` naming it as parent. Entries never fork-linked to the root are
    /// left out; an untracked root is an error.
    #[verifier::rlimit(100)]
    #[verifier::spinoff_prover]
    pub fn buffers_depth_first_fork_order(self, root_pid: i32) -> (r: Result<
        Vec<(i32, Vec<Event>)>,
        StoreError,
    >)
        requires
            self.wf(),
        ensures
            r is Ok <==> store_contains(self@, root_pid),
            r matches Err(e) ==> e == (StoreError::UntrackedRoot { pid: root_pid }),
            r matches Ok(v) ==> v@.len() >= 1 && (v@[0].0 == root_pid),
            // the visit order is the depth-first pre-order itself
            r matches Ok(v) ==> Seq::new(v@.len(), |i: int| v@[i].0) == dfs_order(self@, root_pid),
            r matches Ok(v) ==> forall|j: int|
                0 <= j < v@.len() ==> store_contains(self@, (#[trigger] v@[j]).0) && v@[j].1@
                    == store_buf(self@, v@[j].0),
            r matches Ok(v) ==> forall|j1: int, j2: int|
                0 <= j1 < j2 < v@.len() ==> (#[trigger] v@[j1]).0 != (#[trigger] v@[j2]).0,
            r matches Ok(v) ==> forall|j: int|
                1 <= j < v@.len() ==> exists|m: int|
                    0 <= m < j && store_parent(self@, (#[trigger] v@[j]).0) == Some(v@[m].0),
            r matches Ok(v) ==> forall|q: i32, m: int|
                #![trigger store_parent(self@, q), v@[m]]
                store_contains(self@, q) && 0 <= m < v@.len() && store_parent(self@, q) == Some(
                    v@[m].0,
                ) ==> exists|j: int| 0 <= j < v@.len() && (#[trigger] v@[j]).0 == q,
    {
        let ghost s = self@;
        if !self.pid_is_tracked(root_pid) {
            return Err(StoreError::UntrackedRoot { pid: root_pid });
        }
        let mut order: Vec<i32> = Vec::new();
        order.push(root_pid);
        proof {
            assert(order@ =~= seq![root_pid]);
            assert(order@.no_duplicates());
            assert(order@[0] == root_pid);
            assert(order@.contains(root_pid));
            let m = choose|m: int| 0 <= m < s.len() && s[m].0 == root_pid;
            assert(s.len() >= 1);
        }
        let ghost base = order@;
        self.find_child_pids(root_pid, &mut order);
        proof {
            assert(order@.take(1) == base);
            assert(order@[0] == base[0]);
            assert(order@ == dfs_order(s, root_pid));
        }
        let ghost ord = order@;
        let mut store = self;
        let mut out: Vec<(i32, Vec<Event>)> = Vec::new();
        let n = order.len();
        let mut i: usize = 0;
        while i < n
            invariant
                store.wf(),
                n == ord.len(),
                order@ == ord,
                i <= n,
                ord.no_duplicates(),
                ord[0] == root_pid,
                forall|j: int| 0 <= j < ord.len() ==> store_contains(s, #[trigger] ord[j]),
                forall|j: int|
                    1 <= j < ord.len() ==> exists|m: int|
                        0 <= m < j && store_parent(s, #[trigger] ord[j]) == Some(ord[m]),
                forall|x: i32, q: i32|
                    (ord.contains(x) && store_contains(s, q) && store_parent(s, q) == Some(x))
                        ==> ord.contains(q),
                forall|q: i32|
                    #[trigger] store_contains(store@, q) ==> store_contains(s, q) && store_buf(
                        store@,
                        q,
                    ) == store_buf(s, q),
                forall|j: int| i <= j < n ==> store_contains(store@, #[trigger] ord[j]),
                out@.len() == i,
                forall|j: int|
                    0 <= j < i ==> (#[trigger] out@[j]).0 == ord[j] && out@[j].1@ == store_buf(
                        s,
                        ord[j],
                    ),
            decreases n - i,
        {
            let pid = order[i];
            let ghost smid = store@;
            match store.remove(pid) {
                Some(buf) => {
                    out.push((pid, buf));
                },
                None => {
                    return Err(StoreError::UntrackedRoot { pid: root_pid });
                },
            }
            proof {
                lemma_store_remove_frame(smid, pid);
                assert forall|j: int|
                    i + 1 <= j < n implies store_contains(store@, #[trigger] ord[j]) by {
                    assert(ord[j] != pid);
                    assert(store_contains(smid, ord[j]));
                }
                assert forall|q: i32|
                    #[trigger] store_contains(store@, q) implies store_contains(s, q)
                        && store_buf(store@, q) == store_buf(s, q) by {
                    assert(q != pid);
                    assert(store_contains(smid, q));
                }
            }
            i = i + 1;
        }
        proof {
            assert forall|j: int|
                1 <= j < out@.len() implies exists|m: int|
                    0 <= m < j && store_parent(s, (#[trigger] out@[j]).0) == Some(out@[m].0) by {
                assert(out@[j].0 == ord[j]);
                let m = choose|m: int| 0 <= m < j && store_parent(s, ord[j]) == Some(ord[m]);
                assert(out@[m].0 == ord[m]);
                assert(0 <= m < j && store_parent(s, out@[j].0) == Some(out@[m].0));
            }
            assert(Seq::new(out@.len(), |i: int| out@[i].0) =~= ord);
            assert forall|q: i32, m: int|
                #![trigger store_parent(s, q), out@[m]]
                store_contains(s, q) && 0 <= m < out@.len() && store_parent(s, q) == Some(
                    out@[m].0,
                ) implies exists|j: int| 0 <= j < out@.len() && (#[trigger] out@[j]).0 == q by {
                assert(out@[m].0 == ord[m]);
                assert(ord.contains(ord[m]));
                assert(ord.contains(q));
                let j = choose|j: int| 0 <= j < ord.len() && ord[j] == q;
                assert(out@[j].0 == q);
            }
        }
        Ok(out)
    }

    /// Runs the exec-merge pass over every entry in place: each `Exec` record
    /// absorbs the `ExecArgs` records that trail it, which disappear.
    pub fn collapse_execs(&mut self)
        requires
            old(self).wf(),
        ensures
            final(self).wf(),
            final(self)@.len() == old(self)@.len(),
            forall|k: int|
                0 <= k < old(self)@.len() ==> final(self)@[k].0 == old(self)@[k].0
                    && final(self)@[k].1 == crate::merge::collapse_buffer(old(self)@[k].1),
    {
        let ghost s0 = self@;
        let ghost n = s0.len() as int;
        let mut old_entries: Vec<(i32, Vec<Event>)> = Vec::new();
        std::mem::swap(&mut old_entries, &mut self.entries);
        let nn = old_entries.len();
        let mut k: usize = 0;
        proof {
            assert(n == nn as int);
            assert(self@.len() == 0);
        }
        while old_entries.len() > 0
            invariant
                n == s0.len(),
                n <= usize::MAX,
                k + old_entries@.len() == n,
                forall|m: int| 0 <= m < old_entries@.len() ==> (
                old_entries@[m].0,
                old_entries@[m].1@,
                ) == s0[m + k],
                self@.len() == k,
                forall|m: int|
                    0 <= m < k ==> self@[m].0 == s0[m].0 && self@[m].1
                        == crate::merge::collapse_buffer(s0[m].1),
            decreases old_entries.len(),
        {
            let ghost pre = old_entries@;
            let entry = old_entries.remove(0);
            proof {
                assert((entry.0, entry.1@) == s0[k as int]);
                assert forall|m: int| 0 <= m < old_entries@.len() implies (
                old_entries@[m].0,
                old_entries@[m].1@,
                ) == s0[m + (k + 1)] by {
                    assert(old_entries@[m] == pre[m + 1]);
                }
            }
            let collapsed = crate::merge::collapse_buffer_execs(entry.1);
            self.entries.push((entry.0, collapsed));
            k = k + 1;
        }
        proof {
            assert forall|m: int|
                0 <= m < self@.len() implies buf_sorted(self@[m].1) by {
                crate::merge::lemma_collapse_buffer_sorted(s0[m].1);
            }
            assert forall|i: int, j: int|
                0 <= i < j < self@.len() implies self@[i].0 < self@[j].0 by {
                assert(self@[i].0 == s0[i].0);
                assert(self@[j].0 == s0[j].0);
            }
        }
    }
}

} // verus!
