//! What recovery gives back of the cache.

use crate::laws::runs::logged_as_linked;
use crate::laws::values::{agrees, value};
use crate::laws::versions::names;
use crate::materializer::{recovers, Materializer};
use crate::snapshot::{
    asked_all, ends_in, enter_segment, leave_segments, positions, replay_record, replay_records,
    replay_start, replays, segment_lsn, segment_of, segment_ops, sorts, stable_len, table_after,
    without, LogRecord, ReplayState, SegmentOp, SnapshotState,
};
use crate::stack::{fixed_up_stack, flushed_stack, locs, PageState};
use crate::state::CacheState;
use crate::step::{Done, Merged, Step, Writing};
use crate::transitions::{
    after_completed, after_reserved, allocated, evicted, loads, next_pid, page_out_step, released,
    removed,
};
use crate::types::{Config, HPtr, LogID, LoggedUpdate, Lsn, PageID, Update};
use vstd::prelude::*;

verus! {

/// For each page of the cache the log positions of its fragments.
pub open spec fn page_table<P, R>(s: CacheState<P, R>) -> Map<PageID, Seq<(Lsn, LogID)>> {
    s.pages.map_values(|page: PageState<P>| locs(page.entries))
}

/// The record that the creation of a page leaves in the log does to the page
/// table what the creation did to the cache.
pub proof fn law_replaying_a_creation<P, R>(s: CacheState<P, R>, loc: (Lsn, LogID))
    ensures
        page_table(allocated(s)) == table_after::<P>(
            page_table(s),
            LoggedUpdate { pid: next_pid(s), update: Update::Alloc },
            loc,
        ),
{
    assert(locs(Seq::<crate::stack::CacheEntry<P>>::empty()) =~= Seq::empty());
    assert(page_table(allocated(s)) =~= table_after::<P>(
        page_table(s),
        LoggedUpdate { pid: next_pid(s), update: Update::Alloc },
        loc,
    ));
}

/// The record that the removal of a page leaves in the log does to the page
/// table what the removal did to the cache.
pub proof fn law_replaying_a_removal<P, R>(s: CacheState<P, R>, pid: PageID, loc: (Lsn, LogID))
    ensures
        page_table(removed(s, pid)) == table_after::<P>(
            page_table(s),
            LoggedUpdate { pid, update: Update::Free },
            loc,
        ),
{
    assert(page_table(removed(s, pid)) =~= table_after::<P>(
        page_table(s),
        LoggedUpdate { pid, update: Update::Free },
        loc,
    ));
}

/// The record that a successful write leaves in the log does to the page table
/// what the write did to the cache.
pub proof fn law_replaying_a_write<P, R>(
    s: CacheState<P, R>,
    w: Writing<P>,
    lsn: Lsn,
    lid: LogID,
)
    requires
        s.wf(),
        w.wf(),
        w.update.update.has_frag(),
        logged_as_linked(w),
        s.swap_result(w.update.pid, w.key) is Ok,
    ensures
        page_table(after_reserved(s, w, lsn, lid)) == table_after(
            page_table(s),
            w.update,
            (lsn, lid),
        ),
{
    let pid = w.update.pid;
    let s1 = after_reserved(s, w, lsn, lid);
    let before = s.pages[pid].entries;
    assert(s.pages[pid].wf());
    assert(locs(s1.pages[pid].entries) =~= if w.kind is Link {
        locs(before).push((lsn, lid))
    } else {
        seq![(lsn, lid)]
    });
    assert(locs(before).push((lsn, lid)) =~= if before.len() == 0 {
        seq![(lsn, lid)]
    } else {
        locs(before).push((lsn, lid))
    });
    assert(page_table(s1) =~= table_after(page_table(s), w.update, (lsn, lid)));
}

/// A page that leaves memory keeps its log positions, in their order, and so
/// do all others.
pub proof fn law_evicting_keeps_every_position<P, R>(
    s: CacheState<P, R>,
    pid: PageID,
    head: HPtr,
)
    ensures
        page_table(evicted(s, pid, head)) == page_table(s),
{
    let at = locs(s.pages[pid].entries);
    assert(locs(flushed_stack::<P>(at)) =~= at);
    assert(page_table(evicted(s, pid, head)) =~= page_table(s));
}

/// Reading a page keeps the log positions of every page, in their order,
/// however many of its fragments had to be fetched: so does each step of it.
pub proof fn law_reading_keeps_every_position<P: Clone, R>(
    config: Config,
    s0: CacheState<P, R>,
    read: Merged<P>,
    to_evict: Seq<PageID>,
    s1: CacheState<P, R>,
    step: Step<P>,
)
    requires
        names(s0, read.pid, read.head, read.at@),
        page_out_step(config, s0, read, to_evict, s1, step),
    ensures
        page_table(s1) == page_table(s0),
{
    assert forall|copy: P| locs(#[trigger] fixed_up_stack(copy, read.at@)) == read.at@ by {
        assert(locs(fixed_up_stack(copy, read.at@)) =~= read.at@);
    }
    assert(page_table(s1) =~= page_table(s0));
}

/// What else leaves no record in the log keeps every position too: a write
/// that fails, the completion of a change, and giving an identifier back.
pub proof fn law_the_rest_keeps_every_position<P, R>(
    s: CacheState<P, R>,
    w: Writing<P>,
    lsn: Lsn,
    lid: LogID,
    done: Done,
    pid: PageID,
)
    ensures
        s.swap_result(w.update.pid, w.key) is Err ==> page_table(after_reserved(s, w, lsn, lid))
            == page_table(s),
        page_table(after_completed(s, done)) == page_table(s),
        page_table(released(s, pid)) == page_table(s),
{
}

/// A cache without pages that recovers from a snapshot has the snapshot's page
/// table.
pub proof fn law_recovery_restores_the_page_table<P, R>(s0: CacheState<P, R>, s1: CacheState<P, R>)
    requires
        s0.pages == Map::<PageID, PageState<P>>::empty(),
        s0.last_snapshot is Some,
        loads(s0, s1),
    ensures
        page_table(s1) == s0.last_snapshot->0.pt,
{
    let pt = s0.last_snapshot->0.pt;
    assert forall|at: Seq<(Lsn, LogID)>| locs(#[trigger] flushed_stack::<P>(at)) == at by {
        assert(locs(flushed_stack::<P>(at)) =~= at);
    }
    assert(page_table(s1) =~= pt);
}

/// If the snapshot has the page table of the cache `live`, then recovery gives
/// every page the value that it had in `live`.
pub proof fn law_recovery_restores_the_values<P, R>(
    f: spec_fn(Seq<P>) -> P,
    content: Map<(Lsn, LogID), P>,
    live: CacheState<P, R>,
    s0: CacheState<P, R>,
    s1: CacheState<P, R>,
)
    requires
        s0.pages == Map::<PageID, PageState<P>>::empty(),
        s0.last_snapshot is Some,
        s0.last_snapshot->0.pt == page_table(live),
        loads(s0, s1),
    ensures
        agrees(f, content, s1),
        forall|pid: PageID| #[trigger]
            value(f, content, s1, pid) == value(f, content, live, pid),
{
    law_recovery_restores_the_page_table(s0, s1);
    assert forall|pid: PageID| #[trigger]
        value(f, content, s1, pid) == value(f, content, live, pid) by {
        assert(page_table(s1).contains_key(pid) == page_table(live).contains_key(pid));
        if s1.pages.contains_key(pid) {
            assert(page_table(s1)[pid] == page_table(live)[pid]);
        }
    }
}

/// The page table after all of `records`.
pub open spec fn table_after_all<P>(
    pt: Map<PageID, Seq<(Lsn, LogID)>>,
    records: Seq<LogRecord<P>>,
) -> Map<PageID, Seq<(Lsn, LogID)>>
    decreases records.len(),
{
    if records.len() == 0 {
        pt
    } else {
        let before = table_after_all(pt, records.drop_last());
        match records.last().update {
            Some(u) => table_after(before, u, (records.last().lsn, records.last().lid)),
            None => before,
        }
    }
}

/// `records` come after `lsn`, in ascending order.
pub open spec fn ascending<P>(lsn: Lsn, records: Seq<LogRecord<P>>) -> bool {
    &&& forall|i: int| 0 <= i < records.len() ==> lsn < (#[trigger] records[i]).lsn
    &&& forall|i: int, j: int|
        0 <= i < j < records.len() ==> (#[trigger] records[i]).lsn < (#[trigger] records[j]).lsn
}

/// A snapshot that catches up with a log takes every one of its records into
/// the page table, in their order, and ends at the last of them.
pub proof fn law_replay_follows_the_log<P, R>(
    io_buf_size: usize,
    r: ReplayState<R>,
    records: Seq<LogRecord<P>>,
    found: Seq<Option<R>>,
)
    requires
        ascending(r.snapshot.max_lsn, records),
    ensures
        ({
            let after = replay_records(io_buf_size, r, records, found).snapshot;
            &&& after.pt == table_after_all(r.snapshot.pt, records)
            &&& after.max_lsn == if records.len() == 0 {
                r.snapshot.max_lsn
            } else {
                records.last().lsn
            }
        }),
    decreases records.len(),
{
    if records.len() > 0 {
        law_replay_follows_the_log(io_buf_size, r, records.drop_last(), found.drop_last());
        if records.len() > 1 {
            assert(records.drop_last().last() == records[records.len() - 2]);
        }
    }
}

/// A record that a snapshot has already taken in is passed over.
pub proof fn law_nothing_is_taken_in_twice<P, R>(
    io_buf_size: usize,
    r: ReplayState<R>,
    record: LogRecord<P>,
    found: Option<R>,
    again: Option<R>,
)
    ensures
        ({
            let once = replay_record(io_buf_size, r, record, found);
            &&& replay_record(io_buf_size, once, record, again) == once
            &&& r.snapshot.max_lsn <= once.snapshot.max_lsn
        }),
{
}

/// Records that a snapshot has already taken in are all passed over.
pub proof fn law_old_records_change_nothing<P, R>(
    io_buf_size: usize,
    r: ReplayState<R>,
    records: Seq<LogRecord<P>>,
    found: Seq<Option<R>>,
)
    requires
        forall|i: int|
            0 <= i < records.len() ==> (#[trigger] records[i]).lsn <= r.snapshot.max_lsn,
    ensures
        replay_records(io_buf_size, r, records, found) == r,
    decreases records.len(),
{
    if records.len() > 0 {
        law_old_records_change_nothing(io_buf_size, r, records.drop_last(), found.drop_last());
        assert(records[records.len() - 1] == records.last());
    }
}

/// The snapshots differ in the order of freed identifiers at most.
pub open spec fn same_up_to_order<R>(a: SnapshotState<R>, b: SnapshotState<R>) -> bool {
    &&& a.free.to_multiset() == b.free.to_multiset()
    &&& a == (SnapshotState { free: a.free, ..b })
}

/// Taking one identifier out leaves all others.
proof fn lemma_count_without(ids: Seq<PageID>, pid: PageID, id: PageID)
    ensures
        without(ids, pid).to_multiset().count(id) == if id == pid {
            0
        } else {
            ids.to_multiset().count(id)
        },
    decreases ids.len(),
{
    broadcast use vstd::multiset::group_multiset_axioms;

    reveal(Seq::filter);
    if ids.len() > 0 {
        let rest = ids.drop_last();
        lemma_count_without(rest, pid, id);
        assert(rest.push(ids.last()) =~= ids);
        vstd::seq_lib::to_multiset_build(rest, ids.last());
        vstd::seq_lib::to_multiset_build(without(rest, pid), ids.last());
    } else {
        vstd::seq_lib::to_multiset_contains(ids, id);
    }
}

/// The order of freed identifiers does not matter to what a replay does
/// otherwise.
proof fn lemma_order_does_not_matter<P, R>(
    io_buf_size: usize,
    a: ReplayState<R>,
    b: ReplayState<R>,
    records: Seq<LogRecord<P>>,
    found: Seq<Option<R>>,
)
    requires
        same_up_to_order(a.snapshot, b.snapshot),
    ensures
        same_up_to_order(
            replay_records(io_buf_size, a, records, found).snapshot,
            replay_records(io_buf_size, b, records, found).snapshot,
        ),
    decreases records.len(),
{
    if records.len() > 0 {
        let before = records.drop_last();
        lemma_order_does_not_matter(io_buf_size, a, b, before, found.drop_last());
        let a0 = replay_records(io_buf_size, a, before, found.drop_last()).snapshot;
        let b0 = replay_records(io_buf_size, b, before, found.drop_last()).snapshot;
        if let Some(u) = records.last().update {
            vstd::seq_lib::to_multiset_build(a0.free, u.pid);
            vstd::seq_lib::to_multiset_build(b0.free, u.pid);
            assert(without(a0.free, u.pid).to_multiset() =~= without(
                b0.free,
                u.pid,
            ).to_multiset()) by {
                assert forall|id: PageID|
                    without(a0.free, u.pid).to_multiset().count(id) == without(
                        b0.free,
                        u.pid,
                    ).to_multiset().count(id) by {
                    lemma_count_without(a0.free, u.pid, id);
                    lemma_count_without(b0.free, u.pid, id);
                }
            }
        }
    }
}

/// A replay that goes on does the same as one from the start.
proof fn lemma_replay_goes_on<P, R>(
    io_buf_size: usize,
    r: ReplayState<R>,
    first: Seq<LogRecord<P>>,
    first_found: Seq<Option<R>>,
    second: Seq<LogRecord<P>>,
    second_found: Seq<Option<R>>,
)
    requires
        first_found.len() == first.len(),
        second_found.len() == second.len(),
    ensures
        replay_records(
            io_buf_size,
            replay_records(io_buf_size, r, first, first_found),
            second,
            second_found,
        ) == replay_records(io_buf_size, r, first + second, first_found + second_found),
    decreases second.len(),
{
    if second.len() == 0 {
        assert(first + second =~= first);
        assert(first_found + second_found =~= first_found);
    } else {
        lemma_replay_goes_on(
            io_buf_size,
            r,
            first,
            first_found,
            second.drop_last(),
            second_found.drop_last(),
        );
        assert((first + second).drop_last() =~= first + second.drop_last());
        assert((first_found + second_found).drop_last() =~= first_found
            + second_found.drop_last());
    }
}

/// There is one way to put identifiers into descending order.
pub proof fn law_descending_order_is_unique(
    a: Seq<PageID>,
    b: Seq<PageID>,
    x: Seq<PageID>,
    y: Seq<PageID>,
)
    requires
        a.to_multiset() == b.to_multiset(),
        sorts(a, x),
        sorts(b, y),
    ensures
        x == y,
{
    let ge = |i: PageID, j: PageID| i >= j;
    vstd::seq_lib::lemma_sorted_unique(x, y, ge);
}

/// The materializer recovers the same from the same fragment, however often it
/// is asked.
pub open spec fn answers_alike<PM: Materializer>(m: PM) -> bool {
    forall|frag: PM::PageFrag, a: Option<PM::Recovery>, b: Option<PM::Recovery>|
        #[trigger] recovers(m, frag, a) && #[trigger] recovers(m, frag, b) ==> a == b
}

/// The answers to a whole log are the answers to its first part, and then
/// those to its second.
proof fn lemma_answers_split<PM, P, R>(
    m: PM,
    io_buf_size: usize,
    r: ReplayState<R>,
    first: Seq<LogRecord<P>>,
    second: Seq<LogRecord<P>>,
    found: Seq<Option<R>>,
)
    where PM: Materializer<PageFrag = P, Recovery = R>
    requires
        asked_all(m, io_buf_size, r, first + second, found),
    ensures
        ({
            let first_found = found.take(first.len() as int);
            let second_found = found.skip(first.len() as int);
            let halfway = replay_records(io_buf_size, r, first, first_found);
            &&& asked_all(m, io_buf_size, r, first, first_found)
            &&& asked_all(m, io_buf_size, halfway, second, second_found)
            &&& replay_records(io_buf_size, halfway, second, second_found) == replay_records(
                io_buf_size,
                r,
                first + second,
                found,
            )
        }),
    decreases second.len(),
{
    let n = first.len() as int;
    assert(found.take(n) + found.skip(n) =~= found);
    lemma_replay_goes_on(io_buf_size, r, first, found.take(n), second, found.skip(n));
    if second.len() == 0 {
        assert(first + second =~= first);
        assert(found.take(n) =~= found);
    } else {
        let less = second.drop_last();
        assert((first + second).drop_last() =~= first + less);
        lemma_answers_split(m, io_buf_size, r, first, less, found.drop_last());
        assert(found.drop_last().take(n) =~= found.take(n));
        assert(found.drop_last().skip(n) =~= found.skip(n).drop_last());
    }
}

/// Two replays of the same records get the same answers.
proof fn lemma_answers_are_the_same<PM, P, R>(
    m: PM,
    io_buf_size: usize,
    a: ReplayState<R>,
    b: ReplayState<R>,
    records: Seq<LogRecord<P>>,
    a_found: Seq<Option<R>>,
    b_found: Seq<Option<R>>,
)
    where PM: Materializer<PageFrag = P, Recovery = R>
    requires
        answers_alike(m),
        same_up_to_order(a.snapshot, b.snapshot),
        asked_all(m, io_buf_size, a, records, a_found),
        asked_all(m, io_buf_size, b, records, b_found),
    ensures
        a_found == b_found,
    decreases records.len(),
{
    if records.len() > 0 {
        let before = records.drop_last();
        lemma_answers_are_the_same(
            m,
            io_buf_size,
            a,
            b,
            before,
            a_found.drop_last(),
            b_found.drop_last(),
        );
        lemma_order_does_not_matter(io_buf_size, a, b, before, a_found.drop_last());
        assert(a_found.last() == b_found.last());
        assert(a_found.drop_last().push(a_found.last()) =~= a_found);
        assert(b_found.drop_last().push(b_found.last()) =~= b_found);
    } else {
        assert(a_found =~= b_found);
    }
}

/// After a replay no record is newer than the snapshot.
proof fn lemma_all_taken_in<P, R>(
    io_buf_size: usize,
    r: ReplayState<R>,
    records: Seq<LogRecord<P>>,
    found: Seq<Option<R>>,
)
    ensures
        r.snapshot.max_lsn <= replay_records(io_buf_size, r, records, found).snapshot.max_lsn,
        forall|i: int|
            0 <= i < records.len() ==> (#[trigger] records[i]).lsn <= replay_records(
                io_buf_size,
                r,
                records,
                found,
            ).snapshot.max_lsn,
    decreases records.len(),
{
    if records.len() > 0 {
        let before = records.drop_last();
        lemma_all_taken_in(io_buf_size, r, before, found.drop_last());
        assert forall|i: int| 0 <= i < records.len() implies (#[trigger] records[i]).lsn
            <= replay_records(io_buf_size, r, records, found).snapshot.max_lsn by {
            if i < before.len() {
                assert(before[i] == records[i]);
            }
        }
    }
}

/// The stable part of a log is no longer than the log.
pub proof fn lemma_stable_len<P>(records: Seq<LogRecord<P>>, stop_lsn: Lsn)
    ensures
        stable_len(records, stop_lsn) <= records.len(),
    decreases records.len(),
{
    if records.len() > 0 {
        lemma_stable_len(records.skip(1), stop_lsn);
    }
}

/// The materializer is not asked about records that a snapshot has already
/// taken in.
proof fn lemma_nothing_is_asked<PM, P, R>(
    m: PM,
    io_buf_size: usize,
    r: ReplayState<R>,
    records: Seq<LogRecord<P>>,
    found: Seq<Option<R>>,
)
    where PM: Materializer<PageFrag = P, Recovery = R>
    requires
        asked_all(m, io_buf_size, r, records, found),
        forall|i: int|
            0 <= i < records.len() ==> (#[trigger] records[i]).lsn <= r.snapshot.max_lsn,
    ensures
        forall|i: int| 0 <= i < found.len() ==> #[trigger] found[i] is None,
    decreases records.len(),
{
    if records.len() > 0 {
        let before = records.drop_last();
        lemma_nothing_is_asked(m, io_buf_size, r, before, found.drop_last());
        law_old_records_change_nothing(io_buf_size, r, before, found.drop_last());
        assert(records[records.len() - 1] == records.last());
        assert forall|i: int| 0 <= i < found.len() implies #[trigger] found[i] is None by {
            if i < found.len() - 1 {
                assert(found.drop_last()[i] is None);
            }
        }
    }
}

/// A snapshot that has caught up with a log is left as it is by catching up
/// with the same log once more, and the materializer is not asked anything.
pub proof fn law_catching_up_again_changes_nothing<PM, P, R>(
    m: PM,
    io_buf_size: usize,
    s: SnapshotState<R>,
    records: Seq<LogRecord<P>>,
    stop_lsn: Lsn,
    once: ReplayState<R>,
    again: ReplayState<R>,
)
    where PM: Materializer<PageFrag = P, Recovery = R>
    requires
        replays(m, io_buf_size, s, records, stop_lsn, once),
        replays(m, io_buf_size, once.snapshot, records, stop_lsn, again),
    ensures
        again == replay_start(once.snapshot),
        forall|found: Seq<Option<R>>, i: int|
            #![trigger asked_all(
                m,
                io_buf_size,
                replay_start(once.snapshot),
                records.take(stable_len(records, stop_lsn) as int),
                found,
            ), found[i]]
            asked_all(
                m,
                io_buf_size,
                replay_start(once.snapshot),
                records.take(stable_len(records, stop_lsn) as int),
                found,
            ) && 0 <= i < found.len() ==> found[i] is None,
{
    let stable = records.take(stable_len(records, stop_lsn) as int);
    let found = choose|found: Seq<Option<R>>|
        {
            &&& #[trigger] asked_all(m, io_buf_size, replay_start(s), stable, found)
            &&& ends_in(replay_records(io_buf_size, replay_start(s), stable, found), once)
        };
    let start = replay_start(once.snapshot);
    let found_again = choose|found: Seq<Option<R>>|
        {
            &&& #[trigger] asked_all(m, io_buf_size, start, stable, found)
            &&& ends_in(replay_records(io_buf_size, start, stable, found), again)
        };
    lemma_all_taken_in(io_buf_size, replay_start(s), stable, found);
    law_old_records_change_nothing(io_buf_size, start, stable, found_again);
    assert forall|found: Seq<Option<R>>, i: int|
        #![trigger asked_all(m, io_buf_size, start, stable, found), found[i]]
        asked_all(m, io_buf_size, start, stable, found) && 0 <= i
            < found.len() implies found[i] is None by {
        lemma_nothing_is_asked(m, io_buf_size, start, stable, found);
    }
    let unsorted = replay_records(io_buf_size, replay_start(s), stable, found).snapshot.free;
    law_descending_order_is_unique(
        unsorted,
        once.snapshot.free,
        once.snapshot.free,
        again.snapshot.free,
    );
}

/// A snapshot that catches up with a log, and with the whole log again when it
/// has grown, is the same as one that catches up with the grown log at once.
pub proof fn law_catching_up_in_parts<PM, P, R>(
    m: PM,
    io_buf_size: usize,
    s: SnapshotState<R>,
    records: Seq<LogRecord<P>>,
    stop_lsn: Lsn,
    halfway: ReplayState<R>,
    more: Seq<LogRecord<P>>,
    later_stop_lsn: Lsn,
    in_two: ReplayState<R>,
    in_one: ReplayState<R>,
)
    where PM: Materializer<PageFrag = P, Recovery = R>
    requires
        answers_alike(m),
        stable_len(records, stop_lsn) <= stable_len(records + more, later_stop_lsn),
        replays(m, io_buf_size, s, records, stop_lsn, halfway),
        replays(m, io_buf_size, halfway.snapshot, records + more, later_stop_lsn, in_two),
        replays(m, io_buf_size, s, records + more, later_stop_lsn, in_one),
    ensures
        in_two.snapshot == in_one.snapshot,
{
    let n = stable_len(records, stop_lsn) as int;
    let first = records.take(n);
    let whole = (records + more).take(stable_len(records + more, later_stop_lsn) as int);
    let second = whole.skip(n);
    lemma_stable_len(records, stop_lsn);
    lemma_stable_len(records + more, later_stop_lsn);
    assert(first + second =~= whole);
    let start = replay_start(s);
    let half_start = replay_start(halfway.snapshot);
    let half_found = choose|found: Seq<Option<R>>|
        {
            &&& #[trigger] asked_all(m, io_buf_size, start, first, found)
            &&& ends_in(replay_records(io_buf_size, start, first, found), halfway)
        };
    let two_found = choose|found: Seq<Option<R>>|
        {
            &&& #[trigger] asked_all(m, io_buf_size, half_start, whole, found)
            &&& ends_in(replay_records(io_buf_size, half_start, whole, found), in_two)
        };
    let one_found = choose|found: Seq<Option<R>>|
        {
            &&& #[trigger] asked_all(m, io_buf_size, start, whole, found)
            &&& ends_in(replay_records(io_buf_size, start, whole, found), in_one)
        };
    lemma_answers_split(m, io_buf_size, half_start, first, second, two_found);
    lemma_answers_split(m, io_buf_size, start, first, second, one_found);
    lemma_answers_are_the_same(
        m,
        io_buf_size,
        start,
        start,
        first,
        half_found,
        one_found.take(n),
    );
    lemma_all_taken_in(io_buf_size, start, first, half_found);
    law_old_records_change_nothing(io_buf_size, half_start, first, two_found.take(n));
    let unsorted = replay_records(io_buf_size, start, first, half_found);
    lemma_answers_are_the_same(
        m,
        io_buf_size,
        half_start,
        unsorted,
        second,
        two_found.skip(n),
        one_found.skip(n),
    );
    lemma_order_does_not_matter(io_buf_size, half_start, unsorted, second, two_found.skip(n));
    law_descending_order_is_unique(
        replay_records(io_buf_size, half_start, second, two_found.skip(n)).snapshot.free,
        replay_records(io_buf_size, unsorted, second, two_found.skip(n)).snapshot.free,
        in_two.snapshot.free,
        in_one.snapshot.free,
    );
}

/// The scan of the log begins at the start of the segment of the last record
/// that the snapshot has taken in.
pub proof fn law_the_scan_begins_at_a_segment(max_lsn: Lsn, io_buf_size: usize)
    requires
        io_buf_size > 0,
    ensures
        segment_lsn(max_lsn, io_buf_size) <= max_lsn,
        max_lsn < segment_lsn(max_lsn, io_buf_size) + io_buf_size,
        segment_lsn(max_lsn, io_buf_size) % (io_buf_size as u64) == 0,
        segment_lsn(max_lsn, io_buf_size) == max_lsn / (io_buf_size as u64) * io_buf_size,
{
    let x = max_lsn as int;
    let d = io_buf_size as int;
    vstd::arithmetic::div_mod::lemma_mod_decreases(max_lsn as nat, io_buf_size as nat);
    vstd::arithmetic::div_mod::lemma_fundamental_div_mod(x, d);
    vstd::arithmetic::mul::lemma_mul_is_commutative(d, x / d);
    vstd::arithmetic::div_mod::lemma_mod_multiples_basic(x / d, d);
}

/// The segment that an operation on the segments is about.
pub open spec fn op_segment(op: SegmentOp) -> usize {
    match op {
        SegmentOp::EnsureInitialized { idx, lsn } => idx,
        SegmentOp::ActiveToInactive { idx, lsn } => idx,
        SegmentOp::DrainIfEmpty { idx, lsn } => idx,
        SegmentOp::InsertPid { idx, pid, lsn } => idx,
        SegmentOp::RemovePid { idx, pid, lsn } => idx,
    }
}

/// Everything that a replay speaks of lies in a segment that it knows of.
pub open spec fn in_known_segments<R>(r: ReplayState<R>, io_buf_size: usize) -> bool {
    &&& forall|pid: PageID, i: int|
        r.snapshot.pt.contains_key(pid) && 0 <= i < r.snapshot.pt[pid].len() ==> segment_of(
            (#[trigger] r.snapshot.pt[pid][i]).1,
            io_buf_size,
        ) < r.snapshot.segments
    &&& r.last_segment matches Some(idx) ==> idx < r.snapshot.segments
    &&& forall|i: int|
        0 <= i < r.ops.len() ==> op_segment(#[trigger] r.ops[i]) < r.snapshot.segments
}

/// A replay never speaks of a segment that it does not know of.
pub proof fn law_replay_stays_in_known_segments<P, R>(
    io_buf_size: usize,
    r: ReplayState<R>,
    record: LogRecord<P>,
    found: Option<R>,
)
    requires
        in_known_segments(r, io_buf_size),
        io_buf_size > 0,
        record.fits(io_buf_size),
    ensures
        in_known_segments(replay_record(io_buf_size, r, record, found), io_buf_size),
{
    if record.lsn > r.snapshot.max_lsn {
        let r1 = replay_record(io_buf_size, r, record, found);
        let idx = segment_of(record.lid, io_buf_size);
        let lsn = segment_lsn(record.lsn, io_buf_size);
        assert(idx < r1.snapshot.segments);
        if record.update is Some {
            let u = record.update->0;
            let entered = enter_segment(r.last_segment, idx, lsn);
            let at = positions(r.snapshot.pt, u.pid);
            let left = leave_segments(at, u.pid, idx, lsn, io_buf_size);
            let done = segment_ops(r.snapshot.pt, u, idx, lsn, io_buf_size);
            assert forall|i: int| 0 <= i < at.len() implies segment_of(
                (#[trigger] at[i]).1,
                io_buf_size,
            ) < r1.snapshot.segments by {
                assert(r.snapshot.pt[u.pid][i] == at[i]);
            }
            lemma_left_segments_are_known(at, u.pid, idx, lsn, io_buf_size, r1.snapshot.segments);
            assert forall|i: int| 0 <= i < done.len() implies op_segment(#[trigger] done[i])
                < r1.snapshot.segments by {
                if i < left.len() && !(u.update is Append) && !(u.update is Alloc) {
                    assert(done[i] == left[i]);
                }
            }
            assert forall|i: int| 0 <= i < r1.ops.len() implies op_segment(#[trigger] r1.ops[i])
                < r1.snapshot.segments by {
                if i < r.ops.len() {
                    assert(r1.ops[i] == r.ops[i]);
                } else if i < r.ops.len() + entered.len() {
                    assert(r1.ops[i] == entered[i - r.ops.len()]);
                } else {
                    assert(r1.ops[i] == done[i - r.ops.len() - entered.len()]);
                }
            }
            assert forall|pid: PageID, i: int|
                r1.snapshot.pt.contains_key(pid) && 0 <= i
                    < r1.snapshot.pt[pid].len() implies segment_of(
                (#[trigger] r1.snapshot.pt[pid][i]).1,
                io_buf_size,
            ) < r1.snapshot.segments by {
                if r.snapshot.pt.contains_key(pid) && i < r.snapshot.pt[pid].len() {
                    let known = r.snapshot.pt[pid][i];
                    assert(segment_of(known.1, io_buf_size) < r.snapshot.segments);
                }
            }
        }
    }
}

/// The segments that a page leaves are those of its fragments.
proof fn lemma_left_segments_are_known(
    at: Seq<(Lsn, LogID)>,
    pid: PageID,
    idx: usize,
    lsn: Lsn,
    io_buf_size: usize,
    segments: usize,
)
    requires
        forall|i: int|
            0 <= i < at.len() ==> segment_of((#[trigger] at[i]).1, io_buf_size) < segments,
    ensures
        forall|i: int|
            0 <= i < leave_segments(at, pid, idx, lsn, io_buf_size).len() ==> op_segment(
                #[trigger] leave_segments(at, pid, idx, lsn, io_buf_size)[i],
            ) < segments,
    decreases at.len(),
{
    if at.len() > 0 {
        lemma_left_segments_are_known(at.drop_last(), pid, idx, lsn, io_buf_size, segments);
        let before = leave_segments(at.drop_last(), pid, idx, lsn, io_buf_size);
        let left = leave_segments(at, pid, idx, lsn, io_buf_size);
        assert(segment_of(at[at.len() - 1].1, io_buf_size) < segments);
        assert forall|i: int| 0 <= i < left.len() implies op_segment(#[trigger] left[i])
            < segments by {
            if i < before.len() {
                assert(left[i] == before[i]);
            }
        }
    }
}

} // verus!
