//! What a snapshot has of the log when it has caught up.
//!
//! A record is new to a snapshot if its sequence number is larger than that of
//! the last record that the snapshot has taken in. Sequence numbers increase
//! along the log.

use crate::laws::recovery::{law_the_scan_begins_at_a_segment, lemma_stable_len};
use crate::materializer::Materializer;
use crate::snapshot::{
    asked, asked_all, ends_in, leave_segments, positions, replay_record, replay_records,
    replay_start, replays, segment_lsn, segment_of, sorts, stable_len, without, LogRecord,
    ReplayState, SegmentOp, SnapshotState,
};
use crate::types::{LogID, Lsn, PageID, Update};
use vstd::prelude::*;

verus! {

/// A record is stable if and only if it is not past a known end of the stable
/// part of the log, and catching up goes as far as there are stable records
/// and no further.
pub proof fn law_the_stable_part_is_all_that_is_stable<P>(
    records: Seq<LogRecord<P>>,
    stop_lsn: Lsn,
)
    ensures
        stable_len(records, stop_lsn) <= records.len(),
        forall|i: int|
            0 <= i < stable_len(records, stop_lsn) ==> stop_lsn == 0 || (
            #[trigger] records[i]).lsn <= stop_lsn,
        stable_len(records, stop_lsn) < records.len() ==> stop_lsn > 0 && records[stable_len(
            records,
            stop_lsn,
        ) as int].lsn > stop_lsn,
    decreases records.len(),
{
    lemma_stable_len(records, stop_lsn);
    if records.len() > 0 {
        let rest = records.skip(1);
        law_the_stable_part_is_all_that_is_stable(rest, stop_lsn);
        assert forall|i: int| 0 <= i < stable_len(records, stop_lsn) implies stop_lsn == 0 || (
        #[trigger] records[i]).lsn <= stop_lsn by {
            if i > 0 {
                assert(rest[i - 1] == records[i]);
            }
        }
    }
}

/// Sequence numbers increase along the log.
pub open spec fn increasing<P>(records: Seq<LogRecord<P>>) -> bool {
    forall|i: int, j: int|
        0 <= i < j < records.len() ==> (#[trigger] records[i]).lsn < (#[trigger] records[j]).lsn
}

/// In a log with increasing sequence numbers a record is taken in if and only
/// if the end of the stable part is unknown or not before it. So a log that is
/// stable as a whole is taken in as a whole.
pub proof fn law_every_stable_record_is_taken_in<P>(records: Seq<LogRecord<P>>, stop_lsn: Lsn)
    requires
        increasing(records),
    ensures
        forall|i: int|
            0 <= i < records.len() ==> (i < stable_len(records, stop_lsn) <==> stop_lsn == 0 || (
            #[trigger] records[i]).lsn <= stop_lsn),
        (forall|i: int|
            0 <= i < records.len() ==> stop_lsn == 0 || (#[trigger] records[i]).lsn <= stop_lsn)
            ==> stable_len(records, stop_lsn) == records.len(),
{
    law_the_stable_part_is_all_that_is_stable(records, stop_lsn);
    let n = stable_len(records, stop_lsn) as int;
    assert forall|i: int| 0 <= i < records.len() implies (i < n <==> stop_lsn == 0 || (
    #[trigger] records[i]).lsn <= stop_lsn) by {
        if i > n {
            assert(records[n].lsn < records[i].lsn);
        }
    }
}

/// A record that is not new changes nothing. A new one moves the snapshot on
/// to its sequence number and makes its segment known; if it cannot be
/// understood, that is all.
pub proof fn law_the_snapshot_moves_on_to_the_record<P, R>(
    io_buf_size: usize,
    r: ReplayState<R>,
    record: LogRecord<P>,
    found: Option<R>,
)
    requires
        io_buf_size > 0,
        record.fits(io_buf_size),
    ensures
        ({
            let r1 = replay_record(io_buf_size, r, record, found);
            let before = r.snapshot;
            let after = r1.snapshot;
            let segment = record.lid as int / io_buf_size as int;
            &&& record.lsn <= before.max_lsn ==> r1 == r
            &&& record.lsn > before.max_lsn ==> {
                &&& after.max_lsn == record.lsn
                &&& before.segments > segment ==> after.segments == before.segments
                &&& before.segments <= segment ==> after.segments == segment + 1
                &&& record.update is None ==> {
                    &&& after == (SnapshotState {
                        max_lsn: record.lsn,
                        segments: after.segments,
                        ..before
                    })
                    &&& r1.last_segment == r.last_segment
                    &&& r1.ops == r.ops
                }
                &&& record.update is Some ==> r1.last_segment == Some(segment as usize)
            }
        }),
{
}

/// What a new record does to the snapshot's pages: an addition goes behind
/// what is known of its page, and is passed over if nothing is; a beginning
/// takes the place of what is known; a removal leaves nothing; a creation
/// leaves an empty page. Other pages are left alone.
pub proof fn law_a_record_changes_its_page<P, R>(
    io_buf_size: usize,
    r: ReplayState<R>,
    record: LogRecord<P>,
    found: Option<R>,
)
    requires
        record.lsn > r.snapshot.max_lsn,
        record.update is Some,
    ensures
        ({
            let u = record.update->0;
            let pid = u.pid;
            let before = r.snapshot;
            let after = replay_record(io_buf_size, r, record, found).snapshot;
            let known = before.pt.contains_key(pid);
            &&& after.pt.remove(pid) == before.pt.remove(pid)
            &&& pid < before.max_pid ==> after.max_pid == before.max_pid
            &&& before.max_pid <= pid < usize::MAX ==> after.max_pid == pid + 1
            &&& match u.update {
                Update::Append(frag) => {
                    &&& after.pt.contains_key(pid) <==> known
                    &&& known ==> after.pt[pid] == before.pt[pid].push((record.lsn, record.lid))
                },
                Update::Compact(frag) => {
                    &&& after.pt.contains_key(pid)
                    &&& after.pt[pid] == seq![(record.lsn, record.lid)]
                },
                Update::Free => !after.pt.contains_key(pid),
                Update::Alloc => after.pt.contains_key(pid) && after.pt[pid].len() == 0,
            }
            &&& match u.update {
                Update::Free => after.free == before.free.push(pid),
                Update::Alloc => after.free == before.free.filter(|q: PageID| q != pid),
                _ => after.free == before.free,
            }
            &&& match u.update {
                Update::Append(frag) => {
                    &&& known && found is Some ==> after.recovery == found
                    &&& !known || found is None ==> after.recovery == before.recovery
                },
                Update::Compact(frag) => {
                    &&& found is Some ==> after.recovery == found
                    &&& found is None ==> after.recovery == before.recovery
                },
                _ => after.recovery == before.recovery,
            }
        }),
{
    let pid = record.update->0.pid;
    let after = replay_record(io_buf_size, r, record, found).snapshot;
    assert(after.pt.remove(pid) =~= r.snapshot.pt.remove(pid));
    if record.update->0.update is Alloc {
        lemma_others_are_kept(r.snapshot.free, pid);
    }
}

/// Taking an identifier out is to keep the others, in their order.
proof fn lemma_others_are_kept(ids: Seq<PageID>, pid: PageID)
    ensures
        without(ids, pid) == ids.filter(|q: PageID| q != pid),
    decreases ids.len(),
{
    reveal(Seq::filter);
    if ids.len() > 0 {
        lemma_others_are_kept(ids.drop_last(), pid);
    }
}

/// The materializer is asked about the fragment of a new record that begins a
/// page's history or adds to a known page, and about nothing else.
pub proof fn law_when_the_materializer_is_asked<PM, P, R>(
    m: PM,
    r: ReplayState<R>,
    record: LogRecord<P>,
    found: Option<R>,
)
    where PM: Materializer<PageFrag = P, Recovery = R>
    requires
        asked(m, r, record, found),
    ensures
        record.lsn <= r.snapshot.max_lsn || record.update is None ==> found is None,
        record.lsn > r.snapshot.max_lsn ==> (record.update matches Some(u) ==> match u.update {
            Update::Compact(frag) => call_ensures(PM::recover, (&m, &frag), found),
            Update::Append(frag) => {
                &&& r.snapshot.pt.contains_key(u.pid) ==> call_ensures(
                    PM::recover,
                    (&m, &frag),
                    found,
                )
                &&& !r.snapshot.pt.contains_key(u.pid) ==> found is None
            },
            _ => found is None,
        }),
{
}

/// The removals from segments are those of exactly the positions that lie in
/// other segments than the new record, in their order.
proof fn lemma_every_other_segment_is_left(
    at: Seq<(Lsn, LogID)>,
    pid: PageID,
    idx: usize,
    lsn: Lsn,
    io_buf_size: usize,
)
    ensures
        leave_segments(at, pid, idx, lsn, io_buf_size) == at.filter(
            |loc: (Lsn, LogID)| segment_of(loc.1, io_buf_size) != idx,
        ).map_values(
            |loc: (Lsn, LogID)|
                SegmentOp::RemovePid { idx: segment_of(loc.1, io_buf_size), pid, lsn },
        ),
    decreases at.len(),
{
    reveal(Seq::filter);
    let elsewhere = |loc: (Lsn, LogID)| segment_of(loc.1, io_buf_size) != idx;
    let removal = |loc: (Lsn, LogID)|
        SegmentOp::RemovePid { idx: segment_of(loc.1, io_buf_size), pid, lsn };
    if at.len() > 0 {
        lemma_every_other_segment_is_left(at.drop_last(), pid, idx, lsn, io_buf_size);
        let kept = at.drop_last().filter(elsewhere);
        assert(kept.push(at.last()).map_values(removal) =~= kept.map_values(removal).push(
            removal(at.last()),
        ));
    }
    assert(leave_segments(at, pid, idx, lsn, io_buf_size) =~= at.filter(elsewhere).map_values(
        removal,
    ));
}

/// What a new record adds to what has happened to the segments.
pub open spec fn changes_its_segments<P, R>(
    io_buf_size: usize,
    r: ReplayState<R>,
    record: LogRecord<P>,
    ops: Seq<SegmentOp>,
) -> bool {
    let u = record.update->0;
    let pid = u.pid;
    let known = r.snapshot.pt.contains_key(pid);
    let idx = (record.lid as int / io_buf_size as int) as usize;
    let lsn = (record.lsn as int / io_buf_size as int * io_buf_size as int) as Lsn;
    let entering = seq![SegmentOp::EnsureInitialized { idx, lsn }];
    let moving_on = match r.last_segment {
        Some(last) => if last == idx {
            Seq::<SegmentOp>::empty()
        } else {
            seq![
                SegmentOp::ActiveToInactive { idx: last, lsn },
                SegmentOp::DrainIfEmpty { idx: last, lsn },
            ]
        },
        None => Seq::<SegmentOp>::empty(),
    };
    let leaving = if known && (u.update is Compact || u.update is Free) {
        r.snapshot.pt[pid].filter(
            |loc: (Lsn, LogID)| (loc.1 as int / io_buf_size as int) as usize != idx,
        ).map_values(
            |loc: (Lsn, LogID)|
                SegmentOp::RemovePid {
                    idx: (loc.1 as int / io_buf_size as int) as usize,
                    pid,
                    lsn,
                },
        )
    } else {
        Seq::<SegmentOp>::empty()
    };
    let inserting = if u.update is Append && !known {
        Seq::<SegmentOp>::empty()
    } else {
        seq![SegmentOp::InsertPid { idx, pid, lsn }]
    };
    ops == r.ops + entering + moving_on + leaving + inserting
}

/// What a new record does to the segments, in this order. Its segment is made
/// to start at the multiple of the segment size at or before the record's
/// sequence number. If the record before it was in another segment, that one
/// becomes inactive, and drains if it is empty. If the record supersedes
/// fragments of its page, the page leaves each segment of these but this one.
/// At last the page is in this segment, unless the record was passed over.
pub proof fn law_a_record_changes_its_segments<P, R>(
    io_buf_size: usize,
    r: ReplayState<R>,
    record: LogRecord<P>,
    found: Option<R>,
)
    requires
        io_buf_size > 0,
        record.fits(io_buf_size),
        record.lsn > r.snapshot.max_lsn,
        record.update is Some,
    ensures
        changes_its_segments(
            io_buf_size,
            r,
            record,
            replay_record(io_buf_size, r, record, found).ops,
        ),
{
    let u = record.update->0;
    let pid = u.pid;
    let r1 = replay_record(io_buf_size, r, record, found);
    let idx = segment_of(record.lid, io_buf_size);
    let lsn = segment_lsn(record.lsn, io_buf_size);
    law_the_scan_begins_at_a_segment(record.lsn, io_buf_size);
    let at = positions(r.snapshot.pt, pid);
    lemma_every_other_segment_is_left(at, pid, idx, lsn, io_buf_size);
    let elsewhere = |loc: (Lsn, LogID)| segment_of(loc.1, io_buf_size) != idx;
    let elsewhere2 = |loc: (Lsn, LogID)| (loc.1 as int / io_buf_size as int) as usize != idx;
    let removal = |loc: (Lsn, LogID)|
        SegmentOp::RemovePid { idx: segment_of(loc.1, io_buf_size), pid, lsn };
    let removal2 = |loc: (Lsn, LogID)|
        SegmentOp::RemovePid { idx: (loc.1 as int / io_buf_size as int) as usize, pid, lsn };
    assert(elsewhere =~= elsewhere2);
    assert(removal =~= removal2);
    if !r.snapshot.pt.contains_key(pid) {
        reveal(Seq::filter);
        assert(at.filter(elsewhere).map_values(removal) =~= Seq::empty());
    }
    let entering = seq![SegmentOp::EnsureInitialized { idx, lsn }];
    let moving_on = match r.last_segment {
        Some(last) => if last == idx {
            Seq::<SegmentOp>::empty()
        } else {
            seq![
                SegmentOp::ActiveToInactive { idx: last, lsn },
                SegmentOp::DrainIfEmpty { idx: last, lsn },
            ]
        },
        None => Seq::<SegmentOp>::empty(),
    };
    let leaving = if r.snapshot.pt.contains_key(pid) && (u.update is Compact || u.update is Free) {
        at.filter(elsewhere2).map_values(removal2)
    } else {
        Seq::<SegmentOp>::empty()
    };
    let inserting = if u.update is Append && !r.snapshot.pt.contains_key(pid) {
        Seq::<SegmentOp>::empty()
    } else {
        seq![SegmentOp::InsertPid { idx, pid, lsn }]
    };
    assert(r1.ops =~= r.ops + entering + moving_on + leaving + inserting);
}

/// A replay of no records changes nothing, and a replay of one more record is
/// the replay of that record after the others.
pub proof fn law_records_are_replayed_one_after_the_other<P, R>(
    io_buf_size: usize,
    r: ReplayState<R>,
    records: Seq<LogRecord<P>>,
    found: Seq<Option<R>>,
    record: LogRecord<P>,
    answer: Option<R>,
)
    requires
        found.len() == records.len(),
    ensures
        replay_records(io_buf_size, r, Seq::<LogRecord<P>>::empty(), Seq::empty()) == r,
        replay_records(io_buf_size, r, records.push(record), found.push(answer)) == replay_record(
            io_buf_size,
            replay_records(io_buf_size, r, records, found),
            record,
            answer,
        ),
{
    assert(records.push(record).drop_last() =~= records);
    assert(found.push(answer).drop_last() =~= found);
}

/// The materializer is asked about every record in turn, each time with what
/// the snapshot knows by then.
pub proof fn law_answers_are_given_record_by_record<PM, P, R>(
    m: PM,
    io_buf_size: usize,
    r: ReplayState<R>,
    records: Seq<LogRecord<P>>,
    found: Seq<Option<R>>,
    i: int,
)
    where PM: Materializer<PageFrag = P, Recovery = R>
    requires
        asked_all(m, io_buf_size, r, records, found),
        0 <= i < records.len(),
    ensures
        found.len() == records.len(),
        asked(
            m,
            replay_records(io_buf_size, r, records.take(i), found.take(i)),
            records[i],
            found[i],
        ),
        asked_all(m, io_buf_size, r, records.take(i), found.take(i)),
    decreases records.len(),
{
    if i == records.len() - 1 {
        assert(records.take(i) =~= records.drop_last());
        assert(found.take(i) =~= found.drop_last());
    } else {
        law_answers_are_given_record_by_record(
            m,
            io_buf_size,
            r,
            records.drop_last(),
            found.drop_last(),
            i,
        );
        assert(records.drop_last().take(i) =~= records.take(i));
        assert(found.drop_last().take(i) =~= found.take(i));
    }
}

/// The record is new to a snapshot that ends at `max_lsn`, and about the page.
pub open spec fn tells_of<P>(record: LogRecord<P>, max_lsn: Lsn, pid: PageID) -> bool {
    &&& record.lsn > max_lsn
    &&& record.update matches Some(u)
    &&& u.pid == pid
}

/// The record says that the page is there from then on.
pub open spec fn begins<P>(record: LogRecord<P>, max_lsn: Lsn, pid: PageID) -> bool {
    &&& tells_of(record, max_lsn, pid)
    &&& record.update->0.update is Compact || record.update->0.update is Alloc
}

/// The record says that the page is there from then on, and empty.
pub open spec fn creates<P>(record: LogRecord<P>, max_lsn: Lsn, pid: PageID) -> bool {
    tells_of(record, max_lsn, pid) && record.update->0.update is Alloc
}

/// The record says that the page is gone.
pub open spec fn removes<P>(record: LogRecord<P>, max_lsn: Lsn, pid: PageID) -> bool {
    tells_of(record, max_lsn, pid) && record.update->0.update is Free
}

/// The record has a fragment of the page.
pub open spec fn contributes<P>(record: LogRecord<P>, max_lsn: Lsn, pid: PageID) -> bool {
    &&& tells_of(record, max_lsn, pid)
    &&& record.update->0.update is Compact || record.update->0.update is Append
}

/// The page is there after `records`, on top of a snapshot `s`: they begin it
/// and do not remove it after that, or it was there and they do not remove it.
pub open spec fn is_there<P, R>(
    s: SnapshotState<R>,
    records: Seq<LogRecord<P>>,
    pid: PageID,
) -> bool {
    ||| exists|k: int|
        {
            &&& 0 <= k < records.len()
            &&& begins(#[trigger] records[k], s.max_lsn, pid)
            &&& forall|j: int|
                k < j < records.len() ==> !removes(#[trigger] records[j], s.max_lsn, pid)
        }
    ||| {
        &&& s.pt.contains_key(pid)
        &&& forall|j: int|
            0 <= j < records.len() ==> !removes(#[trigger] records[j], s.max_lsn, pid)
    }
}

/// The identifier is free after `records`, on top of a snapshot `s`: they
/// remove its page and do not create it after that, or it was free and they do
/// not create it.
pub open spec fn is_free<P, R>(
    s: SnapshotState<R>,
    records: Seq<LogRecord<P>>,
    pid: PageID,
) -> bool {
    ||| exists|k: int|
        {
            &&& 0 <= k < records.len()
            &&& removes(#[trigger] records[k], s.max_lsn, pid)
            &&& forall|j: int|
                k < j < records.len() ==> !creates(#[trigger] records[j], s.max_lsn, pid)
        }
    ||| {
        &&& s.free.contains(pid)
        &&& forall|j: int|
            0 <= j < records.len() ==> !creates(#[trigger] records[j], s.max_lsn, pid)
    }
}

/// What goes before a record of an increasing log ends before it.
proof fn lemma_the_last_is_new<P, R>(
    io_buf_size: usize,
    r: ReplayState<R>,
    records: Seq<LogRecord<P>>,
    found: Seq<Option<R>>,
)
    requires
        increasing(records),
    ensures
        ({
            let after = replay_records(io_buf_size, r, records, found).snapshot;
            &&& after.max_lsn >= r.snapshot.max_lsn
            &&& after.max_lsn == r.snapshot.max_lsn || records.len() > 0 && after.max_lsn
                == records.last().lsn
            &&& records.len() > 0 ==> records.last().lsn <= after.max_lsn
        }),
    decreases records.len(),
{
    if records.len() > 0 {
        let before = records.drop_last();
        lemma_the_last_is_new(io_buf_size, r, before, found.drop_last());
        if before.len() > 0 {
            assert(before.last() == records[records.len() - 2]);
        }
    }
}

/// A snapshot that has caught up ends at the newest of the records, or where it
/// ended before if none is new.
pub proof fn law_the_snapshot_ends_at_the_newest_record<P, R>(
    io_buf_size: usize,
    r: ReplayState<R>,
    records: Seq<LogRecord<P>>,
    found: Seq<Option<R>>,
)
    ensures
        ({
            let end = replay_records(io_buf_size, r, records, found).snapshot.max_lsn;
            &&& end >= r.snapshot.max_lsn
            &&& forall|i: int| 0 <= i < records.len() ==> (#[trigger] records[i]).lsn <= end
            &&& end == r.snapshot.max_lsn || exists|i: int|
                0 <= i < records.len() && (#[trigger] records[i]).lsn == end
        }),
    decreases records.len(),
{
    if records.len() > 0 {
        let before = records.drop_last();
        law_the_snapshot_ends_at_the_newest_record(io_buf_size, r, before, found.drop_last());
        let mid = replay_records(io_buf_size, r, before, found.drop_last()).snapshot.max_lsn;
        let end = replay_records(io_buf_size, r, records, found).snapshot.max_lsn;
        assert forall|i: int| 0 <= i < records.len() implies (#[trigger] records[i]).lsn <= end by {
            if i < before.len() {
                assert(before[i] == records[i]);
            }
        }
        assert(records[records.len() - 1] == records.last());
        if mid != r.snapshot.max_lsn {
            let i = choose|i: int| 0 <= i < before.len() && (#[trigger] before[i]).lsn == mid;
            assert(records[i].lsn == mid);
        }
    }
}

/// A snapshot that has caught up has a page if and only if the log, on top of
/// what the snapshot had before, says that it is there; and it has an
/// identifier among the free ones if and only if the log says that it is free.
pub proof fn law_the_snapshot_has_the_pages_that_are_there<P, R>(
    io_buf_size: usize,
    r: ReplayState<R>,
    records: Seq<LogRecord<P>>,
    found: Seq<Option<R>>,
    pid: PageID,
)
    requires
        increasing(records),
    ensures
        ({
            let after = replay_records(io_buf_size, r, records, found).snapshot;
            &&& after.pt.contains_key(pid) <==> is_there(r.snapshot, records, pid)
            &&& after.free.contains(pid) <==> is_free(r.snapshot, records, pid)
        }),
    decreases records.len(),
{
    if records.len() > 0 {
        let rest = records.drop_last();
        let last = records.last();
        let n = records.len() as int;
        assert(records[n - 1] == last);
        law_the_snapshot_has_the_pages_that_are_there(
            io_buf_size,
            r,
            rest,
            found.drop_last(),
            pid,
        );
        lemma_the_last_is_new(io_buf_size, r, rest, found.drop_last());
        if n > 1 {
            assert(rest.last() == records[n - 2]);
        }
        let s = r.snapshot;
        let before = replay_records(io_buf_size, r, rest, found.drop_last());
        let after = replay_records(io_buf_size, r, records, found).snapshot;
        assert(last.lsn > s.max_lsn ==> last.lsn > before.snapshot.max_lsn);
        assert forall|i: int| 0 <= i < n - 1 implies rest[i] == records[i] by {}
        lemma_there_goes_on(s, records, pid);
        lemma_free_goes_on(s, records, pid);
        if last.lsn > s.max_lsn && last.update is Some {
            law_a_record_changes_its_page(io_buf_size, before, last, found.last());
            if last.update->0.pid != pid {
                assert(after.pt.remove(last.update->0.pid).contains_key(pid)
                    == before.snapshot.pt.remove(last.update->0.pid).contains_key(pid));
            }
        }
        if tells_of(last, s.max_lsn, pid) {
            match last.update->0.update {
                Update::Free => {
                    assert(after.free[before.snapshot.free.len() as int] == pid);
                },
                Update::Alloc => {
                    lemma_filtered(before.snapshot.free, pid, pid);
                },
                _ => {},
            }
        } else if last.lsn > s.max_lsn && last.update is Some {
            match last.update->0.update {
                Update::Free => {
                    if before.snapshot.free.contains(pid) {
                        let i = before.snapshot.free.index_of(pid);
                        assert(after.free[i] == pid);
                    }
                    if after.free.contains(pid) {
                        let i = after.free.index_of(pid);
                        assert(before.snapshot.free[i] == pid);
                    }
                },
                Update::Alloc => {
                    lemma_filtered(before.snapshot.free, last.update->0.pid, pid);
                },
                _ => {},
            }
        }
    }
}

/// Taking an identifier out leaves the others.
proof fn lemma_filtered(ids: Seq<PageID>, out: PageID, pid: PageID)
    ensures
        ids.filter(|q: PageID| q != out).contains(pid) <==> ids.contains(pid) && pid != out,
    decreases ids.len(),
{
    reveal(Seq::filter);
    let keep = |q: PageID| q != out;
    if ids.len() > 0 {
        let rest = ids.drop_last();
        let kept = rest.filter(keep);
        lemma_filtered(rest, out, pid);
        assert(ids[ids.len() - 1] == ids.last());
        if rest.contains(pid) {
            assert(ids[rest.index_of(pid)] == pid);
        }
        if ids.contains(pid) && pid != ids.last() {
            let i = ids.index_of(pid);
            assert(rest[i] == pid);
        }
        if keep(ids.last()) {
            let all = kept.push(ids.last());
            assert(all[kept.len() as int] == ids.last());
            if kept.contains(pid) {
                assert(all[kept.index_of(pid)] == pid);
            }
            if all.contains(pid) && pid != ids.last() {
                let i = all.index_of(pid);
                assert(kept[i] == pid);
            }
        }
    }
}

/// Whether a page is there after one more record.
proof fn lemma_there_goes_on<P, R>(
    s: SnapshotState<R>,
    records: Seq<LogRecord<P>>,
    pid: PageID,
)
    requires
        records.len() > 0,
    ensures
        is_there(s, records, pid) <==> begins(records.last(), s.max_lsn, pid) || is_there(
            s,
            records.drop_last(),
            pid,
        ) && !removes(records.last(), s.max_lsn, pid),
{
    let rest = records.drop_last();
    let n = records.len() as int;
    assert(records[n - 1] == records.last());
    assert forall|i: int| 0 <= i < n - 1 implies rest[i] == records[i] by {}
    if begins(records.last(), s.max_lsn, pid) {
        assert(begins(records[n - 1], s.max_lsn, pid));
    } else if is_there(s, rest, pid) && !removes(records.last(), s.max_lsn, pid) {
        if exists|k: int|
            {
                &&& 0 <= k < rest.len()
                &&& begins(#[trigger] rest[k], s.max_lsn, pid)
                &&& forall|j: int|
                    k < j < rest.len() ==> !removes(#[trigger] rest[j], s.max_lsn, pid)
            } {
            let k = choose|k: int|
                {
                    &&& 0 <= k < rest.len()
                    &&& begins(#[trigger] rest[k], s.max_lsn, pid)
                    &&& forall|j: int|
                        k < j < rest.len() ==> !removes(#[trigger] rest[j], s.max_lsn, pid)
                };
            assert(begins(records[k], s.max_lsn, pid));
            assert forall|j: int| k < j < n implies !removes(
                #[trigger] records[j],
                s.max_lsn,
                pid,
            ) by {
                if j < n - 1 {
                    assert(rest[j] == records[j]);
                }
            }
        } else {
            assert forall|j: int| 0 <= j < n implies !removes(
                #[trigger] records[j],
                s.max_lsn,
                pid,
            ) by {
                if j < n - 1 {
                    assert(rest[j] == records[j]);
                }
            }
        }
    } else if is_there(s, records, pid) {
        if exists|k: int|
            {
                &&& 0 <= k < n
                &&& begins(#[trigger] records[k], s.max_lsn, pid)
                &&& forall|j: int|
                    k < j < n ==> !removes(#[trigger] records[j], s.max_lsn, pid)
            } {
            let k = choose|k: int|
                {
                    &&& 0 <= k < n
                    &&& begins(#[trigger] records[k], s.max_lsn, pid)
                    &&& forall|j: int|
                        k < j < n ==> !removes(#[trigger] records[j], s.max_lsn, pid)
                };
            assert(k < n - 1);
            assert(begins(rest[k], s.max_lsn, pid));
            assert(!removes(records[n - 1], s.max_lsn, pid));
            assert forall|j: int| k < j < rest.len() implies !removes(
                #[trigger] rest[j],
                s.max_lsn,
                pid,
            ) by {
                assert(rest[j] == records[j]);
            }
        } else {
            assert(!removes(records[n - 1], s.max_lsn, pid));
            assert forall|j: int| 0 <= j < rest.len() implies !removes(
                #[trigger] rest[j],
                s.max_lsn,
                pid,
            ) by {
                assert(rest[j] == records[j]);
            }
        }
    }
}

/// Whether an identifier is free after one more record.
proof fn lemma_free_goes_on<P, R>(
    s: SnapshotState<R>,
    records: Seq<LogRecord<P>>,
    pid: PageID,
)
    requires
        records.len() > 0,
    ensures
        is_free(s, records, pid) <==> removes(records.last(), s.max_lsn, pid) || is_free(
            s,
            records.drop_last(),
            pid,
        ) && !creates(records.last(), s.max_lsn, pid),
{
    let rest = records.drop_last();
    let n = records.len() as int;
    assert(records[n - 1] == records.last());
    if removes(records.last(), s.max_lsn, pid) {
        assert(removes(records[n - 1], s.max_lsn, pid));
    } else if is_free(s, rest, pid) && !creates(records.last(), s.max_lsn, pid) {
        if exists|k: int|
            {
                &&& 0 <= k < rest.len()
                &&& removes(#[trigger] rest[k], s.max_lsn, pid)
                &&& forall|j: int|
                    k < j < rest.len() ==> !creates(#[trigger] rest[j], s.max_lsn, pid)
            } {
            let k = choose|k: int|
                {
                    &&& 0 <= k < rest.len()
                    &&& removes(#[trigger] rest[k], s.max_lsn, pid)
                    &&& forall|j: int|
                        k < j < rest.len() ==> !creates(#[trigger] rest[j], s.max_lsn, pid)
                };
            assert(removes(records[k], s.max_lsn, pid));
            assert forall|j: int| k < j < n implies !creates(
                #[trigger] records[j],
                s.max_lsn,
                pid,
            ) by {
                if j < n - 1 {
                    assert(rest[j] == records[j]);
                }
            }
        } else {
            assert forall|j: int| 0 <= j < n implies !creates(
                #[trigger] records[j],
                s.max_lsn,
                pid,
            ) by {
                if j < n - 1 {
                    assert(rest[j] == records[j]);
                }
            }
        }
    } else if is_free(s, records, pid) {
        if exists|k: int|
            {
                &&& 0 <= k < n
                &&& removes(#[trigger] records[k], s.max_lsn, pid)
                &&& forall|j: int|
                    k < j < n ==> !creates(#[trigger] records[j], s.max_lsn, pid)
            } {
            let k = choose|k: int|
                {
                    &&& 0 <= k < n
                    &&& removes(#[trigger] records[k], s.max_lsn, pid)
                    &&& forall|j: int|
                        k < j < n ==> !creates(#[trigger] records[j], s.max_lsn, pid)
                };
            assert(k < n - 1);
            assert(removes(rest[k], s.max_lsn, pid));
            assert(!creates(records[n - 1], s.max_lsn, pid));
            assert forall|j: int| k < j < rest.len() implies !creates(
                #[trigger] rest[j],
                s.max_lsn,
                pid,
            ) by {
                assert(rest[j] == records[j]);
            }
        } else {
            assert(!creates(records[n - 1], s.max_lsn, pid));
            assert forall|j: int| 0 <= j < rest.len() implies !creates(
                #[trigger] rest[j],
                s.max_lsn,
                pid,
            ) by {
                assert(rest[j] == records[j]);
            }
        }
    }
}

/// The position is that of a fragment that `records` have of the page from the
/// place `from` on.
pub open spec fn contributed<P>(
    loc: (Lsn, LogID),
    records: Seq<LogRecord<P>>,
    from: int,
    max_lsn: Lsn,
    pid: PageID,
) -> bool {
    exists|k: int|
        {
            &&& from <= k < records.len()
            &&& contributes(#[trigger] records[k], max_lsn, pid)
            &&& loc == (records[k].lsn, records[k].lid)
        }
}

/// `at` has the positions of the fragments that `records` have of the page from
/// the place `from` on, all of them and nothing else, in the order of the log.
pub open spec fn lists_contributions<P>(
    at: Seq<(Lsn, LogID)>,
    records: Seq<LogRecord<P>>,
    from: int,
    max_lsn: Lsn,
    pid: PageID,
) -> bool {
    &&& forall|i: int, j: int| 0 <= i < j < at.len() ==> (#[trigger] at[i]).0 < (#[trigger] at[j]).0
    &&& forall|k: int|
        from <= k < records.len() && contributes(#[trigger] records[k], max_lsn, pid)
            ==> at.contains((records[k].lsn, records[k].lid))
    &&& forall|i: int|
        0 <= i < at.len() ==> contributed(#[trigger] at[i], records, from, max_lsn, pid)
}

/// One more record contributes one more position, or none.
proof fn lemma_one_more_contribution<P>(
    at: Seq<(Lsn, LogID)>,
    records: Seq<LogRecord<P>>,
    from: int,
    max_lsn: Lsn,
    pid: PageID,
)
    requires
        increasing(records),
        0 <= from < records.len(),
        lists_contributions(at, records.drop_last(), from, max_lsn, pid),
    ensures
        contributes(records.last(), max_lsn, pid) ==> lists_contributions(
            at.push((records.last().lsn, records.last().lid)),
            records,
            from,
            max_lsn,
            pid,
        ),
        !contributes(records.last(), max_lsn, pid) ==> lists_contributions(
            at,
            records,
            from,
            max_lsn,
            pid,
        ),
{
    let rest = records.drop_last();
    let n = records.len() as int;
    let last = records.last();
    assert(records[n - 1] == last);
    let more = if contributes(last, max_lsn, pid) {
        at.push((last.lsn, last.lid))
    } else {
        at
    };
    assert forall|i: int| 0 <= i < at.len() implies contributed(
        #[trigger] at[i],
        records,
        from,
        max_lsn,
        pid,
    ) && at[i].0 < last.lsn by {
        assert(contributed(at[i], rest, from, max_lsn, pid));
        let k = choose|k: int|
            {
                &&& from <= k < rest.len()
                &&& contributes(#[trigger] rest[k], max_lsn, pid)
                &&& at[i] == (rest[k].lsn, rest[k].lid)
            };
        assert(contributes(records[k], max_lsn, pid));
        assert(records[k].lsn < records[n - 1].lsn);
    }
    assert forall|i: int, j: int| 0 <= i < j < more.len() implies (#[trigger] more[i]).0 < (
    #[trigger] more[j]).0 by {
        assert(at[i] == more[i]);
        if j < at.len() {
            assert(at[j] == more[j]);
        }
    }
    assert forall|k: int|
        from <= k < n && contributes(#[trigger] records[k], max_lsn, pid) implies more.contains(
        (records[k].lsn, records[k].lid),
    ) by {
        let loc = (records[k].lsn, records[k].lid);
        if k < n - 1 {
            assert(rest[k] == records[k]);
            assert(at.contains(loc));
            assert(more[at.index_of(loc)] == loc);
        } else {
            assert(more[at.len() as int] == loc);
        }
    }
    assert forall|i: int| 0 <= i < more.len() implies contributed(
        #[trigger] more[i],
        records,
        from,
        max_lsn,
        pid,
    ) by {
        if i < at.len() {
            assert(at[i] == more[i]);
        } else {
            assert(contributes(records[n - 1], max_lsn, pid));
        }
    }
}

/// A page that is known and of which the rest of the log has additions only
/// has these behind what was known of it.
proof fn lemma_additions_go_behind<P, R>(
    io_buf_size: usize,
    r: ReplayState<R>,
    records: Seq<LogRecord<P>>,
    found: Seq<Option<R>>,
    pid: PageID,
    from: int,
)
    requires
        increasing(records),
        found.len() == records.len(),
        0 <= from <= records.len(),
        replay_records(
            io_buf_size,
            r,
            records.take(from),
            found.take(from),
        ).snapshot.pt.contains_key(pid),
        forall|j: int|
            from <= j < records.len() ==> !begins(#[trigger] records[j], r.snapshot.max_lsn, pid)
                && !removes(records[j], r.snapshot.max_lsn, pid),
    ensures
        ({
            let base = replay_records(
                io_buf_size,
                r,
                records.take(from),
                found.take(from),
            ).snapshot.pt[pid];
            let after = replay_records(io_buf_size, r, records, found).snapshot;
            &&& after.pt.contains_key(pid)
            &&& after.pt[pid].len() >= base.len()
            &&& after.pt[pid].take(base.len() as int) == base
            &&& lists_contributions(
                after.pt[pid].skip(base.len() as int),
                records,
                from,
                r.snapshot.max_lsn,
                pid,
            )
        }),
    decreases records.len(),
{
    let max_lsn = r.snapshot.max_lsn;
    let mid = replay_records(io_buf_size, r, records.take(from), found.take(from)).snapshot;
    let base = mid.pt[pid];
    let after = replay_records(io_buf_size, r, records, found).snapshot;
    if from == records.len() {
        assert(records.take(from) =~= records);
        assert(found.take(from) =~= found);
        assert(after.pt[pid].take(base.len() as int) =~= base);
        assert(after.pt[pid].skip(base.len() as int).len() == 0);
    } else {
        let rest = records.drop_last();
        let last = records.last();
        let n = records.len() as int;
        assert(records[n - 1] == last);
        assert(rest.take(from) =~= records.take(from));
        assert(found.drop_last().take(from) =~= found.take(from));
        assert forall|j: int| from <= j < rest.len() implies !begins(
            #[trigger] rest[j],
            max_lsn,
            pid,
        ) && !removes(rest[j], max_lsn, pid) by {
            assert(rest[j] == records[j]);
        }
        lemma_additions_go_behind(io_buf_size, r, rest, found.drop_last(), pid, from);
        lemma_the_last_is_new(io_buf_size, r, rest, found.drop_last());
        if n > 1 {
            assert(rest.last() == records[n - 2]);
        }
        let before = replay_records(io_buf_size, r, rest, found.drop_last());
        let at = before.snapshot.pt[pid].skip(base.len() as int);
        lemma_one_more_contribution(at, records, from, max_lsn, pid);
        if last.lsn > max_lsn && last.update is Some {
            law_a_record_changes_its_page(io_buf_size, before, last, found.last());
            if last.update->0.pid != pid {
                assert(after.pt.remove(last.update->0.pid).contains_key(pid));
                assert(after.pt.remove(last.update->0.pid)[pid] == before.snapshot.pt.remove(
                    last.update->0.pid,
                )[pid]);
            } else {
                assert(last.update->0.update is Append);
                assert(after.pt[pid].take(base.len() as int) =~= before.snapshot.pt[pid].take(
                    base.len() as int,
                ));
                assert(after.pt[pid].skip(base.len() as int) =~= at.push((last.lsn, last.lid)));
            }
        }
    }
}

/// What a snapshot has of a page whose history begins with the record `k` and
/// goes on after that without a new beginning: the position of every record
/// from then on that has a fragment of the page, in the order of the log, and
/// nothing else.
pub proof fn law_the_snapshot_has_every_fragment_since_the_beginning<PM, P, R>(
    m: PM,
    io_buf_size: usize,
    s: SnapshotState<R>,
    records: Seq<LogRecord<P>>,
    stop_lsn: Lsn,
    r: ReplayState<R>,
    pid: PageID,
    k: int,
)
    where PM: Materializer<PageFrag = P, Recovery = R>
    requires
        increasing(records),
        replays(m, io_buf_size, s, records, stop_lsn, r),
        0 <= k < stable_len(records, stop_lsn),
        begins(records[k], s.max_lsn, pid),
        forall|j: int|
            k < j < stable_len(records, stop_lsn) ==> !begins(
                #[trigger] records[j],
                s.max_lsn,
                pid,
            ) && !removes(records[j], s.max_lsn, pid),
    ensures
        r.snapshot.pt.contains_key(pid),
        lists_contributions(
            r.snapshot.pt[pid],
            records.take(stable_len(records, stop_lsn) as int),
            k,
            s.max_lsn,
            pid,
        ),
{
    lemma_stable_len(records, stop_lsn);
    let stable = records.take(stable_len(records, stop_lsn) as int);
    let start = replay_start(s);
    let found = choose|found: Seq<Option<R>>|
        {
            &&& #[trigger] asked_all(m, io_buf_size, start, stable, found)
            &&& ends_in(replay_records(io_buf_size, start, stable, found), r)
        };
    let some = stable.take(k + 1);
    let some_found = found.take(k + 1);
    let before = replay_records(io_buf_size, start, some.drop_last(), some_found.drop_last());
    assert forall|i: int, j: int| 0 <= i < j < some.len() implies (#[trigger] some[i]).lsn < (
    #[trigger] some[j]).lsn by {
        assert(some[i] == records[i] && some[j] == records[j]);
    }
    assert(some.last() == records[k]);
    lemma_the_last_is_new(io_buf_size, start, some.drop_last(), some_found.drop_last());
    if k > 0 {
        assert(some.drop_last().last() == records[k - 1]);
        assert(records[k - 1].lsn < records[k].lsn);
    }
    law_a_record_changes_its_page(io_buf_size, before, records[k], some_found.last());
    let mid = replay_records(io_buf_size, start, some, some_found).snapshot;
    let base = mid.pt[pid];
    lemma_additions_go_behind(io_buf_size, start, stable, found, pid, k + 1);
    let at = r.snapshot.pt[pid];
    let rest = at.skip(base.len() as int);
    assert(at =~= base + rest);
    assert(stable[k] == records[k]);
    if records[k].update->0.update is Compact {
        let loc = (records[k].lsn, records[k].lid);
        assert(at[0] == base[0] && base[0] == loc);
        assert forall|i: int| 0 < i < at.len() implies contributed(
            #[trigger] at[i],
            stable,
            k,
            s.max_lsn,
            pid,
        ) && loc.0 < at[i].0 by {
            assert(rest[i - 1] == at[i]);
            let j = choose|j: int|
                {
                    &&& k < j < stable.len()
                    &&& contributes(#[trigger] stable[j], s.max_lsn, pid)
                    &&& at[i] == (stable[j].lsn, stable[j].lid)
                };
            assert(records[k].lsn < records[j].lsn);
        }
        assert(contributes(stable[k], s.max_lsn, pid));
        assert forall|i: int, j: int| 0 <= i < j < at.len() implies (#[trigger] at[i]).0 < (
        #[trigger] at[j]).0 by {
            if i > 0 {
                assert(rest[i - 1] == at[i] && rest[j - 1] == at[j]);
            }
        }
        assert forall|j: int|
            k <= j < stable.len() && contributes(
                #[trigger] stable[j],
                s.max_lsn,
                pid,
            ) implies at.contains((stable[j].lsn, stable[j].lid)) by {
            if j > k {
                let l = rest.index_of((stable[j].lsn, stable[j].lid));
                assert(at[l + 1] == (stable[j].lsn, stable[j].lid));
            }
        }
    } else {
        assert(at =~= rest);
        assert(!contributes(stable[k], s.max_lsn, pid));
        assert forall|i: int| 0 <= i < at.len() implies contributed(
            #[trigger] at[i],
            stable,
            k,
            s.max_lsn,
            pid,
        ) by {
            assert(contributed(rest[i], stable, k + 1, s.max_lsn, pid));
        }
    }
}

/// What a snapshot has of a page that it knew before, and of which the log has
/// neither a new beginning nor the removal: what it had, and behind that the
/// position of every new record that has a fragment of the page, in the order
/// of the log, and nothing else.
pub proof fn law_the_snapshot_builds_on_what_it_had<PM, P, R>(
    m: PM,
    io_buf_size: usize,
    s: SnapshotState<R>,
    records: Seq<LogRecord<P>>,
    stop_lsn: Lsn,
    r: ReplayState<R>,
    pid: PageID,
)
    where PM: Materializer<PageFrag = P, Recovery = R>
    requires
        increasing(records),
        replays(m, io_buf_size, s, records, stop_lsn, r),
        s.pt.contains_key(pid),
        forall|j: int|
            0 <= j < stable_len(records, stop_lsn) ==> !begins(
                #[trigger] records[j],
                s.max_lsn,
                pid,
            ) && !removes(records[j], s.max_lsn, pid),
    ensures
        r.snapshot.pt.contains_key(pid),
        r.snapshot.pt[pid].len() >= s.pt[pid].len(),
        r.snapshot.pt[pid].take(s.pt[pid].len() as int) == s.pt[pid],
        lists_contributions(
            r.snapshot.pt[pid].skip(s.pt[pid].len() as int),
            records.take(stable_len(records, stop_lsn) as int),
            0,
            s.max_lsn,
            pid,
        ),
{
    lemma_stable_len(records, stop_lsn);
    let stable = records.take(stable_len(records, stop_lsn) as int);
    let start = replay_start(s);
    let found = choose|found: Seq<Option<R>>|
        {
            &&& #[trigger] asked_all(m, io_buf_size, start, stable, found)
            &&& ends_in(replay_records(io_buf_size, start, stable, found), r)
        };
    assert(stable.take(0) =~= Seq::empty());
    lemma_additions_go_behind(io_buf_size, start, stable, found, pid, 0);
}

/// The answer for the record `i`: what the materializer gives for its fragment
/// if the record is new and begins a page's history or adds to a page that is
/// there by then, and `None` if the materializer is not asked.
pub open spec fn is_answer<PM: Materializer>(
    m: PM,
    s: SnapshotState<PM::Recovery>,
    records: Seq<LogRecord<PM::PageFrag>>,
    i: int,
    answer: Option<PM::Recovery>,
) -> bool {
    match records[i].update {
        Some(u) => match u.update {
            Update::Compact(frag) => if records[i].lsn > s.max_lsn {
                call_ensures(PM::recover, (&m, &frag), answer)
            } else {
                answer is None
            },
            Update::Append(frag) => if records[i].lsn > s.max_lsn && is_there(
                s,
                records.take(i),
                u.pid,
            ) {
                call_ensures(PM::recover, (&m, &frag), answer)
            } else {
                answer is None
            },
            _ => answer is None,
        },
        None => answer is None,
    }
}

/// `kept` is the last of the answers that is one, or what there was before if
/// none is.
pub open spec fn is_newest_answer<R>(
    before: Option<R>,
    answers: Seq<Option<R>>,
    kept: Option<R>,
) -> bool {
    ||| exists|i: int|
        {
            &&& 0 <= i < answers.len()
            &&& (#[trigger] answers[i]) is Some
            &&& kept == answers[i]
            &&& forall|j: int| i < j < answers.len() ==> (#[trigger] answers[j]) is None
        }
    ||| {
        &&& kept == before
        &&& forall|j: int| 0 <= j < answers.len() ==> (#[trigger] answers[j]) is None
    }
}

/// A replay keeps the newest answer.
proof fn lemma_the_newest_answer_is_kept<PM, P, R>(
    m: PM,
    io_buf_size: usize,
    r: ReplayState<R>,
    records: Seq<LogRecord<P>>,
    found: Seq<Option<R>>,
)
    where PM: Materializer<PageFrag = P, Recovery = R>
    requires
        asked_all(m, io_buf_size, r, records, found),
    ensures
        is_newest_answer(
            r.snapshot.recovery,
            found,
            replay_records(io_buf_size, r, records, found).snapshot.recovery,
        ),
    decreases records.len(),
{
    if records.len() > 0 {
        let rest = found.drop_last();
        let n = found.len() as int;
        let before = replay_records(io_buf_size, r, records.drop_last(), rest);
        lemma_the_newest_answer_is_kept(m, io_buf_size, r, records.drop_last(), rest);
        law_when_the_materializer_is_asked(m, before, records.last(), found.last());
        if records.last().lsn > before.snapshot.max_lsn && records.last().update is Some {
            law_a_record_changes_its_page(io_buf_size, before, records.last(), found.last());
        }
        assert(found[n - 1] == found.last());
        if found.last() is None {
            if exists|i: int|
                {
                    &&& 0 <= i < rest.len()
                    &&& (#[trigger] rest[i]) is Some
                    &&& before.snapshot.recovery == rest[i]
                    &&& forall|j: int| i < j < rest.len() ==> (#[trigger] rest[j]) is None
                } {
                let i = choose|i: int|
                    {
                        &&& 0 <= i < rest.len()
                        &&& (#[trigger] rest[i]) is Some
                        &&& before.snapshot.recovery == rest[i]
                        &&& forall|j: int| i < j < rest.len() ==> (#[trigger] rest[j]) is None
                    };
                assert(found[i] is Some);
                assert forall|j: int| i < j < n implies (#[trigger] found[j]) is None by {
                    if j < n - 1 {
                        assert(rest[j] is None);
                    }
                }
            } else {
                assert forall|j: int| 0 <= j < n implies (#[trigger] found[j]) is None by {
                    if j < n - 1 {
                        assert(rest[j] is None);
                    }
                }
            }
        }
    }
}

/// What the owner of the pages gets back is what the materializer has
/// recovered last: from the newest of the stable records that it was asked
/// about and gave an answer for. It is what the snapshot had before if and only
/// if there was no such answer.
pub proof fn law_the_newest_answer_is_given_back<PM, P, R>(
    m: PM,
    io_buf_size: usize,
    s: SnapshotState<R>,
    records: Seq<LogRecord<P>>,
    stop_lsn: Lsn,
    r: ReplayState<R>,
)
    where PM: Materializer<PageFrag = P, Recovery = R>
    requires
        increasing(records),
        replays(m, io_buf_size, s, records, stop_lsn, r),
    ensures
        exists|answers: Seq<Option<R>>|
            {
                &&& answers.len() == stable_len(records, stop_lsn)
                &&& forall|i: int|
                    0 <= i < answers.len() ==> is_answer(m, s, records, i, #[trigger] answers[i])
                &&& #[trigger] is_newest_answer(s.recovery, answers, r.snapshot.recovery)
            },
{
    lemma_stable_len(records, stop_lsn);
    let stable = records.take(stable_len(records, stop_lsn) as int);
    let start = replay_start(s);
    let found = choose|found: Seq<Option<R>>|
        {
            &&& #[trigger] asked_all(m, io_buf_size, start, stable, found)
            &&& ends_in(replay_records(io_buf_size, start, stable, found), r)
        };
    lemma_the_newest_answer_is_kept(m, io_buf_size, start, stable, found);
    assert forall|i: int| 0 <= i < found.len() implies is_answer(
        m,
        s,
        records,
        i,
        #[trigger] found[i],
    ) by {
        law_answers_are_given_record_by_record(m, io_buf_size, start, stable, found, i);
        let some = stable.take(i);
        let before = replay_records(io_buf_size, start, some, found.take(i));
        law_when_the_materializer_is_asked(m, before, stable[i], found[i]);
        assert(some =~= records.take(i));
        assert(stable[i] == records[i]);
        assert forall|j: int, l: int| 0 <= j < l < some.len() implies (#[trigger] some[j]).lsn < (
        #[trigger] some[l]).lsn by {
            assert(some[j] == records[j] && some[l] == records[l]);
        }
        lemma_the_last_is_new(io_buf_size, start, some, found.take(i));
        if i > 0 {
            assert(some.last() == records[i - 1]);
            assert(records[i - 1].lsn < records[i].lsn);
        }
        if records[i].update is Some {
            law_the_snapshot_has_the_pages_that_are_there(
                io_buf_size,
                start,
                some,
                found.take(i),
                records[i].update->0.pid,
            );
        }
    }
    assert(is_newest_answer(s.recovery, found, r.snapshot.recovery));
}

/// The snapshot knows the segments and identifiers of all new records, and no
/// more than these make it know.
pub open spec fn counts_segments_and_identifiers<P, R>(
    io_buf_size: usize,
    s: SnapshotState<R>,
    records: Seq<LogRecord<P>>,
    after: SnapshotState<R>,
) -> bool {
    let size = io_buf_size as int;
    &&& after.segments >= s.segments
    &&& forall|i: int|
        0 <= i < records.len() && (#[trigger] records[i]).lsn > s.max_lsn
            ==> records[i].lid as int / size < after.segments
    &&& after.segments == s.segments || exists|i: int|
        {
            &&& 0 <= i < records.len()
            &&& (#[trigger] records[i]).lsn > s.max_lsn
            &&& after.segments == records[i].lid as int / size + 1
        }
    &&& after.max_pid >= s.max_pid
    &&& forall|i: int|
        0 <= i < records.len() && (#[trigger] records[i]).lsn > s.max_lsn
            && records[i].update is Some ==> records[i].update->0.pid < after.max_pid
    &&& after.max_pid == s.max_pid || exists|i: int|
        {
            &&& 0 <= i < records.len()
            &&& (#[trigger] records[i]).lsn > s.max_lsn
            &&& records[i].update is Some
            &&& after.max_pid == records[i].update->0.pid + 1
        }
}

/// The number of segments and the smallest identifier never used are as large
/// as the new records make them, and no larger.
pub proof fn law_the_snapshot_counts_segments_and_identifiers<P, R>(
    io_buf_size: usize,
    r: ReplayState<R>,
    records: Seq<LogRecord<P>>,
    found: Seq<Option<R>>,
)
    requires
        io_buf_size > 0,
        increasing(records),
        forall|i: int| 0 <= i < records.len() ==> (#[trigger] records[i]).fits(io_buf_size),
    ensures
        counts_segments_and_identifiers(
            io_buf_size,
            r.snapshot,
            records,
            replay_records(io_buf_size, r, records, found).snapshot,
        ),
    decreases records.len(),
{
    if records.len() > 0 {
        let rest = records.drop_last();
        let n = records.len() as int;
        let last = records.last();
        let s = r.snapshot;
        let size = io_buf_size as int;
        assert(records[n - 1] == last);
        assert forall|i: int| 0 <= i < rest.len() implies (#[trigger] rest[i]).fits(
            io_buf_size,
        ) by {
            assert(rest[i] == records[i]);
        }
        law_the_snapshot_counts_segments_and_identifiers(
            io_buf_size,
            r,
            rest,
            found.drop_last(),
        );
        lemma_the_last_is_new(io_buf_size, r, rest, found.drop_last());
        if n > 1 {
            assert(rest.last() == records[n - 2]);
        }
        let before = replay_records(io_buf_size, r, rest, found.drop_last());
        let after = replay_records(io_buf_size, r, records, found).snapshot;
        law_the_snapshot_moves_on_to_the_record(io_buf_size, before, last, found.last());
        if last.lsn > s.max_lsn && last.update is Some {
            law_a_record_changes_its_page(io_buf_size, before, last, found.last());
        }
        assert forall|i: int| 0 <= i < n && (#[trigger] records[i]).lsn > s.max_lsn implies {
            &&& records[i].lid as int / size < after.segments
            &&& records[i].update is Some ==> records[i].update->0.pid < after.max_pid
        } by {
            if i < n - 1 {
                assert(rest[i] == records[i]);
            }
        }
        if after.segments != s.segments && after.segments == before.snapshot.segments {
            let i = choose|i: int|
                {
                    &&& 0 <= i < rest.len()
                    &&& (#[trigger] rest[i]).lsn > s.max_lsn
                    &&& before.snapshot.segments == rest[i].lid as int / size + 1
                };
            assert(records[i].lsn > s.max_lsn);
        }
        if after.max_pid != s.max_pid && after.max_pid == before.snapshot.max_pid {
            let i = choose|i: int|
                {
                    &&& 0 <= i < rest.len()
                    &&& (#[trigger] rest[i]).lsn > s.max_lsn
                    &&& rest[i].update is Some
                    &&& before.snapshot.max_pid == rest[i].update->0.pid + 1
                };
            assert(records[i].lsn > s.max_lsn);
        }
    }
}

/// The snapshot has every stable record of the log in itself, and no other.
pub open spec fn has_the_stable_log<P, R>(
    s: SnapshotState<R>,
    records: Seq<LogRecord<P>>,
    stop_lsn: Lsn,
    after: SnapshotState<R>,
) -> bool {
    let stable = records.take(stable_len(records, stop_lsn) as int);
    &&& after.max_lsn >= s.max_lsn
    &&& forall|i: int|
        0 <= i < records.len() && (stop_lsn == 0 || (#[trigger] records[i]).lsn <= stop_lsn)
            ==> records[i].lsn <= after.max_lsn
    &&& after.max_lsn == s.max_lsn || exists|i: int|
        {
            &&& 0 <= i < records.len()
            &&& stop_lsn == 0 || records[i].lsn <= stop_lsn
            &&& (#[trigger] records[i]).lsn == after.max_lsn
        }
    &&& forall|pid: PageID| #[trigger]
        after.pt.contains_key(pid) <==> is_there(s, stable, pid)
    &&& forall|pid: PageID| #[trigger]
        after.free.contains(pid) <==> is_free(s, stable, pid)
    &&& forall|i: int, j: int|
        0 <= i < j < after.free.len() ==> after.free[i] >= after.free[j]
}

/// A snapshot that has caught up with a log has every stable record of it in
/// itself, and no other. It ends at the newest of these; it has the pages that
/// are there after them; and the identifiers that are free after them are
/// listed, the largest first.
pub proof fn law_catching_up_takes_in_the_stable_log<PM, P, R>(
    m: PM,
    io_buf_size: usize,
    s: SnapshotState<R>,
    records: Seq<LogRecord<P>>,
    stop_lsn: Lsn,
    r: ReplayState<R>,
)
    where PM: Materializer<PageFrag = P, Recovery = R>
    requires
        increasing(records),
        replays(m, io_buf_size, s, records, stop_lsn, r),
    ensures
        has_the_stable_log(s, records, stop_lsn, r.snapshot),
{
    law_every_stable_record_is_taken_in(records, stop_lsn);
    lemma_stable_len(records, stop_lsn);
    let n = stable_len(records, stop_lsn) as int;
    let stable = records.take(n);
    let start = replay_start(s);
    let found = choose|found: Seq<Option<R>>|
        {
            &&& #[trigger] asked_all(m, io_buf_size, start, stable, found)
            &&& ends_in(replay_records(io_buf_size, start, stable, found), r)
        };
    let unsorted = replay_records(io_buf_size, start, stable, found).snapshot;
    law_the_snapshot_ends_at_the_newest_record(io_buf_size, start, stable, found);
    assert forall|i: int|
        0 <= i < records.len() && (stop_lsn == 0 || (#[trigger] records[i]).lsn
            <= stop_lsn) implies records[i].lsn <= r.snapshot.max_lsn by {
        assert(stable[i] == records[i]);
    }
    if r.snapshot.max_lsn != s.max_lsn {
        let i = choose|i: int|
            0 <= i < stable.len() && (#[trigger] stable[i]).lsn == unsorted.max_lsn;
        assert(records[i].lsn == r.snapshot.max_lsn);
    }
    assert forall|pid: PageID|
        (#[trigger] r.snapshot.pt.contains_key(pid) <==> is_there(s, stable, pid)) && (
        r.snapshot.free.contains(pid) <==> is_free(s, stable, pid)) by {
        law_the_snapshot_has_the_pages_that_are_there(io_buf_size, start, stable, found, pid);
        vstd::seq_lib::to_multiset_contains(unsorted.free, pid);
        vstd::seq_lib::to_multiset_contains(r.snapshot.free, pid);
    }
    assert forall|pid: PageID| #[trigger] r.snapshot.free.contains(pid) <==> is_free(
        s,
        stable,
        pid,
    ) by {
        assert(r.snapshot.pt.contains_key(pid) <==> is_there(s, stable, pid));
    }
}

/// Identifiers that are sorted are the same, each as often, and no smaller one
/// comes before a larger one.
pub proof fn law_sorting_puts_the_largest_first(ids: Seq<PageID>, sorted: Seq<PageID>)
    ensures
        sorts(ids, sorted) <==> {
            &&& ids.to_multiset() == sorted.to_multiset()
            &&& forall|i: int, j: int| 0 <= i < j < sorted.len() ==> sorted[i] >= sorted[j]
        },
{
}

/// A record can be taken in if its page's identifier has a successor and its
/// segment can be counted.
pub proof fn law_which_records_can_be_taken_in<P>(record: LogRecord<P>, io_buf_size: usize)
    requires
        io_buf_size > 0,
    ensures
        record.fits(io_buf_size) <==> {
            &&& record.lid <= usize::MAX
            &&& record.lid as int / io_buf_size as int + 1 <= usize::MAX
            &&& record.update is Some ==> record.update->0.pid + 1 <= usize::MAX
        },
{
}

/// So does a snapshot that has caught up with a log.
pub proof fn law_catching_up_counts_segments_and_identifiers<PM, P, R>(
    m: PM,
    io_buf_size: usize,
    s: SnapshotState<R>,
    records: Seq<LogRecord<P>>,
    stop_lsn: Lsn,
    r: ReplayState<R>,
)
    where PM: Materializer<PageFrag = P, Recovery = R>
    requires
        io_buf_size > 0,
        increasing(records),
        forall|i: int|
            0 <= i < stable_len(records, stop_lsn) ==> (#[trigger] records[i]).fits(io_buf_size),
        replays(m, io_buf_size, s, records, stop_lsn, r),
    ensures
        counts_segments_and_identifiers(
            io_buf_size,
            s,
            records.take(stable_len(records, stop_lsn) as int),
            r.snapshot,
        ),
{
    lemma_stable_len(records, stop_lsn);
    let stable = records.take(stable_len(records, stop_lsn) as int);
    let start = replay_start(s);
    let found = choose|found: Seq<Option<R>>|
        {
            &&& #[trigger] asked_all(m, io_buf_size, start, stable, found)
            &&& ends_in(replay_records(io_buf_size, start, stable, found), r)
        };
    law_the_snapshot_counts_segments_and_identifiers(io_buf_size, start, stable, found);
}

} // verus!
