//! Snapshots of the page table, and how they catch up with the log.

use crate::id_map::IdMap;
use crate::materializer::{recovers, Materializer};
use crate::types::{LogID, LoggedUpdate, Lsn, PageID, Update};
use vstd::prelude::*;

verus! {

/// The state of the page table up to a log sequence number.
pub struct Snapshot<R> {
    /// The sequence number of the last record that the snapshot takes in.
    pub max_lsn: Lsn,
    /// One more than the largest page identifier seen.
    pub max_pid: PageID,
    /// For each page the log positions of its fragments, oldest first.
    pub pt: IdMap<Vec<(Lsn, LogID)>>,
    /// The identifiers of freed pages.
    pub free: Vec<PageID>,
    /// What the owner of the pages is given back by recovery.
    pub recovery: Option<R>,
    /// How many segments of the log the snapshot knows of.
    pub segments: usize,
}

/// What a [`Snapshot`] is, as a mathematical value.
#[verifier::ext_equal]
pub struct SnapshotState<R> {
    pub max_lsn: Lsn,
    pub max_pid: PageID,
    pub pt: Map<PageID, Seq<(Lsn, LogID)>>,
    pub free: Seq<PageID>,
    pub recovery: Option<R>,
    pub segments: usize,
}

impl<R> View for Snapshot<R> {
    type V = SnapshotState<R>;

    open spec fn view(&self) -> SnapshotState<R> {
        SnapshotState {
            max_lsn: self.max_lsn,
            max_pid: self.max_pid,
            pt: self.pt@.map_values(|at: Vec<(Lsn, LogID)>| at@),
            free: self.free@,
            recovery: self.recovery,
            segments: self.segments,
        }
    }
}

impl<R> SnapshotState<R> {
    /// The snapshot that no record has gone into.
    pub open spec fn empty() -> Self {
        SnapshotState {
            max_lsn: 0,
            max_pid: 0,
            pt: Map::empty(),
            free: Seq::empty(),
            recovery: None,
            segments: 0,
        }
    }
}

impl<R> Snapshot<R> {
    /// The snapshot that no record has gone into.
    pub fn new() -> (r: Snapshot<R>)
        ensures
            r@ == SnapshotState::<R>::empty(),
    {
        let r = Snapshot {
            max_lsn: 0,
            max_pid: 0,
            pt: IdMap::new(),
            free: Vec::new(),
            recovery: None,
            segments: 0,
        };
        assert(r@.pt =~= Map::empty());
        r
    }
}

/// A record of the log, in the order of the log.
pub struct LogRecord<P> {
    pub lsn: Lsn,
    pub lid: LogID,
    /// What the record says, or `None` if its bytes cannot be understood.
    pub update: Option<LoggedUpdate<P>>,
}

impl<P> LogRecord<P> {
    /// The record's segment and page identifier can be counted.
    pub open spec fn fits(self, io_buf_size: usize) -> bool {
        &&& self.lid <= usize::MAX
        &&& self.lid / (io_buf_size as u64) < usize::MAX
        &&& self.update matches Some(u) ==> u.pid < usize::MAX
    }
}

impl<P> LogRecord<P> {
    /// Whether the record's segment and page identifier can be counted.
    pub fn can_replay(&self, io_buf_size: usize) -> (r: bool)
        requires
            io_buf_size > 0,
        ensures
            r == self.fits(io_buf_size),
    {
        let fits_page = match &self.update {
            Some(u) => u.pid < usize::MAX,
            None => true,
        };
        self.lid <= usize::MAX as u64 && self.lid / (io_buf_size as u64) < usize::MAX as u64
            && fits_page
    }
}

/// What happens to a segment of the log while a snapshot catches up.
#[derive(Clone, Copy, PartialEq, Eq, Structural, Debug)]
pub enum SegmentOp {
    /// The segment is made to start at `lsn`, unless it already does.
    EnsureInitialized { idx: usize, lsn: Lsn },
    /// The segment goes from active to inactive.
    ActiveToInactive { idx: usize, lsn: Lsn },
    /// The segment goes from inactive to draining if no page is left in it.
    DrainIfEmpty { idx: usize, lsn: Lsn },
    /// A page has a fragment in the segment.
    InsertPid { idx: usize, pid: PageID, lsn: Lsn },
    /// A page no longer has a fragment in the segment.
    RemovePid { idx: usize, pid: PageID, lsn: Lsn },
}

/// A snapshot that is catching up with the log.
pub struct Replay<R> {
    pub snapshot: Snapshot<R>,
    /// The segment of the last record that was taken in.
    pub last_segment: Option<usize>,
    /// What has happened to the segments, in order.
    pub ops: Vec<SegmentOp>,
}

/// What a [`Replay`] is, as a mathematical value.
#[verifier::ext_equal]
pub struct ReplayState<R> {
    pub snapshot: SnapshotState<R>,
    pub last_segment: Option<usize>,
    pub ops: Seq<SegmentOp>,
}

impl<R> View for Replay<R> {
    type V = ReplayState<R>;

    open spec fn view(&self) -> ReplayState<R> {
        ReplayState {
            snapshot: self.snapshot@,
            last_segment: self.last_segment,
            ops: self.ops@,
        }
    }
}

/// The sequence number at which the segment of `lsn` starts.
pub open spec fn segment_lsn(lsn: Lsn, io_buf_size: usize) -> Lsn {
    (lsn - lsn % io_buf_size as u64) as Lsn
}

/// The segment that holds the position `lid`.
pub open spec fn segment_of(lid: LogID, io_buf_size: usize) -> usize {
    (lid / io_buf_size as u64) as usize
}

/// Fragments at `at` are no longer the page's: it leaves their segments,
/// except `idx`.
pub open spec fn leave_segments(
    at: Seq<(Lsn, LogID)>,
    pid: PageID,
    idx: usize,
    lsn: Lsn,
    io_buf_size: usize,
) -> Seq<SegmentOp>
    decreases at.len(),
{
    if at.len() == 0 {
        Seq::empty()
    } else {
        let before = leave_segments(at.drop_last(), pid, idx, lsn, io_buf_size);
        let old_idx = segment_of(at.last().1, io_buf_size);
        if old_idx == idx {
            before
        } else {
            before.push(SegmentOp::RemovePid { idx: old_idx, pid, lsn })
        }
    }
}

/// What moving on to the segment `idx` does to the segments.
pub open spec fn enter_segment(last_segment: Option<usize>, idx: usize, lsn: Lsn) -> Seq<
    SegmentOp,
> {
    match last_segment {
        Some(last_idx) if last_idx != idx => seq![
            SegmentOp::EnsureInitialized { idx, lsn },
            SegmentOp::ActiveToInactive { idx: last_idx, lsn },
            SegmentOp::DrainIfEmpty { idx: last_idx, lsn },
        ],
        _ => seq![SegmentOp::EnsureInitialized { idx, lsn }],
    }
}

/// The positions of the page's fragments, none if there is no such page.
pub open spec fn positions(pt: Map<PageID, Seq<(Lsn, LogID)>>, pid: PageID) -> Seq<(Lsn, LogID)> {
    if pt.contains_key(pid) {
        pt[pid]
    } else {
        Seq::empty()
    }
}

/// The page table after `update` at the position `loc`.
pub open spec fn table_after<P>(
    pt: Map<PageID, Seq<(Lsn, LogID)>>,
    u: LoggedUpdate<P>,
    loc: (Lsn, LogID),
) -> Map<PageID, Seq<(Lsn, LogID)>> {
    match u.update {
        // A page's first fragment may have been moved to a later segment, so
        // what comes before it is passed over.
        Update::Append(frag) => if pt.contains_key(u.pid) {
            pt.insert(u.pid, pt[u.pid].push(loc))
        } else {
            pt
        },
        Update::Compact(frag) => pt.insert(u.pid, seq![loc]),
        Update::Free => pt.remove(u.pid),
        Update::Alloc => pt.insert(u.pid, Seq::empty()),
    }
}

/// `ids` without `pid`.
pub open spec fn without(ids: Seq<PageID>, pid: PageID) -> Seq<PageID> {
    ids.filter(|id: PageID| id != pid)
}

/// The identifiers of freed pages after `update`.
pub open spec fn free_after<P>(free: Seq<PageID>, u: LoggedUpdate<P>) -> Seq<PageID> {
    match u.update {
        Update::Free => free.push(u.pid),
        Update::Alloc => without(free, u.pid),
        _ => free,
    }
}

/// What `update`, in the segment `idx`, does to the segments.
pub open spec fn segment_ops<P>(
    pt: Map<PageID, Seq<(Lsn, LogID)>>,
    u: LoggedUpdate<P>,
    idx: usize,
    lsn: Lsn,
    io_buf_size: usize,
) -> Seq<SegmentOp> {
    let insert = SegmentOp::InsertPid { idx, pid: u.pid, lsn };
    match u.update {
        Update::Append(frag) => if pt.contains_key(u.pid) {
            seq![insert]
        } else {
            Seq::empty()
        },
        Update::Alloc => seq![insert],
        _ => leave_segments(positions(pt, u.pid), u.pid, idx, lsn, io_buf_size).push(insert),
    }
}

/// Whether the update's fragment is shown to the owner of the pages.
pub open spec fn is_shown<P>(pt: Map<PageID, Seq<(Lsn, LogID)>>, u: LoggedUpdate<P>) -> bool {
    u.update is Compact || u.update is Append && pt.contains_key(u.pid)
}

/// The snapshot after the update `u` at `loc`, which is in it by now as far
/// as the numbering of records and segments goes. If the owner of the pages
/// was shown the fragment, `found` is what it has recovered from it.
pub open spec fn snapshot_after<P, R>(
    s: SnapshotState<R>,
    u: LoggedUpdate<P>,
    loc: (Lsn, LogID),
    found: Option<R>,
) -> SnapshotState<R> {
    SnapshotState {
        max_pid: if u.pid >= s.max_pid {
            (u.pid + 1) as usize
        } else {
            s.max_pid
        },
        pt: table_after(s.pt, u, loc),
        free: free_after(s.free, u),
        recovery: if is_shown(s.pt, u) && found is Some {
            found
        } else {
            s.recovery
        },
        ..s
    }
}

/// The state of a replay after one more record, from which the owner of the
/// pages has recovered `found` if it was asked.
pub open spec fn replay_record<P, R>(
    io_buf_size: usize,
    r: ReplayState<R>,
    record: LogRecord<P>,
    found: Option<R>,
) -> ReplayState<R> {
    if record.lsn <= r.snapshot.max_lsn {
        // Already taken in.
        r
    } else {
        let idx = segment_of(record.lid, io_buf_size);
        let lsn = segment_lsn(record.lsn, io_buf_size);
        let s = SnapshotState {
            max_lsn: record.lsn,
            segments: if r.snapshot.segments < idx + 1 {
                (idx + 1) as usize
            } else {
                r.snapshot.segments
            },
            ..r.snapshot
        };
        match record.update {
            None => ReplayState { snapshot: s, ..r },
            Some(u) => ReplayState {
                snapshot: snapshot_after(s, u, (record.lsn, record.lid), found),
                last_segment: Some(idx),
                ops: r.ops + enter_segment(r.last_segment, idx, lsn) + segment_ops(
                    s.pt,
                    u,
                    idx,
                    lsn,
                    io_buf_size,
                ),
            },
        }
    }
}

/// The materializer is asked about the record's fragment if and only if it is
/// shown it, and `found` is then what it answers.
pub open spec fn asked<PM, P, R>(
    m: PM,
    r: ReplayState<R>,
    record: LogRecord<P>,
    found: Option<R>,
) -> bool
    where PM: Materializer<PageFrag = P, Recovery = R>
{
    if record.lsn > r.snapshot.max_lsn && record.update is Some && is_shown(
        r.snapshot.pt,
        record.update->0,
    ) {
        recovers(m, record.update->0.update.frag(), found)
    } else {
        found is None
    }
}

/// The state of a replay after all of `records`, with what the owner of the
/// pages has recovered from each.
pub open spec fn replay_records<P, R>(
    io_buf_size: usize,
    r: ReplayState<R>,
    records: Seq<LogRecord<P>>,
    found: Seq<Option<R>>,
) -> ReplayState<R>
    decreases records.len(),
{
    if records.len() == 0 {
        r
    } else {
        replay_record(
            io_buf_size,
            replay_records(io_buf_size, r, records.drop_last(), found.drop_last()),
            records.last(),
            found.last(),
        )
    }
}

/// `found` is what the materializer answers for each of `records` in turn.
pub open spec fn asked_all<PM, P, R>(
    m: PM,
    io_buf_size: usize,
    r: ReplayState<R>,
    records: Seq<LogRecord<P>>,
    found: Seq<Option<R>>,
) -> bool
    where PM: Materializer<PageFrag = P, Recovery = R>
    decreases records.len(),
{
    &&& found.len() == records.len()
    &&& records.len() > 0 ==> {
        &&& asked_all(m, io_buf_size, r, records.drop_last(), found.drop_last())
        &&& asked(
            m,
            replay_records(io_buf_size, r, records.drop_last(), found.drop_last()),
            records.last(),
            found.last(),
        )
    }
}

/// Whether `lsn` lies past the known-stable end of the log.
pub open spec fn past_stable(lsn: Lsn, stop_lsn: Lsn) -> bool {
    stop_lsn > 0 && lsn > stop_lsn
}

/// Whether `lsn` lies past the known-stable end of the log, where no record
/// is taken in any more.
pub fn is_past_stable(lsn: Lsn, stop_lsn: Lsn) -> (r: bool)
    ensures
        r == past_stable(lsn, stop_lsn),
{
    stop_lsn > 0 && lsn > stop_lsn
}

/// How many of `records` come before the first one past the stable end.
pub open spec fn stable_len<P>(records: Seq<LogRecord<P>>, stop_lsn: Lsn) -> nat
    decreases records.len(),
{
    if records.len() == 0 || past_stable(records[0].lsn, stop_lsn) {
        0
    } else {
        1 + stable_len(records.skip(1), stop_lsn)
    }
}

/// The state in which a replay on top of `s` begins.
pub open spec fn replay_start<R>(s: SnapshotState<R>) -> ReplayState<R> {
    ReplayState { snapshot: s, last_segment: None, ops: Seq::empty() }
}

/// `r` is the outcome of a replay of the stable part of `records` on top of
/// `s`: every record is taken in, and the freed identifiers are put into
/// descending order.
pub open spec fn replays<PM, P, R>(
    m: PM,
    io_buf_size: usize,
    s: SnapshotState<R>,
    records: Seq<LogRecord<P>>,
    stop_lsn: Lsn,
    r: ReplayState<R>,
) -> bool
    where PM: Materializer<PageFrag = P, Recovery = R>
{
    let stable = records.take(stable_len(records, stop_lsn) as int);
    exists|found: Seq<Option<R>>|
        {
            &&& #[trigger] asked_all(m, io_buf_size, replay_start(s), stable, found)
            &&& ends_in(replay_records(io_buf_size, replay_start(s), stable, found), r)
        }
}

/// `r` is `replayed` with the freed identifiers in descending order.
pub open spec fn ends_in<R>(replayed: ReplayState<R>, r: ReplayState<R>) -> bool {
    &&& sorts(replayed.snapshot.free, r.snapshot.free)
    &&& r == (ReplayState {
        snapshot: SnapshotState { free: r.snapshot.free, ..replayed.snapshot },
        ..replayed
    })
}

impl<R> Replay<R> {
    /// Begins to bring `snapshot` up to date.
    pub fn new(snapshot: Snapshot<R>) -> (r: Replay<R>)
        ensures
            r@ == (ReplayState {
                snapshot: snapshot@,
                last_segment: None,
                ops: Seq::<SegmentOp>::empty(),
            }),
    {
        Replay { snapshot, last_segment: None, ops: Vec::new() }
    }

    /// Notes that the page leaves the segments of the fragments `at`, except
    /// `idx`.
    fn leave_segments(
        &mut self,
        at: &Vec<(Lsn, LogID)>,
        pid: PageID,
        idx: usize,
        lsn: Lsn,
        io_buf_size: usize,
    )
        requires
            io_buf_size > 0,
        ensures
            final(self).snapshot == old(self).snapshot,
            final(self).last_segment == old(self).last_segment,
            final(self).ops@ == old(self).ops@ + leave_segments(at@, pid, idx, lsn, io_buf_size),
    {
        let mut i: usize = 0;
        assert(at@.take(0) =~= Seq::empty());
        while i < at.len()
            invariant
                i <= at@.len(),
                io_buf_size > 0,
                self.snapshot == old(self).snapshot,
                self.last_segment == old(self).last_segment,
                self.ops@ =~= old(self).ops@ + leave_segments(
                    at@.take(i as int),
                    pid,
                    idx,
                    lsn,
                    io_buf_size,
                ),
            decreases at@.len() - i,
        {
            let old_idx: usize = (at[i].1 / io_buf_size as u64) as usize;
            assert(at@.take(i + 1).drop_last() =~= at@.take(i as int));
            if old_idx != idx {
                self.ops.push(SegmentOp::RemovePid { idx: old_idx, pid, lsn });
            }
            i += 1;
        }
        assert(at@.take(i as int) =~= at@);
    }

    /// Takes in one more record.
    pub fn record<PM, P>(&mut self, m: &PM, io_buf_size: usize, record: &LogRecord<P>) where
        PM: Materializer<PageFrag = P, Recovery = R>,

        requires
            io_buf_size > 0,
            record.fits(io_buf_size),
        ensures
            exists|found: Option<R>| #[trigger]
                asked(*m, old(self)@, *record, found) && final(self)@ == replay_record(
                    io_buf_size,
                    old(self)@,
                    *record,
                    found,
                ),
    {
        let ghost mut found: Option<R> = None;
        if record.lsn <= self.snapshot.max_lsn {
            assert(asked(*m, old(self)@, *record, found));
            return;
        }
        let size: u64 = io_buf_size as u64;
        proof {
            vstd::arithmetic::div_mod::lemma_mod_decreases(record.lsn as nat, size as nat);
        }
        let lsn: Lsn = record.lsn - record.lsn % size;
        let idx: usize = (record.lid / size) as usize;
        self.snapshot.max_lsn = record.lsn;
        if self.snapshot.segments < idx + 1 {
            self.snapshot.segments = idx + 1;
        }
        let prepend = match &record.update {
            Some(prepend) => prepend,
            None => {
                assert(asked(*m, old(self)@, *record, found));
                return;
            },
        };
        let pid: PageID = prepend.pid;
        if pid >= self.snapshot.max_pid {
            self.snapshot.max_pid = pid + 1;
        }
        self.ops.push(SegmentOp::EnsureInitialized { idx, lsn });
        if let Some(last_idx) = self.last_segment {
            if last_idx != idx {
                // The previous segment is left behind.
                self.ops.push(SegmentOp::ActiveToInactive { idx: last_idx, lsn });
                self.ops.push(SegmentOp::DrainIfEmpty { idx: last_idx, lsn });
            }
        }
        self.last_segment = Some(idx);
        assert(self.ops@ =~= old(self).ops@ + enter_segment(old(self).last_segment, idx, lsn));
        let loc: (Lsn, LogID) = (record.lsn, record.lid);
        match &prepend.update {
            Update::Append(partial_page) => {
                if let Some(at) = self.snapshot.pt.remove(pid) {
                    let mut at = at;
                    at.push(loc);
                    self.snapshot.pt.insert(pid, at);
                    self.ops.push(SegmentOp::InsertPid { idx, pid, lsn });
                    let r = m.recover(partial_page);
                    proof {
                        found = r;
                    }
                    if r.is_some() {
                        self.snapshot.recovery = r;
                    }
                }
            },
            Update::Compact(partial_page) => {
                if let Some(at) = self.snapshot.pt.remove(pid) {
                    self.leave_segments(&at, pid, idx, lsn, io_buf_size);
                }
                self.ops.push(SegmentOp::InsertPid { idx, pid, lsn });
                let r = m.recover(partial_page);
                proof {
                    found = r;
                }
                if r.is_some() {
                    self.snapshot.recovery = r;
                }
                let mut at: Vec<(Lsn, LogID)> = Vec::new();
                at.push(loc);
                self.snapshot.pt.insert(pid, at);
            },
            Update::Free => {
                if let Some(at) = self.snapshot.pt.remove(pid) {
                    self.leave_segments(&at, pid, idx, lsn, io_buf_size);
                }
                self.ops.push(SegmentOp::InsertPid { idx, pid, lsn });
                self.snapshot.free.push(pid);
            },
            Update::Alloc => {
                self.snapshot.pt.insert(pid, Vec::new());
                retain_others(&mut self.snapshot.free, pid);
                self.ops.push(SegmentOp::InsertPid { idx, pid, lsn });
            },
        }
        proof {
            assert(asked(*m, old(self)@, *record, found));
            let after = replay_record(io_buf_size, old(self)@, *record, found);
            assert(self@.snapshot.pt =~= after.snapshot.pt);
            assert(self@.snapshot.free =~= after.snapshot.free);
            assert(self@.ops =~= after.ops);
        }
    }
}

/// Takes `pid` out of `ids` wherever it occurs.
fn retain_others(ids: &mut Vec<PageID>, pid: PageID)
    ensures
        final(ids)@ == without(old(ids)@, pid),
{
    let mut kept: Vec<PageID> = Vec::new();
    let mut i: usize = 0;
    proof {
        reveal(Seq::filter);
    }
    while i < ids.len()
        invariant
            i <= ids@.len(),
            ids@ == old(ids)@,
            kept@ == without(ids@.take(i as int), pid),
        decreases ids@.len() - i,
    {
        proof {
            reveal(Seq::filter);
            assert(ids@.take(i + 1).drop_last() =~= ids@.take(i as int));
        }
        if ids[i] != pid {
            kept.push(ids[i]);
        }
        i += 1;
    }
    assert(ids@.take(i as int) =~= ids@);
    *ids = kept;
}

/// Brings `snapshot` up to date with the stable part of `records`, which are
/// in the order of the log.
pub fn catch_up<PM, P, R>(
    m: &PM,
    io_buf_size: usize,
    snapshot: Snapshot<R>,
    records: &Vec<LogRecord<P>>,
    stop_lsn: Lsn,
) -> (r: Replay<R>) where PM: Materializer<PageFrag = P, Recovery = R>
    requires
        io_buf_size > 0,
        forall|i: int|
            0 <= i < stable_len(records@, stop_lsn) ==> (#[trigger] records@[i]).fits(io_buf_size),
    ensures
        replays(*m, io_buf_size, snapshot@, records@, stop_lsn, r@),
{
    let mut r = Replay::new(snapshot);
    let ghost start = r@;
    let ghost mut found: Seq<Option<R>> = Seq::empty();
    let ghost n = stable_len(records@, stop_lsn) as int;
    let mut i: usize = 0;
    assert(records@.take(0) =~= Seq::empty());
    assert(records@.skip(0) =~= records@);
    while i < records.len() && !is_past_stable(records[i].lsn, stop_lsn)
        invariant
            i <= records@.len(),
            io_buf_size > 0,
            forall|j: int| 0 <= j < n ==> (#[trigger] records@[j]).fits(io_buf_size),
            asked_all(*m, io_buf_size, start, records@.take(i as int), found),
            r@ == replay_records(io_buf_size, start, records@.take(i as int), found),
            n == i + stable_len(records@.skip(i as int), stop_lsn),
        decreases records@.len() - i,
    {
        let ghost before = r@;
        r.record(m, io_buf_size, &records[i]);
        proof {
            let answer = choose|answer: Option<R>| #[trigger]
                asked(*m, before, records@[i as int], answer) && r@ == replay_record(
                    io_buf_size,
                    before,
                    records@[i as int],
                    answer,
                );
            assert(found.push(answer).drop_last() =~= found);
            found = found.push(answer);
            assert(records@.take(i + 1).drop_last() =~= records@.take(i as int));
            assert(records@.skip(i as int).skip(1) =~= records@.skip(i + 1));
        }
        i += 1;
    }
    assert(i == n);
    sort_descending(&mut r.snapshot.free);
    r
}

/// `ids` is in descending order.
pub open spec fn descending(ids: Seq<PageID>) -> bool {
    forall|i: int, j: int| 0 <= i < j < ids.len() ==> ids[i] >= ids[j]
}

/// `sorted` has the elements of `ids`, in descending order.
pub open spec fn sorts(ids: Seq<PageID>, sorted: Seq<PageID>) -> bool {
    &&& descending(sorted)
    &&& sorted.to_multiset() == ids.to_multiset()
}

/// Puts identifiers into descending order.
pub fn sort_descending(ids: &mut Vec<PageID>)
    ensures
        sorts(old(ids)@, final(ids)@),
{
    let n: usize = ids.len();
    assert(ids@.subrange(0, n as int) =~= ids@);
    *ids = sorted_part(&*ids, 0, n);
}

/// The identifiers from `from` up to `to`, in descending order.
fn sorted_part(ids: &Vec<PageID>, from: usize, to: usize) -> (r: Vec<PageID>)
    requires
        from <= to <= ids@.len(),
    ensures
        sorts(ids@.subrange(from as int, to as int), r@),
    decreases to - from,
{
    if to - from < 2 {
        let mut r: Vec<PageID> = Vec::with_capacity(to - from);
        if from < to {
            r.push(ids[from]);
        }
        assert(r@ =~= ids@.subrange(from as int, to as int));
        return r;
    }
    let middle: usize = from + (to - from) / 2;
    let left = sorted_part(ids, from, middle);
    let right = sorted_part(ids, middle, to);
    proof {
        let a = ids@.subrange(from as int, middle as int);
        let b = ids@.subrange(middle as int, to as int);
        assert(ids@.subrange(from as int, to as int) =~= a + b);
        vstd::seq_lib::lemma_multiset_commutative(a, b);
    }
    merged_runs(&left, &right)
}

/// What is in two descending runs, as one.
fn merged_runs(a: &Vec<PageID>, b: &Vec<PageID>) -> (r: Vec<PageID>)
    requires
        descending(a@),
        descending(b@),
    ensures
        descending(r@),
        r@.to_multiset() == a@.to_multiset().add(b@.to_multiset()),
{
    let mut r: Vec<PageID> = Vec::with_capacity(a.len());
    let mut i: usize = 0;
    let mut j: usize = 0;
    proof {
        assert(r@ =~= a@.take(0) + b@.take(0));
        vstd::seq_lib::lemma_multiset_commutative(a@.take(0), b@.take(0));
    }
    while i < a.len() || j < b.len()
        invariant
            i <= a@.len(),
            j <= b@.len(),
            descending(a@),
            descending(b@),
            descending(r@),
            forall|k: int, l: int| 0 <= k < r@.len() && i <= l < a@.len() ==> r@[k] >= a@[l],
            forall|k: int, l: int| 0 <= k < r@.len() && j <= l < b@.len() ==> r@[k] >= b@[l],
            r@.to_multiset() == a@.take(i as int).to_multiset().add(
                b@.take(j as int).to_multiset(),
            ),
        decreases a@.len() - i + b@.len() - j,
    {
        let ghost before = r@;
        if j == b.len() || i < a.len() && a[i] >= b[j] {
            r.push(a[i]);
            proof {
                assert(a@.take(i + 1) =~= a@.take(i as int).push(a@[i as int]));
                vstd::seq_lib::to_multiset_build(before, a@[i as int]);
                vstd::seq_lib::to_multiset_build(a@.take(i as int), a@[i as int]);
                assert(r@.to_multiset() =~= a@.take(i + 1).to_multiset().add(
                    b@.take(j as int).to_multiset(),
                ));
            }
            i += 1;
        } else {
            r.push(b[j]);
            proof {
                assert(b@.take(j + 1) =~= b@.take(j as int).push(b@[j as int]));
                vstd::seq_lib::to_multiset_build(before, b@[j as int]);
                vstd::seq_lib::to_multiset_build(b@.take(j as int), b@[j as int]);
                assert(r@.to_multiset() =~= a@.take(i as int).to_multiset().add(
                    b@.take(j + 1).to_multiset(),
                ));
            }
            j += 1;
        }
    }
    assert(a@.take(i as int) =~= a@);
    assert(b@.take(j as int) =~= b@);
    r
}

} // verus!
