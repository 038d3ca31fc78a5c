//! What each step of an operation does, as relations between the cache before
//! it, the cache after it, and what it asks for next.

use crate::materializer::{merges, Materializer};
use crate::stack::{
    below_residents, fixed_up_stack, flushed_stack, frags, has_merged, lids_head_first, locs,
    needs_pull, CacheEntry, PageState,
};
use crate::snapshot::{sorts, SnapshotState};
use crate::state::CacheState;
use crate::step::{
    AfterRewrite, Cleanup, Committed, Done, Mark, Merged, Outcome, PageIn, Rewrite, Step, WriteKind,
    Writing,
};
use crate::types::{Config, HPtr, LogID, Lsn, PageID, Update};
use vstd::prelude::*;

verus! {

/// `to` holds a clone of each element of `from`.
pub open spec fn clones<P: Clone>(from: Seq<P>, to: Seq<P>) -> bool {
    &&& to.len() == from.len()
    &&& forall|i: int| 0 <= i < to.len() ==> cloned::<P>(#[trigger] from[i], to[i])
}

/// A page is looked up: `step` follows for the page as it is in `s`.
pub open spec fn get_step<PM, P, R>(m: PM, s: CacheState<P, R>, pid: PageID, step: Step<P>) -> bool
    where PM: Materializer<PageFrag = P, Recovery = R>, P: Clone
{
    if !s.pages.contains_key(pid) || s.pages[pid].entries.len() == 0 {
        // No page, or one without fragments.
        step == Step::<P>::Return(Outcome::Got(None))
    } else {
        let page = s.pages[pid];
        let below = below_residents(page.entries) as int;
        if page.entries.last() is MergedResident {
            // The whole page is at the head.
            &&& step matches Step::Return(Outcome::Got(Some((frag, head))))
            &&& cloned::<P>(page.entries.last().frag(), frag)
            &&& head == page.head
        } else if needs_pull(page.entries) {
            // What lies below the head's run of fragments is in the log.
            &&& step matches Step::Pull(p)
            &&& p.pid == pid
            &&& p.head == page.head
            &&& p.at@ == locs(page.entries)
            &&& clones(frags(page.entries.skip(below)), p.resident@)
            &&& p.to_pull@ == locs(page.entries).take(below).reverse()
        } else {
            // Everything is in memory, from the merged entry up if there is one.
            let from = if has_merged(page.entries) { below - 1 } else { below };
            &&& step matches Step::Access(q)
            &&& q.pid == pid
            &&& q.head == page.head
            &&& q.at@ == locs(page.entries)
            &&& merges(m, frags(page.entries.skip(from)), q.merged)
            &&& q.size == vstd::layout::size_of::<P>()
            &&& q.fix_up_length == if has_merged(page.entries) {
                page.entries.len() - below
            } else {
                0
            }
            &&& !q.fetched
        }
    }
}

/// The fragments that a read asked for have come: `step` follows.
pub open spec fn pulled_step<PM, P, R>(
    m: PM,
    p: PageIn<P>,
    fetched: Seq<P>,
    step: Step<P>,
) -> bool
    where PM: Materializer<PageFrag = P, Recovery = R>, P: Clone
{
    &&& step matches Step::Access(q)
    &&& q.pid == p.pid
    &&& q.head == p.head
    &&& q.at@ == p.at@
    &&& merges(m, fetched.reverse() + p.resident@, q.merged)
    &&& q.size == vstd::layout::size_of::<P>()
    &&& q.fix_up_length == 0
    &&& q.fetched == (fetched.len() > 0)
}

/// A read comes to its end: a page of too many fragments is rewritten; else,
/// if the read was costly, the merged page is left at the head of the stack.
pub open spec fn finish_step<P, R>(
    config: Config,
    s0: CacheState<P, R>,
    read: Merged<P>,
    s1: CacheState<P, R>,
    step: Step<P>,
) -> bool
    where P: Clone
{
    if read.at@.len() > config.page_consolidation_threshold {
        &&& s1 == s0
        &&& step matches Step::Rewrite(rewrite, after)
        &&& rewrite.pid == read.pid
        &&& rewrite.key == read.head
        &&& cloned::<P>(read.merged, rewrite.new)
        &&& after == (AfterRewrite::Return { merged: read.merged, head: read.head })
    } else if read.fetched || read.fix_up_length >= config.cache_fixup_threshold {
        let head = if s0.can_swap(read.pid, read.head) {
            s0.next_version()
        } else {
            read.head
        };
        &&& step == Step::<P>::Return(Outcome::Got(Some((read.merged, head))))
        &&& exists|copy: P| #[trigger] cloned::<P>(read.merged, copy) && s1 == s0.after_swap(
                read.pid,
                read.head,
                fixed_up_stack(copy, read.at@),
            )
    } else {
        &&& s1 == s0
        &&& step == Step::<P>::Return(Outcome::Got(Some((read.merged, read.head))))
    }
}

/// The pages `to_evict` are to leave memory before a read comes to its end.
pub open spec fn page_out_step<P, R>(
    config: Config,
    s0: CacheState<P, R>,
    read: Merged<P>,
    to_evict: Seq<PageID>,
    s1: CacheState<P, R>,
    step: Step<P>,
) -> bool
    where P: Clone
{
    match s0.next_eviction(to_evict) {
        Some((pid, rest)) => {
            &&& s1 == s0
            &&& step matches Step::MakeStable(e)
            &&& e.wf()
            &&& e.pid == pid
            &&& e.head == s0.pages[pid].head
            &&& e.lsn == s0.pages[pid].entries.last().loc().0
            &&& e.rest() == rest
            &&& e.read == read
        },
        None => finish_step(config, s0, read, s1, step),
    }
}

/// The cache after the page under the version `head` has left memory.
pub open spec fn evicted<P, R>(s: CacheState<P, R>, pid: PageID, head: HPtr) -> CacheState<P, R> {
    s.after_swap(pid, head, flushed_stack(locs(s.pages[pid].entries)))
}

/// The stack that a page gets when it is replaced.
pub open spec fn replaced_stack<P>(new: P, lsn: Lsn, lid: LogID) -> Seq<CacheEntry<P>> {
    seq![CacheEntry::MergedResident(new, lsn, lid)]
}

/// The stack that a page gets when a fragment is linked to it.
pub open spec fn linked_stack<P>(
    entries: Seq<CacheEntry<P>>,
    new: P,
    lsn: Lsn,
    lid: LogID,
) -> Seq<CacheEntry<P>> {
    entries.push(CacheEntry::Resident(new, lsn, lid))
}

/// `w` takes `new` into the page, and a clone of it into the log, there as the
/// beginning of the page's history or as an addition to it.
pub open spec fn writes<P: Clone>(
    w: Writing<P>,
    pid: PageID,
    key: HPtr,
    new: P,
    kind: WriteKind,
    begins: bool,
) -> bool {
    &&& w.update.pid == pid
    &&& w.key == key
    &&& w.kind == kind
    &&& w.new == Some(new)
    &&& match w.update.update {
        Update::Compact(copy) => begins && cloned::<P>(new, copy),
        Update::Append(copy) => !begins && cloned::<P>(new, copy),
        _ => false,
    }
}

/// The cache after an update has got its place in the log.
pub open spec fn after_reserved<P, R>(
    s: CacheState<P, R>,
    w: Writing<P>,
    lsn: Lsn,
    lid: LogID,
) -> CacheState<P, R> {
    let pid = w.update.pid;
    let new = w.frag();
    match w.kind {
        WriteKind::Replace { recursed } => s.after_swap(
            pid,
            w.key,
            replaced_stack(new, lsn, lid),
        ),
        WriteKind::Link => s.after_swap(
            pid,
            w.key,
            linked_stack(s.pages[pid].entries, new, lsn, lid),
        ),
        WriteKind::Free { lids } => s,
    }
}

/// `mark` says that the page's fragments at `old_lids` are superseded by the
/// one at `lid`.
pub open spec fn marks_replace(
    mark: Mark,
    pid: PageID,
    lsn: Lsn,
    old_lids: Seq<LogID>,
    lid: LogID,
) -> bool {
    &&& mark matches Mark::Replace { pid: p, lsn: l, old_lids: o, lid: d }
    &&& p == pid && l == lsn && o@ == old_lids && d == lid
}

/// An update has got its place in the log: `step` follows, for the cache `s`
/// before the update.
pub open spec fn reserved_step<P, R>(
    s: CacheState<P, R>,
    w: Writing<P>,
    lsn: Lsn,
    lid: LogID,
    step: Step<P>,
) -> bool {
    let pid = w.update.pid;
    match w.kind {
        WriteKind::Replace { recursed } => match s.swap_result(pid, w.key) {
            Ok(head) => {
                &&& step matches Step::Mark(m)
                &&& marks_replace(m.mark, pid, lsn, lids_head_first(s.pages[pid].entries), lid)
                &&& m.cleanup == if recursed {
                    Cleanup::Skip
                } else {
                    Cleanup::AnyBut(pid)
                }
                &&& m.committed == (Committed { lsn, lid, done: Done::Write(head) })
            },
            Err(actual) => step == Step::<P>::Abort(lsn, lid, Outcome::Written(Err(actual))),
        },
        WriteKind::Link => match s.swap_result(pid, w.key) {
            Ok(head) => {
                &&& step matches Step::Mark(m)
                &&& m.mark == (Mark::Link { pid, lsn, lid })
                &&& m.cleanup == Cleanup::Any
                &&& m.committed == (Committed { lsn, lid, done: Done::Write(head) })
            },
            Err(actual) => step == Step::<P>::Abort(lsn, lid, Outcome::Written(Err(actual))),
        },
        WriteKind::Free { lids } => {
            &&& step matches Step::Mark(m)
            &&& marks_replace(m.mark, pid, lsn, lids@, lid)
            &&& m.cleanup == Cleanup::Skip
            &&& m.committed == (Committed { lsn, lid, done: Done::Free(pid) })
        },
    }
}

/// The page that an operation wanted rewritten has been, or has not: the step
/// that follows.
pub open spec fn rewritten_step<P>(
    after: AfterRewrite<P>,
    result: Result<HPtr, Option<HPtr>>,
) -> Step<P> {
    match after {
        AfterRewrite::Complete(committed) => Step::Complete(committed),
        AfterRewrite::Return { merged, head } => match result {
            Ok(new_head) => Step::Return(Outcome::Got(Some((merged, new_head)))),
            Err(None) => Step::Return(Outcome::Got(None)),
            Err(Some(actual)) => Step::Return(Outcome::Got(Some((merged, head)))),
        },
    }
}

/// The value of the update counter after one more update.
pub open spec fn counted(updates: usize) -> usize {
    if updates == usize::MAX {
        0
    } else {
        (updates + 1) as usize
    }
}

/// The cache after a change has been completed in the log.
pub open spec fn after_completed<P, R>(s: CacheState<P, R>, done: Done) -> CacheState<P, R> {
    match done {
        Done::Write(head) => CacheState { updates: counted(s.updates), ..s },
        Done::Free(pid) => if s.retired.contains(pid) {
            CacheState {
                retired: s.retired.remove(pid),
                deferred: s.deferred.insert(pid),
                ..s
            }
        } else {
            s
        },
    }
}

/// The cache after the identifier of a removed page has been given back.
pub open spec fn released<P, R>(s: CacheState<P, R>, pid: PageID) -> CacheState<P, R> {
    if s.deferred.contains(pid) {
        CacheState { deferred: s.deferred.remove(pid), free: s.free.push(pid), ..s }
    } else {
        s
    }
}

/// What follows when a change has been completed in the log.
pub open spec fn completed_step<P, R>(config: Config, s: CacheState<P, R>, done: Done) -> Step<P> {
    match done {
        Done::Write(head) => if counted(s.updates) % config.snapshot_after_ops == 0 {
            Step::Snapshot(Outcome::Written(Ok(head)))
        } else {
            Step::Return(Outcome::Written(Ok(head)))
        },
        Done::Free(pid) => Step::Defer(pid, Outcome::Freed),
    }
}

/// The identifier that the next new page gets.
pub open spec fn next_pid<P, R>(s: CacheState<P, R>) -> PageID {
    if s.free.len() > 0 {
        s.free.last()
    } else {
        s.max_pid
    }
}

/// There is an identifier for a new page, and it belongs to no page.
pub open spec fn has_next_pid<P, R>(s: CacheState<P, R>) -> bool {
    &&& s.free.len() == 0 ==> s.max_pid < usize::MAX
    &&& !s.pages.contains_key(next_pid(s))
}

/// The cache after a page has been created.
pub open spec fn allocated<P, R>(s: CacheState<P, R>) -> CacheState<P, R> {
    CacheState {
        pages: s.pages.insert(
            next_pid(s),
            PageState { head: HPtr { id: 0 }, entries: Seq::empty() },
        ),
        free: if s.free.len() > 0 {
            s.free.drop_last()
        } else {
            s.free
        },
        max_pid: if s.free.len() > 0 {
            s.max_pid
        } else {
            (s.max_pid + 1) as usize
        },
        ..s
    }
}

/// The cache after a page has been taken out of it.
pub open spec fn removed<P, R>(s: CacheState<P, R>, pid: PageID) -> CacheState<P, R> {
    CacheState { pages: s.pages.remove(pid), retired: s.retired.insert(pid), ..s }
}

/// The last snapshot, or the empty one if there is none yet.
pub open spec fn snapshot_of<P, R>(s: CacheState<P, R>) -> SnapshotState<R> {
    match s.last_snapshot {
        Some(snapshot) => snapshot,
        None => SnapshotState::empty(),
    }
}

/// There is a snapshot, and its pages are not in the cache yet.
pub open spec fn can_load<P, R>(s: CacheState<P, R>) -> bool {
    &&& s.last_snapshot is Some
    &&& s.last_version < u64::MAX
    &&& forall|pid: PageID| #[trigger]
        s.last_snapshot->0.pt.contains_key(pid) ==> !s.pages.contains_key(pid)
}

/// A page with fragments at `at`, all of them in the log only.
pub open spec fn loaded_page<P>(at: Seq<(Lsn, LogID)>, version: HPtr) -> PageState<P> {
    PageState {
        head: if at.len() == 0 {
            HPtr { id: 0 }
        } else {
            version
        },
        entries: flushed_stack(at),
    }
}

/// `pages` with those of a page table added.
pub open spec fn with_loaded<P>(
    pages: Map<PageID, PageState<P>>,
    pt: Map<PageID, Seq<(Lsn, LogID)>>,
    version: HPtr,
) -> Map<PageID, PageState<P>> {
    pages.union_prefer_right(
        pt.map_values(|at: Seq<(Lsn, LogID)>| loaded_page::<P>(at, version)),
    )
}

/// The pages of the last snapshot of `s0` have been put into the cache, which
/// is now `s1`.
pub open spec fn loads<P, R>(s0: CacheState<P, R>, s1: CacheState<P, R>) -> bool {
    let snapshot = s0.last_snapshot->0;
    exists|sorted: Seq<PageID>| #[trigger]
        sorts(snapshot.free, sorted) && s1 == (CacheState {
            pages: with_loaded(s0.pages, snapshot.pt, s0.next_version()),
            free: s0.free + sorted,
            max_pid: snapshot.max_pid,
            last_version: s0.next_version().id,
            ..s0
        })
}

} // verus!
