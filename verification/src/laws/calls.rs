//! What a call of each operation does.
//!
//! Each law is about what comes out of a call, for any arguments that the
//! operation can be called with.

use crate::laws::files::{
    law_a_file_is_the_bytes_and_the_checksum, law_a_number_is_written_in_digits,
    law_what_a_name_ends_with, law_what_a_written_file_holds, law_what_is_read_from_a_file, number,
    stands_for,
};
use crate::laws::operations::{
    finds_its_version, goes_on_top, is_all_there_is, law_a_linked_fragment_goes_on_top,
    law_a_page_is_created_empty, law_a_replacement_is_all_there_is_of_its_page,
    law_a_write_that_comes_too_late_changes_nothing, law_recovery_loads_every_page,
    law_what_follows_a_completion, law_work_on_the_snapshot_goes_on, loads_every_page,
};
use crate::laws::reads::{
    chooses_who_leaves, comes_to_its_end, law_a_lookup_looks_at_every_fragment,
    law_a_read_comes_to_its_end, law_a_read_gives_the_current_version,
    law_eviction_empties_one_page_of_memory, law_pages_leave_memory_one_after_the_other,
    law_what_is_pulled_is_merged_with_the_rest, leaves_memory, looks_at_every_fragment,
    merged_from, merges_what_was_pulled, read_from_memory,
};
use crate::laws::recovery::{
    law_evicting_keeps_every_position, law_the_scan_begins_at_a_segment, lemma_stable_len,
};
use crate::laws::replaying::{
    begins, changes_its_segments, counts_segments_and_identifiers, has_the_stable_log, increasing,
    is_answer, is_newest_answer, law_a_record_changes_its_page, law_a_record_changes_its_segments,
    law_catching_up_counts_segments_and_identifiers, law_catching_up_takes_in_the_stable_log,
    law_every_stable_record_is_taken_in, law_the_newest_answer_is_given_back,
    law_the_snapshot_builds_on_what_it_had,
    law_the_snapshot_has_every_fragment_since_the_beginning,
    law_the_snapshot_moves_on_to_the_record, law_when_the_materializer_is_asked,
    lists_contributions, removes,
};
use crate::laws::stacks::{
    has_lid, holds, law_a_fixed_up_stack_keeps_its_positions,
    law_a_flushed_stack_keeps_its_positions, law_old_positions_are_those_of_the_entries,
    law_positions_are_those_of_the_entries, law_the_run_at_the_head_is_all_of_it, lists_positions,
};
use crate::laws::versions::{law_a_version_keeps_its_meaning, law_swapping_evolves, names};
use crate::materializer::Materializer;
use crate::page_cache::{Advancing, PageCache};
use crate::reservation::{IoBufs, Reservation};
use crate::snapshot::{
    asked, catch_up, is_past_stable, replay_record, sort_descending, stable_len, LogRecord, Replay,
    Snapshot,
};
use crate::snapshot_file::{
    checks, decimal, decode_snapshot, encode_snapshot, is_superseded, newest, seal, sealed,
    snapshot_path, snapshot_path_in_motion, zstd_compresses, zstd_decompresses, ByteOrder,
    SnapshotFileError,
};
use crate::stack::{
    count_below_residents, fix_up, flush_all, flushed_stack, lids_from_stack, locations, locs,
    CacheEntry,
};
use crate::state::CacheState;
use crate::step::{
    AfterRewrite, Cleaning, Cleanup, Committed, Done, Evicting, Mark, Marking, Merged, Outcome,
    PageIn, Rewrite, Step, WriteKind, Writing,
};
use crate::transitions::evicted;
use crate::types::{Config, HPtr, LogID, LoggedUpdate, Lsn, PageID, Update};
use vstd::prelude::*;

verus! {

/// A new cache is made with its materializer and settings, and has nothing in
/// it.
pub proof fn law_calling_new<PM, P, R>(pm: PM, config: Config, pc: PageCache<PM, P, R>)
    where PM: Materializer<PageFrag = P, Recovery = R>, P: Clone, R: Clone
    requires
        call_ensures(PageCache::<PM, P, R>::new, (pm, config), pc),
    ensures
        pc.fixed() == (pm, config),
        forall|pid: PageID| !#[trigger] pc@.pages.contains_key(pid),
        pc@.free.len() == 0,
        pc@.max_pid == 0,
        pc@.last_version == 0,
        pc@.updates == 0,
        pc@.last_snapshot is None,
        !pc@.snapshotting,
        forall|pid: PageID| !#[trigger] pc@.retired.contains(pid),
        forall|pid: PageID| !#[trigger] pc@.deferred.contains(pid),
{
}

/// A page that is created is empty, and its creation is to be logged. Its
/// identifier is the one freed last, or else the smallest never used, and no
/// other page's. Nothing else changes.
pub proof fn law_calling_allocate<PM, P, R>(
    pc: &mut PageCache<PM, P, R>,
    able: bool,
    r: (PageID, HPtr, LoggedUpdate<P>),
)
    where PM: Materializer<PageFrag = P, Recovery = R>, P: Clone, R: Clone
    requires
        call_ensures(PageCache::<PM, P, R>::can_allocate, (old(pc),), able),
        able,
        call_ensures(PageCache::<PM, P, R>::allocate, (pc,), r),
    ensures
        ({
            let s = old(pc)@;
            let s1 = final(pc)@;
            let pid = r.0;
            &&& final(pc).fixed() == old(pc).fixed()
            &&& s1 == (CacheState { pages: s1.pages, free: s1.free, max_pid: s1.max_pid, ..s })
            &&& !s.pages.contains_key(pid)
            &&& s1.pages.contains_key(pid)
            &&& s1.pages[pid].entries.len() == 0
            &&& s1.pages[pid].head.id == 0
            &&& s1.pages.remove(pid) == s.pages
            &&& s.free.len() > 0 ==> s1.free.push(pid) == s.free && s1.max_pid == s.max_pid
            &&& s.free.len() == 0 ==> pid == s.max_pid && s1.free == s.free && s1.max_pid
                == s.max_pid + 1
            &&& r.1.id == 0
            &&& r.2.pid == pid
            &&& r.2.update is Alloc
        }),
{
    law_a_page_is_created_empty(old(pc)@);
}

/// A page can be created unless the identifiers are used up or the next one is
/// that of a page.
pub proof fn law_calling_can_allocate<PM, P, R>(pc: &PageCache<PM, P, R>, r: bool)
    where PM: Materializer<PageFrag = P, Recovery = R>, P: Clone, R: Clone
    requires
        call_ensures(PageCache::<PM, P, R>::can_allocate, (pc,), r),
    ensures
        pc@.free.len() > 0 ==> (r <==> !pc@.pages.contains_key(pc@.free[pc@.free.len() - 1])),
        pc@.free.len() == 0 ==> (r <==> pc@.max_pid < usize::MAX && !pc@.pages.contains_key(
            pc@.max_pid,
        )),
{
    law_a_page_is_created_empty(pc@);
}

/// A page that is freed is gone at once; its removal is to be logged, and all
/// of its fragments are superseded by it. Without such a page there is nothing
/// to do. No other page changes.
pub proof fn law_calling_free<PM, P, R>(pc: &mut PageCache<PM, P, R>, pid: PageID, step: Step<P>)
    where PM: Materializer<PageFrag = P, Recovery = R>, P: Clone, R: Clone
    requires
        call_ensures(PageCache::<PM, P, R>::free, (pc, pid), step),
    ensures
        ({
            let s = old(pc)@;
            let s1 = final(pc)@;
            let entries = s.pages[pid].entries;
            &&& final(pc).fixed() == old(pc).fixed()
            &&& !s.pages.contains_key(pid) ==> s1 == s && step == Step::<P>::Return(Outcome::Freed)
            &&& s.pages.contains_key(pid) ==> {
                &&& s1 == (CacheState { pages: s1.pages, retired: s1.retired, ..s })
                &&& s1.pages == s.pages.remove(pid)
                &&& s1.retired == s.retired.insert(pid)
                &&& step matches Step::Reserve(w)
                &&& w.update.pid == pid
                &&& w.update.update is Free
                &&& w.new is None
                &&& w.key == s.pages[pid].head
                &&& w.kind matches WriteKind::Free { lids }
                &&& lids@.len() == entries.len()
                &&& forall|i: int|
                    0 <= i < entries.len() ==> has_lid(
                        entries[entries.len() - 1 - i],
                        #[trigger] lids@[i],
                    )
            }
        }),
{
    law_old_positions_are_those_of_the_entries(old(pc)@.pages[pid].entries);
}

/// A lookup looks at every fragment of the page.
pub proof fn law_calling_get<PM, P, R>(pc: &PageCache<PM, P, R>, pid: PageID, step: Step<P>)
    where PM: Materializer<PageFrag = P, Recovery = R>, P: Clone, R: Clone
    requires
        pc@.wf(),
        call_ensures(PageCache::<PM, P, R>::get, (pc, pid), step),
    ensures
        looks_at_every_fragment(pc.materializer(), pc@, pid, step),
{
    law_a_lookup_looks_at_every_fragment(pc.materializer(), pc@, pid, step);
}

/// A read goes on with every fragment merged that it had or that was pulled.
pub proof fn law_calling_pulled<PM, P, R>(
    pc: &PageCache<PM, P, R>,
    p: PageIn<P>,
    fetched: Vec<P>,
    step: Step<P>,
)
    where PM: Materializer<PageFrag = P, Recovery = R>, P: Clone, R: Clone
    requires
        call_ensures(PageCache::<PM, P, R>::pulled, (pc, p, fetched), step),
    ensures
        merges_what_was_pulled(pc.materializer(), p, fetched@, step),
{
    law_what_is_pulled_is_merged_with_the_rest::<PM, P, R>(
        pc.materializer(),
        p,
        fetched@,
        step,
    );
}

/// A read that the eviction policy knows of waits for the first page that is to
/// leave memory, or comes to its end.
pub proof fn law_calling_accessed<PM, P, R>(
    pc: &mut PageCache<PM, P, R>,
    read: Merged<P>,
    to_evict: Vec<PageID>,
    step: Step<P>,
)
    where PM: Materializer<PageFrag = P, Recovery = R>, P: Clone, R: Clone
    requires
        read.wf(),
        names(old(pc)@, read.pid, read.head, read.at@),
        call_ensures(PageCache::<PM, P, R>::accessed, (pc, read, to_evict), step),
    ensures
        final(pc).fixed() == old(pc).fixed(),
        chooses_who_leaves(old(pc)@, read, to_evict@, final(pc)@, step),
        !(step is MakeStable) ==> comes_to_its_end(
            old(pc).settings(),
            old(pc)@,
            read,
            final(pc)@,
            step,
        ),
{
    let config = old(pc).settings();
    law_pages_leave_memory_one_after_the_other(
        config,
        old(pc)@,
        read,
        to_evict@,
        final(pc)@,
        step,
    );
    if !(step is MakeStable) {
        law_a_read_comes_to_its_end(config, old(pc)@, read, to_evict@, final(pc)@, step);
    }
}

/// When the log is stable, the page leaves memory, and the read waits for the
/// next one or comes to its end.
pub proof fn law_calling_stable<PM, P, R>(
    pc: &mut PageCache<PM, P, R>,
    e: Evicting<P>,
    step: Step<P>,
)
    where PM: Materializer<PageFrag = P, Recovery = R>, P: Clone, R: Clone
    requires
        e.wf(),
        names(old(pc)@, e.read.pid, e.read.head, e.read.at@),
        call_ensures(PageCache::<PM, P, R>::stable, (pc, e), step),
    ensures
        final(pc).fixed() == old(pc).fixed(),
        exists|without: CacheState<P, R>|
            {
                &&& #[trigger] leaves_memory(old(pc)@, e.pid, e.head, without)
                &&& chooses_who_leaves(
                    without,
                    e.read,
                    e.to_evict@.skip(e.next as int),
                    final(pc)@,
                    step,
                )
                &&& !(step is MakeStable) ==> comes_to_its_end(
                    old(pc).settings(),
                    without,
                    e.read,
                    final(pc)@,
                    step,
                )
            },
{
    let config = old(pc).settings();
    let without = evicted(old(pc)@, e.pid, e.head);
    law_eviction_empties_one_page_of_memory(old(pc)@, e.pid, e.head);
    law_pages_leave_memory_one_after_the_other(
        config,
        without,
        e.read,
        e.rest(),
        final(pc)@,
        step,
    );
    law_evicting_keeps_every_position(old(pc)@, e.pid, e.head);
    law_swapping_evolves(
        old(pc)@,
        e.pid,
        e.head,
        flushed_stack::<P>(locs(old(pc)@.pages[e.pid].entries)),
    );
    law_a_version_keeps_its_meaning(
        old(pc)@,
        without,
        e.read.pid,
        e.read.head,
        e.read.at@,
    );
    if !(step is MakeStable) {
        law_a_read_comes_to_its_end(config, without, e.read, e.rest(), final(pc)@, step);
    }
    assert(leaves_memory(old(pc)@, e.pid, e.head, without));
}

/// When a read ends and the page is still under the version that was read, the
/// version given back is the one that the page then has: a write that presents
/// it is not refused, as long as nothing else happens to the page and there is
/// a version left.
pub proof fn law_a_version_from_a_read_admits_a_write<PM, P, R>(
    pc: &mut PageCache<PM, P, R>,
    read: Merged<P>,
    to_evict: Vec<PageID>,
    page: P,
    head: HPtr,
    later: &mut PageCache<PM, P, R>,
    w: Writing<P>,
    lsn: Lsn,
    lid: LogID,
    step: Step<P>,
)
    where PM: Materializer<PageFrag = P, Recovery = R>, P: Clone, R: Clone
    requires
        call_ensures(
            PageCache::<PM, P, R>::accessed,
            (pc, read, to_evict),
            Step::Return(Outcome::Got(Some((page, head)))),
        ),
        old(pc)@.pages.contains_key(read.pid),
        old(pc)@.pages[read.pid].head.id == read.head.id,
        old(later)@.pages.contains_key(read.pid),
        old(later)@.pages[read.pid] == final(pc)@.pages[read.pid],
        old(later)@.last_version < u64::MAX,
        w.update.pid == read.pid,
        w.key == head,
        !(w.kind is Free),
        call_ensures(PageCache::<PM, P, R>::reserved, (later, w, lsn, lid), step),
    ensures
        final(pc)@.pages.contains_key(read.pid),
        final(pc)@.pages[read.pid].head.id == head.id,
        step is Mark,
        final(later)@.pages[read.pid].head.id == old(later)@.last_version + 1,
{
    law_a_read_gives_the_current_version(
        old(pc).settings(),
        old(pc)@,
        read,
        to_evict@,
        final(pc)@,
        page,
        head,
        old(later)@,
        w,
        lsn,
        lid,
        step,
    );
}

/// A replacement of a page that is there is to be logged as the beginning of
/// the page's history. One that is asked for by itself has a page moved; one
/// that is part of another operation has none.
pub proof fn law_calling_replace<PM, P, R>(
    pc: &PageCache<PM, P, R>,
    pid: PageID,
    key: HPtr,
    new: P,
    recursed: bool,
    replaced: Step<P>,
    once: Step<P>,
    rewritten: Step<P>,
)
    where PM: Materializer<PageFrag = P, Recovery = R>, P: Clone, R: Clone
    requires
        call_ensures(PageCache::<PM, P, R>::replace, (pc, pid, key, new), replaced),
        call_ensures(
            PageCache::<PM, P, R>::replace_recurse_once,
            (pc, pid, key, new, recursed),
            once,
        ),
        call_ensures(PageCache::<PM, P, R>::rewrite, (pc, Rewrite { pid, key, new }), rewritten),
    ensures
        !pc@.pages.contains_key(pid) ==> {
            &&& replaced == Step::<P>::Return(Outcome::Written(Err(None)))
            &&& once == Step::<P>::Return(Outcome::Written(Err(None)))
            &&& rewritten == Step::<P>::Return(Outcome::Written(Err(None)))
        },
        pc@.pages.contains_key(pid) ==> {
            &&& goes_to_the_log(replaced, pid, key, new)
            &&& goes_to_the_log(once, pid, key, new)
            &&& goes_to_the_log(rewritten, pid, key, new)
            &&& replaced->Reserve_0.update.update is Compact
            &&& once->Reserve_0.update.update is Compact
            &&& rewritten->Reserve_0.update.update is Compact
            &&& replaced->Reserve_0.kind == (WriteKind::Replace { recursed: false })
            &&& once->Reserve_0.kind == (WriteKind::Replace { recursed })
            &&& rewritten->Reserve_0.kind == (WriteKind::Replace { recursed: true })
        },
{
}

/// The value is on its way to the page under the version presented, and a
/// clone of it to the log.
pub open spec fn goes_to_the_log<P: Clone>(
    step: Step<P>,
    pid: PageID,
    key: HPtr,
    new: P,
) -> bool {
    &&& step matches Step::Reserve(w)
    &&& w.update.pid == pid
    &&& w.key == key
    &&& w.new == Some(new)
    &&& match w.update.update {
        Update::Append(copy) => cloned::<P>(new, copy),
        Update::Compact(copy) => cloned::<P>(new, copy),
        _ => false,
    }
}

/// A fragment for a page that is there is to be logged as an addition, or as
/// the beginning of the page's history if the page is taken to be empty.
pub proof fn law_calling_link<PM, P, R>(
    pc: &PageCache<PM, P, R>,
    pid: PageID,
    key: HPtr,
    new: P,
    step: Step<P>,
)
    where PM: Materializer<PageFrag = P, Recovery = R>, P: Clone, R: Clone
    requires
        call_ensures(PageCache::<PM, P, R>::link, (pc, pid, key, new), step),
    ensures
        !pc@.pages.contains_key(pid) ==> step == Step::<P>::Return(Outcome::Written(Err(None))),
        pc@.pages.contains_key(pid) ==> {
            &&& goes_to_the_log(step, pid, key, new)
            &&& step->Reserve_0.kind is Link
            &&& key.id == 0 <==> step->Reserve_0.update.update is Compact
        },
{
}

/// A write with a place in the log is done if and only if its page has the
/// version presented and there is a version left. A removal only has its
/// fragments marked.
pub proof fn law_calling_reserved<PM, P, R>(
    pc: &mut PageCache<PM, P, R>,
    w: Writing<P>,
    lsn: Lsn,
    lid: LogID,
    step: Step<P>,
)
    where PM: Materializer<PageFrag = P, Recovery = R>, P: Clone, R: Clone
    requires
        w.wf(),
        call_ensures(PageCache::<PM, P, R>::reserved, (pc, w, lsn, lid), step),
    ensures
        ({
            let s = old(pc)@;
            let s1 = final(pc)@;
            let pid = w.update.pid;
            &&& final(pc).fixed() == old(pc).fixed()
            &&& match w.kind {
                WriteKind::Replace { recursed } => finds_its_version(s, w) ==> is_all_there_is(
                    s,
                    w,
                    recursed,
                    lsn,
                    lid,
                    s1,
                    step,
                ),
                WriteKind::Link => finds_its_version(s, w) ==> goes_on_top(
                    s,
                    w,
                    lsn,
                    lid,
                    s1,
                    step,
                ),
                WriteKind::Free { lids } => {
                    &&& s1 == s
                    &&& step matches Step::Mark(m)
                    &&& m.mark matches Mark::Replace { pid: p, lsn: l, old_lids, lid: d }
                    &&& p == pid && l == lsn && old_lids@ == lids@ && d == lid
                    &&& m.cleanup == Cleanup::Skip
                    &&& m.committed == (Committed { lsn, lid, done: Done::Free(pid) })
                },
            }
            &&& !(w.kind is Free) && !finds_its_version(s, w) ==> {
                &&& s1 == s
                &&& step matches Step::Abort(l, d, Outcome::Written(Err(actual)))
                &&& l == lsn && d == lid
                &&& !s.pages.contains_key(pid) ==> actual is None
                &&& s.pages.contains_key(pid) ==> actual == Some(s.pages[pid].head)
            }
        }),
{
    let s = old(pc)@;
    if !(w.kind is Free) && !finds_its_version(s, w) {
        law_a_write_that_comes_too_late_changes_nothing(s, w, lsn, lid, step);
    } else if w.kind is Replace {
        law_a_replacement_is_all_there_is_of_its_page(
            s,
            w,
            w.kind->recursed,
            lsn,
            lid,
            step,
        );
    } else if w.kind is Link {
        law_a_linked_fragment_goes_on_top(s, w, lsn, lid, step);
    }
}

/// A change that is known to the segment accountant is to be completed, after
/// the page that the accountant named has been read and rewritten as it was
/// read, if there is one.
pub proof fn law_calling_marked_and_got<PM, P, R>(
    pc: &PageCache<PM, P, R>,
    m: Marking,
    to_clean: Option<PageID>,
    marked: Step<P>,
    c: Cleaning,
    page: Option<(P, HPtr)>,
    got: Step<P>,
)
    where PM: Materializer<PageFrag = P, Recovery = R>, P: Clone, R: Clone
    requires
        call_ensures(PageCache::<PM, P, R>::marked, (pc, m, to_clean), marked),
        call_ensures(PageCache::<PM, P, R>::got, (pc, c, page), got),
    ensures
        to_clean is None ==> marked == Step::<P>::Complete(m.committed),
        to_clean matches Some(pid) ==> {
            &&& marked matches Step::Get(p, cleaning)
            &&& p == pid
            &&& cleaning.pid == pid
            &&& cleaning.committed == m.committed
        },
        page is None ==> got == Step::<P>::Complete(c.committed),
        page matches Some((frag, head)) ==> {
            &&& got matches Step::Rewrite(rewrite, rest)
            &&& rewrite.pid == c.pid
            &&& rewrite.key == head
            &&& rewrite.new == frag
            &&& rest == AfterRewrite::<P>::Complete(c.committed)
        },
{
}

/// What follows a rewrite.
pub proof fn law_calling_rewritten<PM, P, R>(
    pc: &PageCache<PM, P, R>,
    after: AfterRewrite<P>,
    result: Result<HPtr, Option<HPtr>>,
    step: Step<P>,
)
    where PM: Materializer<PageFrag = P, Recovery = R>, P: Clone, R: Clone
    requires
        call_ensures(PageCache::<PM, P, R>::rewritten, (pc, after, result), step),
    ensures
        match after {
            AfterRewrite::Complete(committed) => step == Step::<P>::Complete(committed),
            AfterRewrite::Return { merged, head } => match result {
                Ok(new_head) => step == Step::Return(Outcome::Got(Some((merged, new_head)))),
                Err(Some(actual)) => step == Step::Return(Outcome::Got(Some((merged, head)))),
                Err(None) => step == Step::<P>::Return(Outcome::Got(None)),
            },
        },
{
}

/// A completed write is counted, and a snapshot is due each time the count is a
/// multiple of the period. A completed removal has its identifier kept back.
pub proof fn law_calling_completed<PM, P, R>(
    pc: &mut PageCache<PM, P, R>,
    c: Committed,
    step: Step<P>,
)
    where PM: Materializer<PageFrag = P, Recovery = R>, P: Clone, R: Clone
    requires
        old(pc).settings().snapshot_after_ops > 0,
        call_ensures(PageCache::<PM, P, R>::completed, (pc, c), step),
    ensures
        ({
            let s = old(pc)@;
            let s1 = final(pc)@;
            let period = old(pc).settings().snapshot_after_ops;
            &&& final(pc).fixed() == old(pc).fixed()
            &&& match c.done {
                Done::Write(head) => {
                    &&& s1 == (CacheState { updates: s1.updates, ..s })
                    &&& s1.updates == (s.updates + 1) % (usize::MAX + 1)
                    &&& s1.updates % period == 0 ==> step == Step::<P>::Snapshot(
                        Outcome::Written(Ok(head)),
                    )
                    &&& s1.updates % period != 0 ==> step == Step::<P>::Return(
                        Outcome::Written(Ok(head)),
                    )
                },
                Done::Free(pid) => {
                    &&& step == Step::<P>::Defer(pid, Outcome::Freed)
                    &&& s1 == (CacheState { retired: s1.retired, deferred: s1.deferred, ..s })
                    &&& s1.retired == s.retired.remove(pid)
                    &&& s.retired.contains(pid) ==> s1.deferred == s.deferred.insert(pid)
                    &&& !s.retired.contains(pid) ==> s1.deferred == s.deferred
                },
            }
        }),
{
    law_what_follows_a_completion(old(pc).settings(), old(pc)@, c.done);
    if let Done::Free(pid) = c.done {
        assert(final(pc)@.retired =~= old(pc)@.retired.remove(pid));
    }
}

/// An identifier that was kept back is the next to be used once it has been
/// released; any other is left as it is.
pub proof fn law_calling_release<PM, P, R>(pc: &mut PageCache<PM, P, R>, pid: PageID)
    where PM: Materializer<PageFrag = P, Recovery = R>, P: Clone, R: Clone
    requires
        call_ensures(PageCache::<PM, P, R>::release, (pc, pid), ()),
    ensures
        ({
            let s = old(pc)@;
            let s1 = final(pc)@;
            &&& final(pc).fixed() == old(pc).fixed()
            &&& !s.deferred.contains(pid) ==> s1 == s
            &&& s.deferred.contains(pid) ==> s1 == (CacheState {
                free: s.free.push(pid),
                deferred: s.deferred.remove(pid),
                ..s
            })
        }),
{
}

/// Work on the snapshot is begun by one at a time, from the last snapshot or
/// from one with nothing in it, and reads the log from the start of the
/// segment in which the snapshot ends.
pub proof fn law_calling_advance_snapshot<PM, P, R>(
    pc: &mut PageCache<PM, P, R>,
    r: Option<Advancing<R>>,
)
    where PM: Materializer<PageFrag = P, Recovery = R>, P: Clone, R: Clone
    requires
        old(pc).settings().io_buf_size > 0,
        call_ensures(PageCache::<PM, P, R>::advance_snapshot, (pc,), r),
    ensures
        ({
            let s = old(pc)@;
            let s1 = final(pc)@;
            let size = old(pc).settings().io_buf_size as int;
            &&& final(pc).fixed() == old(pc).fixed()
            &&& s.snapshotting ==> r is None && s1 == s
            &&& !s.snapshotting ==> {
                &&& s1 == (CacheState { last_snapshot: None, snapshotting: true, ..s })
                &&& r matches Some(a)
                &&& s.last_snapshot matches Some(last) ==> a.snapshot@ == last
                &&& s.last_snapshot is None ==> {
                    &&& a.snapshot.max_lsn == 0
                    &&& a.snapshot.max_pid == 0
                    &&& forall|pid: PageID| !#[trigger] a.snapshot.pt@.contains_key(pid)
                    &&& a.snapshot.free@.len() == 0
                    &&& a.snapshot.recovery is None
                    &&& a.snapshot.segments == 0
                }
                &&& a.start_lsn <= a.snapshot.max_lsn < a.start_lsn + size
                &&& a.start_lsn as int % size == 0
            }
        }),
{
    law_work_on_the_snapshot_goes_on(old(pc)@);
    if let Some(a) = r {
        law_the_scan_begins_at_a_segment(a.snapshot.max_lsn, old(pc).settings().io_buf_size);
        if old(pc)@.last_snapshot is None {
            assert forall|pid: PageID| !#[trigger] a.snapshot.pt@.contains_key(pid) by {
                assert(!a.snapshot@.pt.contains_key(pid));
            }
        }
    }
}

/// In a log with increasing sequence numbers, the first `n` records are those
/// that are stable.
pub open spec fn first_are_stable<P>(records: Seq<LogRecord<P>>, stop_lsn: Lsn, n: int) -> bool {
    &&& increasing(records)
    &&& 0 <= n <= records.len()
    &&& forall|i: int|
        0 <= i < records.len() ==> (i < n <==> stop_lsn == 0 || (#[trigger] records[i]).lsn
            <= stop_lsn)
}

/// The stable records are those that are taken in.
proof fn lemma_first_are_stable<P>(records: Seq<LogRecord<P>>, stop_lsn: Lsn, n: int)
    requires
        first_are_stable(records, stop_lsn, n),
    ensures
        stable_len(records, stop_lsn) == n,
{
    law_every_stable_record_is_taken_in(records, stop_lsn);
    let k = stable_len(records, stop_lsn) as int;
    lemma_stable_len(records, stop_lsn);
    if k < n {
        assert(records[k].lsn <= stop_lsn || stop_lsn == 0);
    }
    if n < k {
        assert(records[n].lsn <= stop_lsn || stop_lsn == 0);
    }
}

/// A snapshot that has caught up with the log has every stable record in
/// itself, and no other: it ends at the newest, knows the pages that are there
/// after them, and lists the free identifiers, the largest first. What the
/// owner of the pages gets back is the newest answer of the materializer, and
/// what was there before only if there is none.
pub proof fn law_calling_catch_up<PM, P, R>(
    m: &PM,
    io_buf_size: usize,
    snapshot: Snapshot<R>,
    records: &Vec<LogRecord<P>>,
    stop_lsn: Lsn,
    n: int,
    r: Replay<R>,
)
    where PM: Materializer<PageFrag = P, Recovery = R>
    requires
        io_buf_size > 0,
        first_are_stable(records@, stop_lsn, n),
        forall|i: int| 0 <= i < n ==> (#[trigger] records@[i]).fits(io_buf_size),
        call_ensures(
            catch_up::<PM, P, R>,
            (m, io_buf_size, snapshot, records, stop_lsn),
            r,
        ),
    ensures
        has_the_stable_log(snapshot@, records@, stop_lsn, r.snapshot@),
        counts_segments_and_identifiers(
            io_buf_size,
            snapshot@,
            records@.take(n),
            r.snapshot@,
        ),
        stable_len(records@, stop_lsn) == n,
        n > 0 ==> r.snapshot.max_lsn == if records@[n - 1].lsn > snapshot.max_lsn {
            records@[n - 1].lsn
        } else {
            snapshot.max_lsn
        },
        n == 0 ==> r.snapshot.max_lsn == snapshot.max_lsn,
        exists|answers: Seq<Option<R>>|
            {
                &&& answers.len() == n
                &&& forall|i: int|
                    0 <= i < n ==> is_answer(
                        *m,
                        snapshot@,
                        records@,
                        i,
                        #[trigger] answers[i],
                    )
                &&& #[trigger] is_newest_answer(
                    snapshot.recovery,
                    answers,
                    r.snapshot.recovery,
                )
            },
{
    lemma_first_are_stable(records@, stop_lsn, n);
    law_catching_up_takes_in_the_stable_log(
        *m,
        io_buf_size,
        snapshot@,
        records@,
        stop_lsn,
        r@,
    );
    law_the_newest_answer_is_given_back(*m, io_buf_size, snapshot@, records@, stop_lsn, r@);
    law_catching_up_counts_segments_and_identifiers(
        *m,
        io_buf_size,
        snapshot@,
        records@,
        stop_lsn,
        r@,
    );
    assert(r@.snapshot == r.snapshot@);
    if n > 0 {
        assert(records@[n - 1].lsn <= r.snapshot@.max_lsn);
        if r.snapshot@.max_lsn != snapshot@.max_lsn {
            let i = choose|i: int|
                {
                    &&& 0 <= i < records@.len()
                    &&& stop_lsn == 0 || records@[i].lsn <= stop_lsn
                    &&& (#[trigger] records@[i]).lsn == r.snapshot@.max_lsn
                };
            if i < n - 1 {
                assert(records@[i].lsn < records@[n - 1].lsn);
            }
        }
    }
}

/// Of each page a snapshot that has caught up has the position of every
/// fragment in the stable log since the page's last beginning there, or behind
/// what it had before if there is none and the page was not removed.
pub proof fn law_catching_up_keeps_every_fragment<PM, P, R>(
    m: &PM,
    io_buf_size: usize,
    snapshot: Snapshot<R>,
    records: &Vec<LogRecord<P>>,
    stop_lsn: Lsn,
    n: int,
    r: Replay<R>,
    pid: PageID,
)
    where PM: Materializer<PageFrag = P, Recovery = R>
    requires
        first_are_stable(records@, stop_lsn, n),
        call_ensures(
            catch_up::<PM, P, R>,
            (m, io_buf_size, snapshot, records, stop_lsn),
            r,
        ),
    ensures
        forall|k: int|
            #![trigger records@[k]]
            0 <= k < n && begins(records@[k], snapshot.max_lsn, pid) && (forall|j: int|
                k < j < n ==> !begins(#[trigger] records@[j], snapshot.max_lsn, pid) && !removes(
                    records@[j],
                    snapshot.max_lsn,
                    pid,
                )) ==> {
                &&& r.snapshot@.pt.contains_key(pid)
                &&& lists_contributions(
                    r.snapshot@.pt[pid],
                    records@.take(n),
                    k,
                    snapshot.max_lsn,
                    pid,
                )
            },
        snapshot@.pt.contains_key(pid) && (forall|j: int|
            0 <= j < n ==> !begins(#[trigger] records@[j], snapshot.max_lsn, pid) && !removes(
                records@[j],
                snapshot.max_lsn,
                pid,
            )) ==> {
            let known = snapshot@.pt[pid];
            &&& r.snapshot@.pt.contains_key(pid)
            &&& r.snapshot@.pt[pid].len() >= known.len()
            &&& r.snapshot@.pt[pid].take(known.len() as int) == known
            &&& lists_contributions(
                r.snapshot@.pt[pid].skip(known.len() as int),
                records@.take(n),
                0,
                snapshot.max_lsn,
                pid,
            )
        },
{
    lemma_first_are_stable(records@, stop_lsn, n);
    assert forall|k: int|
        #![trigger records@[k]]
        0 <= k < n && begins(records@[k], snapshot.max_lsn, pid) && (forall|j: int|
            k < j < n ==> !begins(#[trigger] records@[j], snapshot.max_lsn, pid) && !removes(
                records@[j],
                snapshot.max_lsn,
                pid,
            )) implies {
        &&& r.snapshot@.pt.contains_key(pid)
        &&& lists_contributions(
            r.snapshot@.pt[pid],
            records@.take(n),
            k,
            snapshot.max_lsn,
            pid,
        )
    } by {
        law_the_snapshot_has_every_fragment_since_the_beginning(
            *m,
            io_buf_size,
            snapshot@,
            records@,
            stop_lsn,
            r@,
            pid,
            k,
        );
    }
    if snapshot@.pt.contains_key(pid) && (forall|j: int|
        0 <= j < n ==> !begins(#[trigger] records@[j], snapshot.max_lsn, pid) && !removes(
            records@[j],
            snapshot.max_lsn,
            pid,
        )) {
        law_the_snapshot_builds_on_what_it_had(
            *m,
            io_buf_size,
            snapshot@,
            records@,
            stop_lsn,
            r@,
            pid,
        );
    }
}

/// So has the snapshot of a cache that has caught up.
pub proof fn law_caught_up_keeps_every_fragment<PM, P, R>(
    pc: &PageCache<PM, P, R>,
    advancing: Advancing<R>,
    records: &Vec<LogRecord<P>>,
    stop_lsn: Lsn,
    n: int,
    r: Replay<R>,
    pid: PageID,
)
    where PM: Materializer<PageFrag = P, Recovery = R>, P: Clone, R: Clone
    requires
        first_are_stable(records@, stop_lsn, n),
        call_ensures(PageCache::<PM, P, R>::caught_up, (pc, advancing, records, stop_lsn), r),
    ensures
        forall|k: int|
            #![trigger records@[k]]
            0 <= k < n && begins(records@[k], advancing.snapshot.max_lsn, pid) && (forall|j: int|
                k < j < n ==> !begins(
                    #[trigger] records@[j],
                    advancing.snapshot.max_lsn,
                    pid,
                ) && !removes(
                    records@[j],
                    advancing.snapshot.max_lsn,
                    pid,
                )) ==> {
                &&& r.snapshot@.pt.contains_key(pid)
                &&& lists_contributions(
                    r.snapshot@.pt[pid],
                    records@.take(n),
                    k,
                    advancing.snapshot.max_lsn,
                    pid,
                )
            },
        advancing.snapshot@.pt.contains_key(pid) && (forall|j: int|
            0 <= j < n ==> !begins(
                    #[trigger] records@[j],
                    advancing.snapshot.max_lsn,
                    pid,
                ) && !removes(
                records@[j],
                advancing.snapshot.max_lsn,
                pid,
            )) ==> {
            let known = advancing.snapshot@.pt[pid];
            &&& r.snapshot@.pt.contains_key(pid)
            &&& r.snapshot@.pt[pid].len() >= known.len()
            &&& r.snapshot@.pt[pid].take(known.len() as int) == known
            &&& lists_contributions(
                r.snapshot@.pt[pid].skip(known.len() as int),
                records@.take(n),
                0,
                advancing.snapshot.max_lsn,
                pid,
            )
        },
{
    lemma_first_are_stable(records@, stop_lsn, n);
    assert forall|k: int|
        #![trigger records@[k]]
        0 <= k < n && begins(records@[k], advancing.snapshot.max_lsn, pid) && (forall|j: int|
            k < j < n ==> !begins(
                    #[trigger] records@[j],
                    advancing.snapshot.max_lsn,
                    pid,
                ) && !removes(
                records@[j],
                advancing.snapshot.max_lsn,
                pid,
            )) implies {
        &&& r.snapshot@.pt.contains_key(pid)
        &&& lists_contributions(
            r.snapshot@.pt[pid],
            records@.take(n),
            k,
            advancing.snapshot.max_lsn,
            pid,
        )
    } by {
        law_the_snapshot_has_every_fragment_since_the_beginning(
            pc.materializer(),
            pc.settings().io_buf_size,
            advancing.snapshot@,
            records@,
            stop_lsn,
            r@,
            pid,
            k,
        );
    }
    if advancing.snapshot@.pt.contains_key(pid) && (forall|j: int|
        0 <= j < n ==> !begins(
                    #[trigger] records@[j],
                    advancing.snapshot.max_lsn,
                    pid,
                ) && !removes(
            records@[j],
            advancing.snapshot.max_lsn,
            pid,
        )) {
        law_the_snapshot_builds_on_what_it_had(
            pc.materializer(),
            pc.settings().io_buf_size,
            advancing.snapshot@,
            records@,
            stop_lsn,
            r@,
            pid,
        );
    }
}

/// The cache brings its snapshot up to date as any snapshot is, with its own
/// materializer and segment size.
pub proof fn law_calling_caught_up<PM, P, R>(
    pc: &PageCache<PM, P, R>,
    advancing: Advancing<R>,
    records: &Vec<LogRecord<P>>,
    stop_lsn: Lsn,
    n: int,
    r: Replay<R>,
)
    where PM: Materializer<PageFrag = P, Recovery = R>, P: Clone, R: Clone
    requires
        pc.settings().io_buf_size > 0,
        first_are_stable(records@, stop_lsn, n),
        forall|i: int|
            0 <= i < n ==> (#[trigger] records@[i]).fits(pc.settings().io_buf_size),
        call_ensures(PageCache::<PM, P, R>::caught_up, (pc, advancing, records, stop_lsn), r),
    ensures
        has_the_stable_log(advancing.snapshot@, records@, stop_lsn, r.snapshot@),
        counts_segments_and_identifiers(
            pc.settings().io_buf_size,
            advancing.snapshot@,
            records@.take(n),
            r.snapshot@,
        ),
        stable_len(records@, stop_lsn) == n,
        exists|answers: Seq<Option<R>>|
            {
                &&& answers.len() == n
                &&& forall|i: int|
                    0 <= i < n ==> is_answer(
                        pc.materializer(),
                        advancing.snapshot@,
                        records@,
                        i,
                        #[trigger] answers[i],
                    )
                &&& #[trigger] is_newest_answer(
                    advancing.snapshot.recovery,
                    answers,
                    r.snapshot.recovery,
                )
            },
{
    lemma_first_are_stable(records@, stop_lsn, n);
    let m = pc.materializer();
    let size = pc.settings().io_buf_size;
    law_catching_up_takes_in_the_stable_log(
        m,
        size,
        advancing.snapshot@,
        records@,
        stop_lsn,
        r@,
    );
    law_the_newest_answer_is_given_back(
        m,
        size,
        advancing.snapshot@,
        records@,
        stop_lsn,
        r@,
    );
    law_catching_up_counts_segments_and_identifiers(
        m,
        size,
        advancing.snapshot@,
        records@,
        stop_lsn,
        r@,
    );
}

/// A snapshot that is published is the last one, and work on it is over.
pub proof fn law_calling_publish_snapshot<PM, P, R>(
    pc: &mut PageCache<PM, P, R>,
    snapshot: Snapshot<R>,
)
    where PM: Materializer<PageFrag = P, Recovery = R>, P: Clone, R: Clone
    requires
        call_ensures(PageCache::<PM, P, R>::publish_snapshot, (pc, snapshot), ()),
    ensures
        final(pc).fixed() == old(pc).fixed(),
        final(pc)@ == (CacheState {
            last_snapshot: Some(snapshot@),
            snapshotting: false,
            ..old(pc)@
        }),
{
}

/// Recovery is possible if there is a snapshot none of whose pages is there,
/// and a version left for them. It then gives every page its positions, and the
/// owner of the pages a clone of what the snapshot has for it.
pub proof fn law_calling_recover<PM, P, R>(
    pc: &mut PageCache<PM, P, R>,
    able: bool,
    r: Option<R>,
)
    where PM: Materializer<PageFrag = P, Recovery = R>, P: Clone, R: Clone
    requires
        call_ensures(PageCache::<PM, P, R>::can_recover, (old(pc),), able),
        call_ensures(PageCache::<PM, P, R>::recover, (pc,), r),
    ensures
        able <==> {
            &&& old(pc)@.last_version < u64::MAX
            &&& old(pc)@.last_snapshot matches Some(snapshot)
            &&& forall|pid: PageID| !(#[trigger] snapshot.pt.contains_key(pid)
                && old(pc)@.pages.contains_key(pid))
        },
        able ==> {
            &&& final(pc).fixed() == old(pc).fixed()
            &&& loads_every_page(old(pc)@, final(pc)@)
            &&& match old(pc)@.last_snapshot->0.recovery {
                Some(recovery) => r matches Some(copy) && cloned::<R>(recovery, copy),
                None => r is None,
            }
        },
{
    if able {
        law_recovery_loads_every_page(old(pc)@, final(pc)@);
    }
}

/// What one record does to a snapshot that catches up.
pub proof fn law_calling_record<PM, P, R>(
    replay: &mut Replay<R>,
    m: &PM,
    io_buf_size: usize,
    record: &LogRecord<P>,
)
    where PM: Materializer<PageFrag = P, Recovery = R>
    requires
        io_buf_size > 0,
        record.fits(io_buf_size),
        call_ensures(Replay::<R>::record::<PM, P>, (replay, m, io_buf_size, record), ()),
    ensures
        ({
            let before = old(replay).snapshot@;
            let after = final(replay).snapshot@;
            let segment = record.lid as int / io_buf_size as int;
            &&& record.lsn <= before.max_lsn ==> final(replay)@ == old(replay)@
            &&& record.lsn > before.max_lsn ==> {
                &&& after.max_lsn == record.lsn
                &&& before.segments > segment ==> after.segments == before.segments
                &&& before.segments <= segment ==> after.segments == segment + 1
                &&& record.update is None ==> {
                    &&& after.pt == before.pt
                    &&& after.free == before.free
                    &&& after.max_pid == before.max_pid
                    &&& after.recovery == before.recovery
                    &&& final(replay).ops@ == old(replay).ops@
                    &&& final(replay).last_segment == old(replay).last_segment
                }
                &&& record.update matches Some(u) ==> {
                    &&& changes_its_segments(
                        io_buf_size,
                        old(replay)@,
                        *record,
                        final(replay).ops@,
                    )
                    &&& final(replay).last_segment == Some(segment as usize)
                    &&& after.pt.remove(u.pid) == before.pt.remove(u.pid)
                    &&& u.pid < before.max_pid ==> after.max_pid == before.max_pid
                    &&& u.pid >= before.max_pid ==> after.max_pid == u.pid + 1
                    &&& match u.update {
                        Update::Append(frag) => {
                            &&& after.free == before.free
                            &&& after.pt.contains_key(u.pid) <==> before.pt.contains_key(u.pid)
                            &&& before.pt.contains_key(u.pid) ==> after.pt[u.pid]
                                == before.pt[u.pid].push((record.lsn, record.lid))
                            &&& before.pt.contains_key(u.pid) ==> exists|found: Option<R>|
                                {
                                    &&& #[trigger] call_ensures(PM::recover, (m, &frag), found)
                                    &&& found is Some ==> after.recovery == found
                                    &&& found is None ==> after.recovery == before.recovery
                                }
                            &&& !before.pt.contains_key(u.pid) ==> after.recovery
                                == before.recovery
                        },
                        Update::Compact(frag) => {
                            &&& after.free == before.free
                            &&& after.pt.contains_key(u.pid)
                            &&& after.pt[u.pid] == seq![(record.lsn, record.lid)]
                            &&& exists|found: Option<R>|
                                {
                                    &&& #[trigger] call_ensures(PM::recover, (m, &frag), found)
                                    &&& found is Some ==> after.recovery == found
                                    &&& found is None ==> after.recovery == before.recovery
                                }
                        },
                        Update::Free => {
                            &&& after.free == before.free.push(u.pid)
                            &&& !after.pt.contains_key(u.pid)
                            &&& after.recovery == before.recovery
                        },
                        Update::Alloc => {
                            &&& after.free == before.free.filter(|q: PageID| q != u.pid)
                            &&& after.pt.contains_key(u.pid)
                            &&& after.pt[u.pid].len() == 0
                            &&& after.recovery == before.recovery
                        },
                    }
                }
            }
        }),
{
    let before = old(replay)@;
    let found = choose|found: Option<R>| #[trigger]
        asked(*m, before, *record, found) && final(replay)@ == replay_record(
            io_buf_size,
            before,
            *record,
            found,
        );
    law_the_snapshot_moves_on_to_the_record(io_buf_size, before, *record, found);
    law_when_the_materializer_is_asked(*m, before, *record, found);
    assert(final(replay)@.snapshot == final(replay).snapshot@);
    if record.lsn > before.snapshot.max_lsn && record.update is Some {
        law_a_record_changes_its_page(io_buf_size, before, *record, found);
        law_a_record_changes_its_segments(io_buf_size, before, *record, found);
    }
}

/// A record can be taken in if its page's identifier has a successor and its
/// segment can be counted; it is past the stable part of the log only if there
/// is a known end before it.
pub proof fn law_calling_can_replay<P>(
    record: &LogRecord<P>,
    io_buf_size: usize,
    able: bool,
    stop_lsn: Lsn,
    past: bool,
)
    requires
        io_buf_size > 0,
        call_ensures(LogRecord::<P>::can_replay, (record, io_buf_size), able),
        call_ensures(is_past_stable, (record.lsn, stop_lsn), past),
    ensures
        able <==> {
            &&& record.lid <= usize::MAX
            &&& record.lid as int / io_buf_size as int + 1 <= usize::MAX
            &&& record.update is Some ==> record.update->0.pid + 1 <= usize::MAX
        },
        past <==> !(stop_lsn == 0 || record.lsn <= stop_lsn),
{
}

/// Identifiers that have been sorted are the same, the largest first.
pub proof fn law_calling_sort_descending(ids: &mut Vec<PageID>)
    requires
        call_ensures(sort_descending, (ids,), ()),
    ensures
        final(ids)@.to_multiset() == old(ids)@.to_multiset(),
        forall|i: int, j: int|
            0 <= i < j < final(ids)@.len() ==> final(ids)@[i] >= final(ids)@[j],
{
}

/// What can be told of a stack is told of all of it.
pub proof fn law_calling_the_functions_on_stacks<P>(
    entries: &Vec<CacheEntry<P>>,
    at: Vec<(Lsn, LogID)>,
    lids: Vec<LogID>,
    below: usize,
)
    requires
        call_ensures(locations::<P>, (entries,), at),
        call_ensures(lids_from_stack::<P>, (entries,), lids),
        call_ensures(count_below_residents::<P>, (entries,), below),
    ensures
        lists_positions(at@, entries@),
        lids@.len() == entries@.len(),
        forall|i: int|
            0 <= i < entries@.len() ==> has_lid(
                entries@[entries@.len() - 1 - i],
                #[trigger] lids@[i],
            ),
        below <= entries@.len(),
        forall|i: int| below <= i < entries@.len() ==> (#[trigger] entries@[i]) is Resident,
        below > 0 ==> !(entries@[below - 1] is Resident),
{
    law_positions_are_those_of_the_entries(entries@, at@);
    law_old_positions_are_those_of_the_entries(entries@);
    law_the_run_at_the_head_is_all_of_it(entries@, below as int);
}

/// A stack that is built has all its positions, the oldest marked as such, and
/// nothing in memory but the merged page, if there is one.
pub proof fn law_calling_the_builders_of_stacks<P>(
    merged: P,
    at: &Vec<(Lsn, LogID)>,
    flushed: Vec<CacheEntry<P>>,
    fixed_up: Vec<CacheEntry<P>>,
)
    requires
        at@.len() > 0,
        call_ensures(flush_all::<P>, (at,), flushed),
        call_ensures(fix_up::<P>, (merged, at), fixed_up),
    ensures
        lists_positions(at@, flushed@),
        flushed@[0] is Flush,
        forall|i: int| 0 < i < at@.len() ==> (#[trigger] flushed@[i]) is PartialFlush,
        lists_positions(at@, fixed_up@),
        fixed_up@[at@.len() - 1] is MergedResident,
        holds(fixed_up@[at@.len() - 1], merged),
        at@.len() > 1 ==> fixed_up@[0] is Flush,
        forall|i: int| 0 < i < at@.len() - 1 ==> (#[trigger] fixed_up@[i]) is PartialFlush,
{
    law_a_flushed_stack_keeps_its_positions::<P>(at@);
    law_a_fixed_up_stack_keeps_its_positions(merged, at@);
}

/// A reservation that is completed leaves its data in its room, one that is
/// aborted leaves zeroes where the data would have been, and both leave the
/// buffer, once, and give the reservation's place in the log.
pub proof fn law_calling_complete_and_abort(
    completed: Reservation,
    c: (Lsn, LogID),
    aborted: Reservation,
    a: (Lsn, LogID),
)
    requires
        call_ensures(Reservation::complete, (completed,), c),
        call_ensures(Reservation::abort, (aborted,), a),
    ensures
        c == (completed.lsn, completed.lid),
        final(completed.destination)@ == completed.data@,
        final(completed.iobufs).exited@ == old(completed.iobufs).exited@.push(completed.idx),
        a == (aborted.lsn, aborted.lid),
        final(aborted.destination)@.len() == old(aborted.destination)@.len(),
        forall|i: int|
            0 <= i < aborted.data@.len() && i < old(aborted.destination)@.len() ==> final(
                aborted.destination
            )@[i] == 0,
        forall|i: int|
            aborted.data@.len() <= i < old(aborted.destination)@.len() ==> final(
                aborted.destination
            )@[i] == old(aborted.destination)@[i],
        final(aborted.iobufs).exited@ == old(aborted.iobufs).exited@.push(aborted.idx),
{
}

/// The name of a snapshot file is the prefix, a point and the digits of the
/// sequence number, and while it is being written it says so at its end.
pub proof fn law_calling_snapshot_path(
    prefix: &str,
    max_lsn: Lsn,
    path: String,
    in_motion: String,
)
    requires
        call_ensures(snapshot_path, (prefix, max_lsn), path),
        call_ensures(snapshot_path_in_motion, (prefix, max_lsn), in_motion),
    ensures
        in_motion@ == path@ + ".in___motion"@,
        path@.len() > prefix@.len() + 1,
        path@.take(prefix@.len() as int) == prefix@,
        path@[prefix@.len() as int] == '.',
        number(path@.skip(prefix@.len() as int + 1)) == max_lsn,
        forall|i: int|
            prefix@.len() < i < path@.len() ==> '0' <= #[trigger] path@[i] <= '9',
        max_lsn > 0 ==> path@[prefix@.len() as int + 1] != '0',
        max_lsn == 0 ==> path@.len() == prefix@.len() + 2,
{
    let digits = decimal(max_lsn as nat);
    law_a_number_is_written_in_digits(max_lsn as nat);
    assert(path@.take(prefix@.len() as int) =~= prefix@);
    assert(path@.skip(prefix@.len() as int + 1) =~= digits);
    assert forall|i: int| prefix@.len() < i < path@.len() implies '0' <= #[trigger] path@[i]
        <= '9' by {
        assert(path@[i] == digits[i - prefix@.len() - 1]);
    }
    assert(path@[prefix@.len() as int + 1] == digits[0]);
}

/// A file is superseded unless its name is what the name of the current one
/// ends with, and of all files the one read is the last of the newest.
pub proof fn law_calling_is_superseded_and_newest(
    current: &str,
    file_name: &str,
    superseded: bool,
    created: &Vec<i128>,
    chosen: Option<usize>,
)
    requires
        call_ensures(is_superseded, (current, file_name), superseded),
        call_ensures(newest, (created,), chosen),
    ensures
        !superseded <==> exists|start: Seq<char>| current@ == #[trigger] (start + file_name@),
        chosen is None <==> created@.len() == 0,
        chosen matches Some(i) ==> {
            &&& i < created@.len()
            &&& forall|j: int|
                0 <= j < created@.len() ==> #[trigger] created@[j] <= created@[i as int]
            &&& forall|j: int|
                i < j < created@.len() ==> #[trigger] created@[j] < created@[i as int]
        },
{
    law_what_a_name_ends_with(current@, file_name@);
}

/// A snapshot file that is made holds the bytes, or what the compression
/// library makes of them at the fifth level, and behind them their checksum.
/// None is made if and only if compression was asked for and failed.
pub proof fn law_calling_encode_snapshot<F: Fn(&Vec<u8>) -> u64>(
    raw_bytes: Vec<u8>,
    use_compression: bool,
    order: ByteOrder,
    crc64: F,
    r: Result<Vec<u8>, SnapshotFileError>,
)
    requires
        call_ensures(encode_snapshot::<F>, (raw_bytes, use_compression, order, crc64), r),
    ensures
        match r {
            Ok(file) => file@.len() >= 8 && exists|bytes: &Vec<u8>, crc: u64|
                {
                    &&& #[trigger] call_ensures(crc64, (bytes,), crc)
                    &&& bytes@ == file@.take(file@.len() - 8)
                    &&& stands_for(file@.skip(file@.len() - 8), crc, order)
                    &&& !use_compression ==> bytes@ == raw_bytes@
                    &&& use_compression ==> zstd_compresses(raw_bytes@, 5, Some(bytes@))
                },
            Err(e) => {
                &&& e == SnapshotFileError::Compression
                &&& use_compression
                &&& zstd_compresses(raw_bytes@, 5, None)
            },
        },
{
    if let Ok(file) = r {
        law_what_a_written_file_holds(crc64, order, raw_bytes@, use_compression, file@);
    }
}

/// Bytes that are there are sealed with their checksum; where there are none
/// because of an error, that is reported.
pub proof fn law_calling_seal<F: Fn(&Vec<u8>) -> u64>(
    stored: Result<Vec<u8>, std::io::Error>,
    order: ByteOrder,
    crc64: F,
    r: Result<Vec<u8>, SnapshotFileError>,
)
    requires
        call_ensures(seal::<F>, (stored, order, crc64), r),
    ensures
        stored is Err <==> r == Err::<Vec<u8>, _>(SnapshotFileError::Compression),
        stored matches Ok(body) ==> (r matches Ok(file) && file@.len() == body@.len() + 8
            && file@.take(body@.len() as int) == body@ && exists|bytes: &Vec<u8>, crc: u64|
            {
                &&& #[trigger] call_ensures(crc64, (bytes,), crc)
                &&& bytes@ == body@
                &&& stands_for(file@.skip(body@.len() as int), crc, order)
            }),
{
    if let Ok(body) = stored {
        let crc = choose|crc: u64| #[trigger]
            checks(crc64, body@, crc) && (r matches Ok(file) && file@
                == sealed(body@, crc, order));
        law_a_file_is_the_bytes_and_the_checksum(body@, crc, order);
        let bytes = choose|bytes: &Vec<u8>|
            bytes@ == body@ && #[trigger] call_ensures(crc64, (bytes,), crc);
        assert(call_ensures(crc64, (bytes,), crc));
    }
}

/// A snapshot file is read if and only if it has room for a checksum, the
/// checksum is that of all bytes before it, and these can be decompressed if
/// they are to be.
pub proof fn law_calling_decode_snapshot<F: Fn(&Vec<u8>) -> u64>(
    file: Vec<u8>,
    use_compression: bool,
    io_buf_size: usize,
    order: ByteOrder,
    crc64: F,
    r: Result<Vec<u8>, SnapshotFileError>,
)
    requires
        call_ensures(
            decode_snapshot::<F>,
            (file, use_compression, io_buf_size, order, crc64),
            r,
        ),
    ensures
        file@.len() < 8 <==> r == Err::<Vec<u8>, _>(SnapshotFileError::TooShort),
        file@.len() >= 8 ==> exists|bytes: &Vec<u8>, crc: u64|
            {
                let body = file@.take(file@.len() - 8);
                let intact = stands_for(file@.skip(file@.len() - 8), crc, order);
                &&& #[trigger] call_ensures(crc64, (bytes,), crc)
                &&& bytes@ == body
                &&& !intact <==> r == Err::<Vec<u8>, _>(SnapshotFileError::CrcMismatch)
                &&& intact && !use_compression ==> (r matches Ok(read) && read@ == body)
                &&& intact && use_compression ==> match r {
                    Ok(read) => zstd_decompresses(body, io_buf_size, Some(read@)),
                    Err(e) => e == SnapshotFileError::Compression && zstd_decompresses(
                        body,
                        io_buf_size,
                        None,
                    ),
                }
            },
{
    law_what_is_read_from_a_file(crc64, order, file@, use_compression, io_buf_size, r);
}

/// A record that is read back contributes the fragment that is in it, if there
/// is one.
pub proof fn law_calling_page_frag<P>(u: LoggedUpdate<P>, r: Option<P>)
    requires
        call_ensures(LoggedUpdate::<P>::page_frag, (u,), r),
    ensures
        match u.update {
            Update::Append(frag) => r == Some(frag),
            Update::Compact(frag) => r == Some(frag),
            Update::Free => r is None,
            Update::Alloc => r is None,
        },
{
}

/// The version of an empty page is the one that is null.
pub proof fn law_calling_null(null: HPtr, key: HPtr, r: bool)
    requires
        call_ensures(HPtr::null, (), null),
        call_ensures(HPtr::is_null, (&key,), r),
    ensures
        r <==> key.id == null.id,
        null.id == 0,
{
}

/// A reservation that is given up is aborted if and only if it has something to
/// write and was neither completed nor aborted.
pub proof fn law_calling_drop(dropped: Reservation)
    requires
        call_ensures(Reservation::drop, (dropped,), ()),
    ensures
        dropped.data@.len() == 0 || dropped.flushed ==> {
            &&& final(dropped.destination)@ == old(dropped.destination)@
            &&& final(dropped.iobufs).exited@ == old(dropped.iobufs).exited@
        },
        dropped.data@.len() > 0 && !dropped.flushed ==> {
            &&& final(dropped.iobufs).exited@ == old(dropped.iobufs).exited@.push(dropped.idx)
            &&& final(dropped.destination)@.len() == old(dropped.destination)@.len()
            &&& forall|i: int|
                0 <= i < dropped.data@.len() && i < old(dropped.destination)@.len() ==> final(
                    dropped.destination
                )@[i] == 0
            &&& forall|i: int|
                dropped.data@.len() <= i < old(dropped.destination)@.len() ==> final(
                    dropped.destination
                )@[i] == old(dropped.destination)@[i]
        },
{
}

/// A reservation gives its own place in the log, and buffers are left in the
/// order in which it happens.
pub proof fn law_calling_the_rest_of_reservations(
    r: &Reservation,
    lsn: Lsn,
    lid: LogID,
    fresh: IoBufs,
    bufs: &mut IoBufs,
    idx: usize,
)
    requires
        call_ensures(Reservation::lsn, (r,), lsn),
        call_ensures(Reservation::lid, (r,), lid),
        call_ensures(IoBufs::new, (), fresh),
        call_ensures(IoBufs::exit_reservation, (bufs, idx), ()),
    ensures
        lsn == r.lsn,
        lid == r.lid,
        fresh.exited@.len() == 0,
        final(bufs).exited@ == old(bufs).exited@.push(idx),
{
}

/// A snapshot and a replay begin with nothing in them but what is given.
pub proof fn law_calling_the_constructors<R>(
    fresh: Snapshot<R>,
    snapshot: Snapshot<R>,
    replay: Replay<R>,
)
    requires
        call_ensures(Snapshot::<R>::new, (), fresh),
        call_ensures(Replay::<R>::new, (snapshot,), replay),
    ensures
        fresh.max_lsn == 0,
        fresh.max_pid == 0,
        forall|pid: PageID| !#[trigger] fresh.pt@.contains_key(pid),
        fresh.free@.len() == 0,
        fresh.recovery is None,
        fresh.segments == 0,
        replay.snapshot@ == snapshot@,
        replay.last_segment is None,
        replay.ops@.len() == 0,
{
    assert forall|pid: PageID| !#[trigger] fresh.pt@.contains_key(pid) by {
        assert(!fresh@.pt.contains_key(pid));
    }
}

/// What can be asked of a cache is what it is.
pub proof fn law_calling_the_getters<PM, P, R>(
    pc: &PageCache<PM, P, R>,
    max_pid: PageID,
    free: &Vec<PageID>,
)
    where PM: Materializer<PageFrag = P, Recovery = R>, P: Clone, R: Clone
    requires
        call_ensures(PageCache::<PM, P, R>::max_pid, (pc,), max_pid),
        call_ensures(PageCache::<PM, P, R>::free_pids, (pc,), free),
    ensures
        max_pid == pc@.max_pid,
        free@ == pc@.free,
{
}

/// A page that has been replaced is read as what it was replaced by, under the
/// version that the replacement gave it, for as long as nothing else happens to
/// it.
pub proof fn law_what_is_written_is_read<PM, P, R>(
    pc: &mut PageCache<PM, P, R>,
    w: Writing<P>,
    lsn: Lsn,
    lid: LogID,
    marking: Marking,
    later: &PageCache<PM, P, R>,
    step: Step<P>,
)
    where PM: Materializer<PageFrag = P, Recovery = R>, P: Clone, R: Clone
    requires
        w.wf(),
        w.kind is Replace,
        call_ensures(PageCache::<PM, P, R>::reserved, (pc, w, lsn, lid), Step::<P>::Mark(marking)),
        later@.wf(),
        later@.pages.contains_key(w.update.pid),
        later@.pages[w.update.pid] == final(pc)@.pages[w.update.pid],
        call_ensures(PageCache::<PM, P, R>::get, (later, w.update.pid), step),
    ensures
        step matches Step::Return(Outcome::Got(Some((page, head)))) && {
            &&& cloned::<P>(w.new->0, page)
            &&& marking.committed.done == Done::Write(head)
        },
{
    law_calling_reserved(pc, w, lsn, lid, Step::<P>::Mark(marking));
    law_calling_get(later, w.update.pid, step);
}

/// A fragment that has been linked is merged last when its page is read from
/// memory, after everything that was there before.
pub proof fn law_what_is_linked_is_read_last<PM, P, R>(
    pc: &mut PageCache<PM, P, R>,
    w: Writing<P>,
    lsn: Lsn,
    lid: LogID,
    marking: Marking,
    later: &PageCache<PM, P, R>,
    q: Merged<P>,
)
    where PM: Materializer<PageFrag = P, Recovery = R>, P: Clone, R: Clone
    requires
        w.wf(),
        w.kind is Link,
        call_ensures(PageCache::<PM, P, R>::reserved, (pc, w, lsn, lid), Step::<P>::Mark(marking)),
        later@.wf(),
        later@.pages.contains_key(w.update.pid),
        later@.pages[w.update.pid] == final(pc)@.pages[w.update.pid],
        call_ensures(PageCache::<PM, P, R>::get, (later, w.update.pid), Step::Access(q)),
    ensures
        marking.committed.done == Done::Write(q.head),
        exists|fragments: Seq<P>|
            {
                &&& #[trigger] merged_from(later.materializer(), fragments, q.merged)
                &&& fragments.len() > 0
                &&& fragments[fragments.len() - 1] == w.new->0
            },
{
    law_calling_reserved(pc, w, lsn, lid, Step::<P>::Mark(marking));
    law_calling_get(later, w.update.pid, Step::Access(q));
    let page = later@.pages[w.update.pid];
    let (from, fragments) = choose|from: int, fragments: Seq<P>| #[trigger]
        read_from_memory(later.materializer(), page, from, fragments, q);
    let n = page.entries.len() as int;
    assert(holds(page.entries[from + (n - 1 - from)], fragments[n - 1 - from]));
    assert(merged_from(later.materializer(), fragments, q.merged));
}

} // verus!
