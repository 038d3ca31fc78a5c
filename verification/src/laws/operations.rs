//! What each step of the other operations is for.

use crate::laws::stacks::{has_lid, in_log_only, lists_positions};
use crate::materializer::{recovers, Materializer};
use crate::snapshot::{sorts, Replay, Snapshot};
use crate::stack::CacheEntry;
use crate::state::CacheState;
use crate::step::{Cleanup, Done, Mark, Outcome, Step, WriteKind, Writing};
use crate::transitions::{
    after_completed, after_reserved, allocated, can_load, completed_step, has_next_pid, loads,
    next_pid, released, removed, reserved_step, snapshot_of, with_loaded, writes,
};
use crate::types::{Config, HPtr, LogID, Lsn, PageID, Update};
use vstd::prelude::*;

verus! {

/// A new cache has nothing in it, and its first page gets the smallest
/// identifier.
pub proof fn law_a_new_cache_has_nothing_in_it<P, R>()
    ensures
        ({
            let s = CacheState::<P, R>::empty();
            &&& forall|pid: PageID| !#[trigger] s.pages.contains_key(pid)
            &&& s.free.len() == 0
            &&& forall|pid: PageID| !#[trigger] s.retired.contains(pid)
            &&& forall|pid: PageID| !#[trigger] s.deferred.contains(pid)
            &&& s.max_pid == 0
            &&& s.last_version == 0
            &&& s.updates == 0
            &&& s.last_snapshot is None
            &&& !s.snapshotting
        }),
{
}

/// A page can be created unless the identifiers are used up or the next one
/// belongs to a page. It is created under the identifier that was freed last,
/// or else under the smallest that was never used; it is empty, and nothing
/// else changes.
pub proof fn law_a_page_is_created_empty<P, R>(s: CacheState<P, R>)
    ensures
        s.free.len() > 0 ==> next_pid(s) == s.free[s.free.len() - 1],
        s.free.len() == 0 ==> next_pid(s) == s.max_pid,
        has_next_pid(s) <==> !s.pages.contains_key(next_pid(s)) && (s.free.len() > 0 || s.max_pid
            < usize::MAX),
        has_next_pid(s) ==> ({
            let s1 = allocated(s);
            let pid = next_pid(s);
            &&& s1 == (CacheState {
                pages: s1.pages,
                free: s1.free,
                max_pid: s1.max_pid,
                ..s
            })
            &&& s1.pages.contains_key(pid)
            &&& s1.pages[pid].entries.len() == 0
            &&& s1.pages[pid].head.id == 0
            &&& s1.pages.remove(pid) == s.pages
            &&& s.free.len() > 0 ==> s1.free.push(pid) == s.free && s1.max_pid == s.max_pid
            &&& s.free.len() == 0 ==> s1.free == s.free && s1.max_pid == s.max_pid + 1
        }),
{
    if has_next_pid(s) {
        let s1 = allocated(s);
        assert(s1.pages.remove(next_pid(s)) =~= s.pages);
        if s.free.len() > 0 {
            assert(s1.free.push(next_pid(s)) =~= s.free);
        }
    }
}

/// A removed page is gone, its identifier is kept back, and nothing else
/// changes.
pub proof fn law_a_removed_page_is_gone<P, R>(s: CacheState<P, R>, pid: PageID)
    ensures
        ({
            let s1 = removed(s, pid);
            &&& s1 == (CacheState { pages: s1.pages, retired: s1.retired, ..s })
            &&& forall|q: PageID| #[trigger]
                s1.pages.contains_key(q) <==> s.pages.contains_key(q) && q != pid
            &&& forall|q: PageID|
                s1.pages.contains_key(q) ==> #[trigger] s1.pages[q] == s.pages[q]
            &&& forall|q: PageID| #[trigger]
                s1.retired.contains(q) <==> s.retired.contains(q) || q == pid
        }),
{
}

/// A write that is asked for goes to its page under the version presented,
/// with the value given; a clone of the value goes into the log, as the
/// beginning of the page's history or as an addition to it.
pub proof fn law_a_write_is_logged_as_it_is_meant<P: Clone>(
    w: Writing<P>,
    pid: PageID,
    key: HPtr,
    new: P,
    kind: WriteKind,
    begins: bool,
)
    requires
        writes(w, pid, key, new, kind, begins),
    ensures
        w.update.pid == pid,
        w.key == key,
        w.kind == kind,
        w.new == Some(new),
        begins ==> (w.update.update matches Update::Compact(copy) && cloned::<P>(new, copy)),
        !begins ==> (w.update.update matches Update::Append(copy) && cloned::<P>(new, copy)),
        kind is Replace && begins || kind is Link ==> w.wf(),
{
}

/// A write finds its page under the version that it presents.
pub open spec fn finds_its_version<P, R>(s: CacheState<P, R>, w: Writing<P>) -> bool {
    &&& s.pages.contains_key(w.update.pid)
    &&& s.pages[w.update.pid].head.id == w.key.id
    &&& s.last_version < u64::MAX
}

/// A write that does not find its page under the version that it presents
/// changes nothing. Its place in the log is given up, and it reports the
/// version that the page has, or that there is no such page.
pub proof fn law_a_write_that_comes_too_late_changes_nothing<P, R>(
    s: CacheState<P, R>,
    w: Writing<P>,
    lsn: Lsn,
    lid: LogID,
    step: Step<P>,
)
    requires
        !(w.kind is Free),
        !finds_its_version(s, w),
        reserved_step(s, w, lsn, lid, step),
    ensures
        after_reserved(s, w, lsn, lid) == s,
        step matches Step::Abort(l, d, Outcome::Written(Err(actual))) && {
            &&& l == lsn
            &&& d == lid
            &&& !s.pages.contains_key(w.update.pid) ==> actual is None
            &&& s.pages.contains_key(w.update.pid) ==> actual == Some(s.pages[w.update.pid].head)
        },
{
}

/// Nothing changes but the one page, which gets the next version.
pub open spec fn only_this_page_changes<P, R>(
    s: CacheState<P, R>,
    pid: PageID,
    s1: CacheState<P, R>,
) -> bool {
    &&& s1 == (CacheState { pages: s1.pages, last_version: s1.last_version, ..s })
    &&& s1.last_version == s.last_version + 1
    &&& s1.pages.remove(pid) == s.pages.remove(pid)
    &&& s1.pages.contains_key(pid)
    &&& s1.pages[pid].head.id == s.last_version + 1
}

/// The page is replaced, and what follows is told.
pub open spec fn is_all_there_is<P, R>(
    s: CacheState<P, R>,
    w: Writing<P>,
    recursed: bool,
    lsn: Lsn,
    lid: LogID,
    s1: CacheState<P, R>,
    step: Step<P>,
) -> bool {
    let pid = w.update.pid;
    let before = s.pages[pid].entries;
    &&& only_this_page_changes(s, pid, s1)
    &&& s1.pages[pid].entries.len() == 1
    &&& s1.pages[pid].entries[0] matches CacheEntry::MergedResident(new, l, d)
    &&& Some(new) == w.new
    &&& l == lsn && d == lid
    &&& step matches Step::Mark(m)
    &&& m.mark matches Mark::Replace { pid: p, lsn: l, old_lids, lid: d }
    &&& p == pid && l == lsn && d == lid
    &&& old_lids@.len() == before.len()
    &&& forall|i: int|
        0 <= i < before.len() ==> has_lid(
            before[before.len() - 1 - i],
            #[trigger] old_lids@[i],
        )
    &&& recursed ==> m.cleanup == Cleanup::Skip
    &&& !recursed ==> m.cleanup == Cleanup::AnyBut(pid)
    &&& m.committed.lsn == lsn && m.committed.lid == lid
    &&& m.committed.done == Done::Write(s1.pages[pid].head)
}

/// A replacement that finds its version leaves the page with the one entry
/// that holds the new value, at its place in the log. The segment accountant
/// is told of every fragment that it supersedes, and asked for a page to be
/// moved, other than this one, unless the replacement is itself such a move.
pub proof fn law_a_replacement_is_all_there_is_of_its_page<P, R>(
    s: CacheState<P, R>,
    w: Writing<P>,
    recursed: bool,
    lsn: Lsn,
    lid: LogID,
    step: Step<P>,
)
    requires
        w.kind == (WriteKind::Replace { recursed }),
        w.new is Some,
        finds_its_version(s, w),
        reserved_step(s, w, lsn, lid, step),
    ensures
        is_all_there_is(s, w, recursed, lsn, lid, after_reserved(s, w, lsn, lid), step),
{
    let pid = w.update.pid;
    assert(s.pages[pid].head == w.key);
    assert(after_reserved(s, w, lsn, lid).pages.remove(pid) =~= s.pages.remove(pid));
}

/// The fragment goes on top of its page, and what follows is told.
pub open spec fn goes_on_top<P, R>(
    s: CacheState<P, R>,
    w: Writing<P>,
    lsn: Lsn,
    lid: LogID,
    s1: CacheState<P, R>,
    step: Step<P>,
) -> bool {
    let pid = w.update.pid;
    let n = s.pages[pid].entries.len() as int;
    &&& only_this_page_changes(s, pid, s1)
    &&& s1.pages[pid].entries.len() == n + 1
    &&& forall|i: int|
        0 <= i < n ==> #[trigger] s1.pages[pid].entries[i] == s.pages[pid].entries[i]
    &&& s1.pages[pid].entries[n] matches CacheEntry::Resident(new, l, d)
    &&& Some(new) == w.new
    &&& l == lsn && d == lid
    &&& step matches Step::Mark(m)
    &&& m.mark == (Mark::Link { pid, lsn, lid })
    &&& m.cleanup == Cleanup::Any
    &&& m.committed.lsn == lsn && m.committed.lid == lid
    &&& m.committed.done == Done::Write(s1.pages[pid].head)
}

/// A fragment that is linked and finds its version goes on top of its page,
/// and everything below it stays. The segment accountant is told of it, and
/// asked for a page to be moved.
pub proof fn law_a_linked_fragment_goes_on_top<P, R>(
    s: CacheState<P, R>,
    w: Writing<P>,
    lsn: Lsn,
    lid: LogID,
    step: Step<P>,
)
    requires
        w.kind is Link,
        w.new is Some,
        finds_its_version(s, w),
        reserved_step(s, w, lsn, lid, step),
    ensures
        goes_on_top(s, w, lsn, lid, after_reserved(s, w, lsn, lid), step),
{
    let pid = w.update.pid;
    assert(s.pages[pid].head == w.key);
    assert(after_reserved(s, w, lsn, lid).pages.remove(pid) =~= s.pages.remove(pid));
}

/// A removal whose place in the log is known changes nothing more in the
/// cache. The segment accountant is told of the fragments that it supersedes,
/// and not asked for a page.
pub proof fn law_a_removal_supersedes_its_fragments<P, R>(
    s: CacheState<P, R>,
    w: Writing<P>,
    lsn: Lsn,
    lid: LogID,
    step: Step<P>,
)
    requires
        reserved_step(s, w, lsn, lid, step),
    ensures
        w.kind matches WriteKind::Free { lids } ==> {
            &&& after_reserved(s, w, lsn, lid) == s
            &&& step matches Step::Mark(m)
            &&& m.mark matches Mark::Replace { pid, lsn: l, old_lids, lid: d }
            &&& pid == w.update.pid && l == lsn && old_lids@ == lids@ && d == lid
            &&& m.cleanup == Cleanup::Skip
            &&& m.committed.lsn == lsn && m.committed.lid == lid
            &&& m.committed.done == Done::Free(w.update.pid)
        },
{
}

/// A completed write is counted, modulo the size of the counter, and a
/// snapshot is due if and only if the count is a multiple of the period. A
/// completed removal has its identifier kept back for those who may hold a
/// version of the page. Neither touches a page.
pub proof fn law_what_follows_a_completion<P, R>(config: Config, s: CacheState<P, R>, done: Done)
    requires
        config.snapshot_after_ops > 0,
    ensures
        ({
            let s1 = after_completed(s, done);
            let step = completed_step::<P, R>(config, s, done);
            match done {
                Done::Write(head) => {
                    &&& s1 == (CacheState { updates: s1.updates, ..s })
                    &&& s1.updates == (s.updates + 1) % (usize::MAX + 1)
                    &&& s1.updates % config.snapshot_after_ops == 0 ==> step == Step::<
                        P,
                    >::Snapshot(Outcome::Written(Ok(head)))
                    &&& s1.updates % config.snapshot_after_ops != 0 ==> step == Step::<P>::Return(
                        Outcome::Written(Ok(head)),
                    )
                },
                Done::Free(pid) => {
                    &&& step == Step::<P>::Defer(pid, Outcome::Freed)
                    &&& s1 == (CacheState { retired: s1.retired, deferred: s1.deferred, ..s })
                    &&& forall|q: PageID| #[trigger]
                        s1.retired.contains(q) <==> s.retired.contains(q) && q != pid
                    &&& forall|q: PageID| #[trigger]
                        s1.deferred.contains(q) <==> s.deferred.contains(q) || q == pid
                            && s.retired.contains(q)
                },
            }
        }),
{
    if done is Write {
        if s.updates < usize::MAX {
            vstd::arithmetic::div_mod::lemma_small_mod(
                (s.updates + 1) as nat,
                (usize::MAX + 1) as nat,
            );
        } else {
            vstd::arithmetic::div_mod::lemma_mod_self_0(usize::MAX + 1);
        }
    }
}

/// An identifier that is given back is the next to be used, once; one that
/// was not kept back is not given back.
pub proof fn law_a_released_identifier_is_used_next<P, R>(s: CacheState<P, R>, pid: PageID)
    ensures
        ({
            let s1 = released(s, pid);
            &&& !s.deferred.contains(pid) ==> s1 == s
            &&& s.deferred.contains(pid) ==> {
                &&& s1 == (CacheState { free: s1.free, deferred: s1.deferred, ..s })
                &&& s1.free.len() == s.free.len() + 1
                &&& s1.free[s.free.len() as int] == pid
                &&& forall|i: int| 0 <= i < s.free.len() ==> #[trigger] s1.free[i] == s.free[i]
                &&& forall|q: PageID| #[trigger]
                    s1.deferred.contains(q) <==> s.deferred.contains(q) && q != pid
            }
        }),
{
}

/// Work on the snapshot goes on from the last one, or from one with nothing in
/// it.
pub proof fn law_work_on_the_snapshot_goes_on<P, R>(s: CacheState<P, R>)
    ensures
        s.last_snapshot matches Some(snapshot) ==> snapshot_of(s) == snapshot,
        s.last_snapshot is None ==> {
            let fresh = snapshot_of(s);
            &&& fresh.max_lsn == 0
            &&& fresh.max_pid == 0
            &&& forall|pid: PageID| !#[trigger] fresh.pt.contains_key(pid)
            &&& fresh.free.len() == 0
            &&& fresh.recovery is None
            &&& fresh.segments == 0
        },
{
}

/// Recovery is possible if and only if there is a snapshot, none of its pages
/// is there yet, and there is a version left for them.
pub proof fn law_when_recovery_is_possible<P, R>(s: CacheState<P, R>)
    ensures
        can_load(s) <==> {
            &&& s.last_version < u64::MAX
            &&& s.last_snapshot matches Some(snapshot)
            &&& forall|pid: PageID| !(#[trigger] snapshot.pt.contains_key(pid)
                && s.pages.contains_key(pid))
        },
{
}

/// The pages and free identifiers of the last snapshot are there.
pub open spec fn loads_every_page<P, R>(s0: CacheState<P, R>, s1: CacheState<P, R>) -> bool {
    let snapshot = s0.last_snapshot->0;
    let n = s0.free.len() as int;
    &&& s1 == (CacheState {
        pages: s1.pages,
        free: s1.free,
        max_pid: snapshot.max_pid,
        last_version: (s0.last_version + 1) as u64,
        ..s0
    })
    &&& forall|pid: PageID| #[trigger]
        s1.pages.contains_key(pid) <==> s0.pages.contains_key(pid)
            || snapshot.pt.contains_key(pid)
    &&& forall|pid: PageID| #[trigger]
        s0.pages.contains_key(pid) ==> s1.pages[pid] == s0.pages[pid]
    &&& forall|pid: PageID| #[trigger]
        snapshot.pt.contains_key(pid) ==> {
            let page = s1.pages[pid];
            &&& lists_positions(snapshot.pt[pid], page.entries)
            &&& forall|i: int|
                0 <= i < page.entries.len() ==> in_log_only(#[trigger] page.entries[i])
            &&& page.entries.len() > 0 ==> page.entries[0] is Flush && page.head.id
                == s0.last_version + 1
            &&& page.entries.len() == 0 ==> page.head.id == 0
        }
    &&& s1.free.len() == n + snapshot.free.len()
    &&& s1.free.take(n) == s0.free
    &&& s1.free.skip(n).to_multiset() == snapshot.free.to_multiset()
    &&& forall|i: int, j: int| n <= i < j < s1.free.len() ==> s1.free[i] >= s1.free[j]
}

/// Recovery gives every page of the snapshot its positions, all of them in the
/// log only; an empty page has the null version and no other has. Free
/// identifiers are put behind those that are there, the largest first, so that
/// the smallest is used next. Nothing else changes.
pub proof fn law_recovery_loads_every_page<P, R>(s0: CacheState<P, R>, s1: CacheState<P, R>)
    requires
        can_load(s0),
        loads(s0, s1),
    ensures
        loads_every_page(s0, s1),
{
    let snapshot = s0.last_snapshot->0;
    let n = s0.free.len() as int;
    let sorted = choose|sorted: Seq<PageID>| #[trigger]
        sorts(snapshot.free, sorted) && s1 == (CacheState {
            pages: with_loaded(s0.pages, snapshot.pt, s0.next_version()),
            free: s0.free + sorted,
            max_pid: snapshot.max_pid,
            last_version: s0.next_version().id,
            ..s0
        });
    assert(s1.free.take(n) =~= s0.free);
    assert(s1.free.skip(n) =~= sorted);
    vstd::seq_lib::to_multiset_len(sorted);
    vstd::seq_lib::to_multiset_len(snapshot.free);
    assert forall|i: int, j: int| n <= i < j < s1.free.len() implies s1.free[i] >= s1.free[j] by {
        assert(s1.free[i] == sorted[i - n] && s1.free[j] == sorted[j - n]);
    }
}

/// A snapshot is what its fields say.
pub proof fn law_a_snapshot_is_its_fields<R>(snapshot: Snapshot<R>)
    ensures
        snapshot@.max_lsn == snapshot.max_lsn,
        snapshot@.max_pid == snapshot.max_pid,
        snapshot@.free == snapshot.free@,
        snapshot@.recovery == snapshot.recovery,
        snapshot@.segments == snapshot.segments,
        forall|pid: PageID| #[trigger]
            snapshot@.pt.contains_key(pid) <==> snapshot.pt@.contains_key(pid),
        forall|pid: PageID|
            snapshot.pt@.contains_key(pid) ==> #[trigger] snapshot@.pt[pid] == snapshot.pt@[pid]@,
{
}

/// So is a snapshot that is catching up.
pub proof fn law_a_replay_is_its_fields<R>(replay: Replay<R>)
    ensures
        replay@.snapshot == replay.snapshot@,
        replay@.last_segment == replay.last_segment,
        replay@.ops == replay.ops@,
{
}

/// An update carries the fragment that is in it, and those that create and
/// remove pages carry none.
pub proof fn law_what_an_update_carries<P>(update: Update<P>)
    ensures
        match update {
            Update::Append(frag) => update.has_frag() && update.frag() == frag,
            Update::Compact(frag) => update.has_frag() && update.frag() == frag,
            Update::Free => !update.has_frag(),
            Update::Alloc => !update.has_frag(),
        },
{
}

/// What is recovered from a fragment is what the materializer answers for it.
pub proof fn law_recovery_asks_the_materializer<PM: Materializer>(
    m: PM,
    frag: PM::PageFrag,
    found: Option<PM::Recovery>,
)
    ensures
        recovers(m, frag, found) <==> call_ensures(PM::recover, (&m, &frag), found),
{
}

} // verus!
