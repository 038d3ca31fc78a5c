//! What holds however long the cache has been in use.
//!
//! A run is a sequence of changes, each of which is what one step of an
//! operation does. The changes that leave a record in the log are taken
//! together with the record's place, and the records are in the order of the
//! changes.

use crate::laws::identifiers::{
    ids_distinct, in_order, law_allocating_keeps_ids_distinct, law_completing_keeps_ids_distinct,
    law_recovered_ids_are_distinct, law_releasing_keeps_ids_distinct,
    law_removing_keeps_ids_distinct, law_sorting_keeps_ids_distinct,
    law_swapping_keeps_ids_distinct, lemma_without, snapshot_ids_distinct,
};
use crate::laws::recovery::{
    ascending, law_recovery_restores_the_page_table, law_recovery_restores_the_values,
    law_replay_follows_the_log, law_replaying_a_creation, law_replaying_a_removal,
    law_replaying_a_write, page_table,
};
use crate::laws::values::{agrees, same_values};
use crate::laws::versions::{evolves, law_evolution_composes, names};
use crate::materializer::Materializer;
use crate::snapshot::{
    asked_all, ends_in, replay_record, replay_records, replay_start, replays, sorts, stable_len,
    table_after, LogRecord, ReplayState, SnapshotState,
};
use crate::stack::{fixed_up_stack, flushed_stack, locs};
use crate::state::CacheState;
use crate::step::{Done, Merged, Step, Writing};
use crate::transitions::{
    after_completed, after_reserved, allocated, evicted, has_next_pid, loads, next_pid,
    page_out_step, released, removed, with_loaded,
};
use crate::types::{Config, HPtr, LogID, LoggedUpdate, Lsn, PageID, Update};
use vstd::prelude::*;

verus! {

/// What one step of an operation does to the cache.
pub enum Change<P, R> {
    /// A page is created, and the log says so at the given place.
    Allocate { lsn: Lsn, lid: LogID },
    /// A page is removed, and the log says so at the given place.
    Remove { pid: PageID, lsn: Lsn, lid: LogID },
    /// A write that has its place in the log is tried.
    Write { w: Writing<P>, lsn: Lsn, lid: LogID },
    /// A change is completed in the log.
    Complete { done: Done },
    /// The identifier of a removed page is given back.
    Release { pid: PageID },
    /// A read leaves the merged page at the head of its stack.
    FixUp { pid: PageID, head: HPtr, at: Seq<(Lsn, LogID)>, merged: P },
    /// A page leaves memory.
    Evict { pid: PageID, head: HPtr },
    /// Somebody goes to work on the snapshot, or puts it back.
    Snapshot { last: Option<SnapshotState<R>>, at_work: bool },
}

/// The cache after a change.
pub open spec fn after<P, R>(s: CacheState<P, R>, c: Change<P, R>) -> CacheState<P, R> {
    match c {
        Change::Allocate { lsn, lid } => allocated(s),
        Change::Remove { pid, lsn, lid } => removed(s, pid),
        Change::Write { w, lsn, lid } => after_reserved(s, w, lsn, lid),
        Change::Complete { done } => after_completed(s, done),
        Change::Release { pid } => released(s, pid),
        Change::FixUp { pid, head, at, merged } => s.after_swap(
            pid,
            head,
            fixed_up_stack(merged, at),
        ),
        Change::Evict { pid, head } => evicted(s, pid, head),
        Change::Snapshot { last, at_work } => CacheState {
            last_snapshot: last,
            snapshotting: at_work,
            ..s
        },
    }
}

/// The first fragment of a page is logged as the beginning of its history.
pub open spec fn logged_as_linked<P>(w: Writing<P>) -> bool {
    w.kind is Link ==> (w.update.update is Compact <==> w.key.id == 0)
}

/// The operations can bring the change about.
pub open spec fn can_happen<P, R>(s: CacheState<P, R>, c: Change<P, R>) -> bool {
    match c {
        Change::Allocate { lsn, lid } => has_next_pid(s),
        Change::Remove { pid, lsn, lid } => s.pages.contains_key(pid),
        Change::Write { w, lsn, lid } => {
            &&& w.wf()
            &&& !(w.kind is Free)
            &&& logged_as_linked(w)
        },
        Change::FixUp { pid, head, at, merged } => at.len() > 0 && names(s, pid, head, at),
        Change::Evict { pid, head } => head.id != 0,
        _ => true,
    }
}

/// What the change leaves in the log. A write that fails leaves nothing.
pub open spec fn record_of<P, R>(s: CacheState<P, R>, c: Change<P, R>) -> Option<LogRecord<P>> {
    match c {
        Change::Allocate { lsn, lid } => Some(
            LogRecord {
                lsn,
                lid,
                update: Some(LoggedUpdate { pid: next_pid(s), update: Update::Alloc }),
            },
        ),
        Change::Remove { pid, lsn, lid } => Some(
            LogRecord { lsn, lid, update: Some(LoggedUpdate { pid, update: Update::Free }) },
        ),
        Change::Write { w, lsn, lid } => if s.swap_result(w.update.pid, w.key) is Ok {
            Some(LogRecord { lsn, lid, update: Some(w.update) })
        } else {
            None
        },
        _ => None,
    }
}

/// The cache after a run.
pub open spec fn state_after<P, R>(s: CacheState<P, R>, run: Seq<Change<P, R>>) -> CacheState<P, R>
    decreases run.len(),
{
    if run.len() == 0 {
        s
    } else {
        after(state_after(s, run.drop_last()), run.last())
    }
}

/// The operations can bring the run about.
pub open spec fn possible<P, R>(s: CacheState<P, R>, run: Seq<Change<P, R>>) -> bool
    decreases run.len(),
{
    run.len() > 0 ==> {
        &&& possible(s, run.drop_last())
        &&& can_happen(state_after(s, run.drop_last()), run.last())
    }
}

/// What the run leaves in the log.
pub open spec fn log_of<P, R>(s: CacheState<P, R>, run: Seq<Change<P, R>>) -> Seq<LogRecord<P>>
    decreases run.len(),
{
    if run.len() == 0 {
        Seq::empty()
    } else {
        let before = log_of(s, run.drop_last());
        match record_of(state_after(s, run.drop_last()), run.last()) {
            Some(record) => before.push(record),
            None => before,
        }
    }
}

/// The cache is well formed, and no identifier belongs to two pages.
pub open spec fn sound<P, R>(s: CacheState<P, R>) -> bool {
    s.wf() && ids_distinct(s)
}

/// Each step of a read is a change that the operations can bring about, or
/// changes nothing.
pub proof fn law_a_step_of_a_read_is_a_change<P: Clone, R>(
    config: Config,
    s0: CacheState<P, R>,
    read: Merged<P>,
    to_evict: Seq<PageID>,
    s1: CacheState<P, R>,
    step: Step<P>,
)
    requires
        read.wf(),
        names(s0, read.pid, read.head, read.at@),
        page_out_step(config, s0, read, to_evict, s1, step),
    ensures
        s1 == s0 || exists|c: Change<P, R>| #[trigger] can_happen(s0, c) && s1 == after(s0, c),
        step matches Step::MakeStable(e) ==> can_happen(
            s1,
            Change::Evict { pid: e.pid, head: e.head },
        ),
{
    if s1 != s0 {
        let copy = choose|copy: P| #[trigger] cloned::<P>(read.merged, copy) && s1 == s0.after_swap(
            read.pid,
            read.head,
            fixed_up_stack(copy, read.at@),
        );
        let c = Change::FixUp { pid: read.pid, head: read.head, at: read.at@, merged: copy };
        assert(can_happen(s0, c) && s1 == after(s0, c));
    }
}

/// Every change is an evolution.
pub proof fn law_a_change_is_an_evolution<P, R>(s: CacheState<P, R>, c: Change<P, R>)
    ensures
        evolves(s, after(s, c)),
{
}

/// A version means the same throughout a run.
pub proof fn law_a_run_is_an_evolution<P, R>(s: CacheState<P, R>, run: Seq<Change<P, R>>)
    ensures
        evolves(s, state_after(s, run)),
    decreases run.len(),
{
    if run.len() > 0 {
        let before = state_after(s, run.drop_last());
        law_a_run_is_an_evolution(s, run.drop_last());
        law_a_change_is_an_evolution(before, run.last());
        law_evolution_composes(s, before, state_after(s, run));
    }
}

/// A change leaves a sound cache sound.
pub proof fn law_a_change_keeps_the_cache_sound<P, R>(s: CacheState<P, R>, c: Change<P, R>)
    requires
        sound(s),
        can_happen(s, c),
    ensures
        sound(after(s, c)),
{
    let s1 = after(s, c);
    match c {
        Change::Allocate { lsn, lid } => {
            law_allocating_keeps_ids_distinct(s);
        },
        Change::Remove { pid, lsn, lid } => {
            law_removing_keeps_ids_distinct(s, pid);
        },
        Change::Write { w, lsn, lid } => {
            let pid = w.update.pid;
            law_swapping_keeps_ids_distinct(s, pid, w.key, s1.pages[pid].entries);
        },
        Change::Complete { done } => {
            law_completing_keeps_ids_distinct(s, done);
        },
        Change::Release { pid } => {
            law_releasing_keeps_ids_distinct(s, pid);
        },
        Change::FixUp { pid, head, at, merged } => {
            law_swapping_keeps_ids_distinct(s, pid, head, fixed_up_stack(merged, at));
        },
        Change::Evict { pid, head } => {
            law_swapping_keeps_ids_distinct(s, pid, head, s1.pages[pid].entries);
        },
        Change::Snapshot { last, at_work } => {},
    }
}

/// A sound cache stays sound, whatever it goes through.
pub proof fn law_a_run_keeps_the_cache_sound<P, R>(s: CacheState<P, R>, run: Seq<Change<P, R>>)
    requires
        sound(s),
        possible(s, run),
    ensures
        sound(state_after(s, run)),
    decreases run.len(),
{
    if run.len() > 0 {
        law_a_run_keeps_the_cache_sound(s, run.drop_last());
        law_a_change_keeps_the_cache_sound(state_after(s, run.drop_last()), run.last());
    }
}

/// Whatever a cache has gone through, a new page can be created as long as
/// there is an identifier left. It is taken from the free ones if there are
/// any, belonged to no page, and belongs to an empty one afterwards; no other
/// page changes.
pub proof fn law_a_page_can_be_created_after_any_run<P, R>(
    start: CacheState<P, R>,
    run: Seq<Change<P, R>>,
)
    requires
        sound(start),
        possible(start, run),
        state_after(start, run).free.len() == 0 ==> state_after(start, run).max_pid < usize::MAX,
    ensures
        ({
            let s = state_after(start, run);
            let s1 = allocated(s);
            let pid = next_pid(s);
            &&& has_next_pid(s)
            &&& !s.pages.contains_key(pid)
            &&& s1.pages.contains_key(pid) && s1.pages[pid].entries.len() == 0
                && s1.pages[pid].head.id == 0
            &&& s.free.len() > 0 ==> s.free.contains(pid) && s1.max_pid == s.max_pid && s1.free
                == s.free.drop_last()
            &&& s.free.len() == 0 ==> pid == s.max_pid && s1.max_pid == s.max_pid + 1 && s1.free
                == s.free
            &&& s1.pages.remove(pid) == s.pages
        }),
{
    law_a_run_keeps_the_cache_sound(start, run);
    let s = state_after(start, run);
    if s.free.len() > 0 {
        assert(s.free.contains(s.free.last()));
    }
    assert(allocated(s).pages.remove(next_pid(s)) =~= s.pages);
}

/// A version that a write gives back, and one that it reports as the page's
/// actual one, is the page's current version: as long as nothing else happens
/// to the page, the next write that presents it succeeds, while versions last,
/// and every further one fails.
pub proof fn law_a_returned_version_admits_one_write<P, R>(
    s: CacheState<P, R>,
    first: Writing<P>,
    lsn: Lsn,
    lid: LogID,
    now: CacheState<P, R>,
    second: Writing<P>,
    lsn2: Lsn,
    lid2: LogID,
)
    requires
        now.wf(),
        !(first.kind is Free) && !(second.kind is Free),
        second.update.pid == first.update.pid,
        now.pages.contains_key(first.update.pid),
        now.pages[first.update.pid] == after_reserved(s, first, lsn, lid).pages[first.update.pid],
        now.last_version < u64::MAX,
        match s.swap_result(first.update.pid, first.key) {
            Ok(k) => second.key == k,
            Err(Some(k)) => second.key == k,
            Err(None) => false,
        },
    ensures
        ({
            let written = after_reserved(now, second, lsn2, lid2);
            &&& now.swap_result(second.update.pid, second.key) is Ok
            &&& written.swap_result(second.update.pid, second.key) matches Err(Some(actual))
                && actual != second.key
        }),
{
}

/// Of two writes that present the same version of a page, at most one
/// succeeds, whatever happens between them, as long as the page's identifier
/// is not given back while somebody holds the version of the empty page.
pub proof fn law_of_two_writers_one_wins<P, R>(
    s: CacheState<P, R>,
    first: Writing<P>,
    lsn: Lsn,
    lid: LogID,
    run: Seq<Change<P, R>>,
    second: Writing<P>,
)
    requires
        sound(s),
        !(first.kind is Free),
        s.swap_result(first.update.pid, first.key) is Ok,
        second.update.pid == first.update.pid,
        second.key == first.key,
        possible(after_reserved(s, first, lsn, lid), run),
        first.key.id == 0 ==> forall|i: int|
            0 <= i < run.len() ==> #[trigger] run[i] != (Change::<P, R>::Release {
                pid: first.update.pid,
            }),
    ensures
        state_after(after_reserved(s, first, lsn, lid), run).swap_result(
            second.update.pid,
            second.key,
        ) is Err,
{
    let s1 = after_reserved(s, first, lsn, lid);
    if first.key.id == 0 {
        lemma_not_empty_again(s1, run, first.update.pid);
    } else {
        law_a_run_is_an_evolution(s1, run);
    }
}

/// The identifier belongs to no empty page and is not to be used again.
spec fn not_empty_again<P, R>(s: CacheState<P, R>, pid: PageID) -> bool {
    &&& pid < s.max_pid
    &&& !s.free.contains(pid)
    &&& s.pages.contains_key(pid) ==> s.pages[pid].head.id != 0
}

/// A page that is not empty does not become so unless its identifier is given
/// back.
proof fn lemma_not_empty_again<P, R>(s: CacheState<P, R>, run: Seq<Change<P, R>>, pid: PageID)
    requires
        possible(s, run),
        not_empty_again(s, pid),
        forall|i: int|
            0 <= i < run.len() ==> #[trigger] run[i] != (Change::<P, R>::Release { pid }),
    ensures
        not_empty_again(state_after(s, run), pid),
    decreases run.len(),
{
    if run.len() > 0 {
        let rest = run.drop_last();
        assert forall|i: int| 0 <= i < rest.len() implies #[trigger] rest[i] != (Change::<
            P,
            R,
        >::Release { pid }) by {
            assert(rest[i] == run[i]);
        }
        lemma_not_empty_again(s, rest, pid);
        let before = state_after(s, rest);
        let s1 = state_after(s, run);
        assert(run[run.len() - 1] != (Change::<P, R>::Release { pid }));
        if before.free.len() > 0 {
            assert(before.free.contains(before.free.last()));
        }
        if s1.free.contains(pid) {
            let i = s1.free.index_of(pid);
            if i < before.free.len() {
                assert(before.free[i] == pid);
            }
        }
    }
}

/// The snapshot is that of the cache: it has its page table, and its free
/// identifiers are those of pages that have been removed.
pub open spec fn mirrors<P, R>(s: CacheState<P, R>, snapshot: SnapshotState<R>) -> bool {
    &&& snapshot.pt == page_table(s)
    &&& snapshot.max_pid == s.max_pid
    &&& snapshot.free.no_duplicates()
    &&& forall|pid: PageID| #[trigger]
        snapshot.free.contains(pid) <==> s.free.contains(pid) || s.retired.contains(pid)
            || s.deferred.contains(pid)
}

/// The snapshot that no record has gone into is that of a new cache.
pub proof fn law_the_empty_snapshot_mirrors_a_new_cache<P, R>()
    ensures
        sound(CacheState::<P, R>::empty()),
        mirrors(CacheState::<P, R>::empty(), SnapshotState::<R>::empty()),
{
    assert(page_table(CacheState::<P, R>::empty()) =~= Map::empty());
}

/// The page table changes as the record says.
proof fn lemma_record_changes_the_table<P, R>(s: CacheState<P, R>, c: Change<P, R>)
    requires
        sound(s),
        can_happen(s, c),
    ensures
        page_table(after(s, c)) == match record_of(s, c) {
            Some(record) => table_after(
                page_table(s),
                record.update->0,
                (record.lsn, record.lid),
            ),
            None => page_table(s),
        },
{
    match c {
        Change::Allocate { lsn, lid } => {
            law_replaying_a_creation(s, (lsn, lid));
        },
        Change::Remove { pid, lsn, lid } => {
            law_replaying_a_removal(s, pid, (lsn, lid));
        },
        Change::Write { w, lsn, lid } => {
            if s.swap_result(w.update.pid, w.key) is Ok {
                law_replaying_a_write(s, w, lsn, lid);
            }
        },
        Change::FixUp { pid, head, at, merged } => {
            assert(locs(fixed_up_stack(merged, at)) =~= at);
            assert(page_table(after(s, c)) =~= page_table(s));
        },
        Change::Evict { pid, head } => {
            let at = locs(s.pages[pid].entries);
            assert(locs(flushed_stack::<P>(at)) =~= at);
            assert(page_table(after(s, c)) =~= page_table(s));
        },
        _ => {},
    }
}

/// The snapshot follows the cache: after the record of a change it is that of
/// the changed cache.
pub proof fn law_the_snapshot_follows_a_change<P, R>(
    io_buf_size: usize,
    s: CacheState<P, R>,
    c: Change<P, R>,
    r: ReplayState<R>,
    found: Option<R>,
)
    requires
        sound(s),
        can_happen(s, c),
        mirrors(s, r.snapshot),
        record_of(s, c) matches Some(record) ==> record.lsn > r.snapshot.max_lsn,
    ensures
        mirrors(
            after(s, c),
            match record_of(s, c) {
                Some(record) => replay_record(io_buf_size, r, record, found).snapshot,
                None => r.snapshot,
            },
        ),
{
    lemma_record_changes_the_table(s, c);
    let s1 = after(s, c);
    let snap = r.snapshot;
    match c {
        Change::Allocate { lsn, lid } => {
            let pid = next_pid(s);
            let snap1 = replay_record(io_buf_size, r, record_of(s, c)->0, found).snapshot;
            if s.free.len() > 0 {
                assert(s.free.contains(s.free.last()));
            }
            lemma_without(snap.free, pid);
            assert forall|q: PageID| #[trigger]
                snap1.free.contains(q) <==> s1.free.contains(q) || s1.retired.contains(q)
                    || s1.deferred.contains(q) by {
                assert(snap1.free.contains(q) <==> snap.free.contains(q) && q != pid);
                if s.free.len() > 0 {
                    if s.free.contains(q) && q != pid {
                        let i = s.free.index_of(q);
                        assert(s1.free[i] == q);
                    }
                    if s1.free.contains(q) {
                        let i = s1.free.index_of(q);
                        assert(s.free[i] == q && i != s.free.len() - 1);
                    }
                }
            }
        },
        Change::Remove { pid, lsn, lid } => {
            let snap1 = replay_record(io_buf_size, r, record_of(s, c)->0, found).snapshot;
            assert(snap1.free == snap.free.push(pid));
            assert forall|q: PageID| #[trigger]
                snap1.free.contains(q) <==> s1.free.contains(q) || s1.retired.contains(q)
                    || s1.deferred.contains(q) by {
                lemma_push_contains(snap.free, pid, q);
            }
            assert(!snap.free.contains(pid));
            lemma_push_distinct(snap.free, pid);
        },
        Change::Release { pid } => {
            assert forall|q: PageID| #[trigger]
                snap.free.contains(q) <==> s1.free.contains(q) || s1.retired.contains(q)
                    || s1.deferred.contains(q) by {
                lemma_push_contains(s.free, pid, q);
            }
        },
        _ => {},
    }
}

/// What a change leaves in the log fits the history of its page: a page is not
/// freed twice, and one that has been freed is created again before anything
/// is written to it.
pub proof fn law_a_change_is_logged_in_order<P, R>(
    s: CacheState<P, R>,
    c: Change<P, R>,
    snapshot: SnapshotState<R>,
)
    requires
        sound(s),
        can_happen(s, c),
        mirrors(s, snapshot),
    ensures
        record_of(s, c) matches Some(record) ==> (record.update matches Some(u) ==> in_order(
            snapshot.free,
            u,
        )),
{
}

/// What one more identifier makes of the others.
proof fn lemma_push_contains(ids: Seq<PageID>, pid: PageID, q: PageID)
    ensures
        ids.push(pid).contains(q) <==> ids.contains(q) || q == pid,
{
    if ids.contains(q) {
        assert(ids.push(pid)[ids.index_of(q)] == q);
    }
    assert(ids.push(pid)[ids.len() as int] == pid);
    if ids.push(pid).contains(q) && q != pid {
        let i = ids.push(pid).index_of(q);
        assert(ids[i] == q);
    }
}

/// One more identifier that is not among the others keeps them distinct.
proof fn lemma_push_distinct(ids: Seq<PageID>, pid: PageID)
    requires
        ids.no_duplicates(),
        !ids.contains(pid),
    ensures
        ids.push(pid).no_duplicates(),
{
    let more = ids.push(pid);
    assert forall|i: int, j: int|
        0 <= i < more.len() && 0 <= j < more.len() && i != j implies more[i] != more[j] by {
        if i < ids.len() {
            assert(ids.contains(ids[i]));
        }
        if j < ids.len() {
            assert(ids.contains(ids[j]));
        }
    }
}

/// The snapshot follows the cache through any run: after the records of the
/// run it is that of the cache at its end.
pub proof fn law_the_snapshot_follows_a_run<P, R>(
    io_buf_size: usize,
    s: CacheState<P, R>,
    run: Seq<Change<P, R>>,
    r: ReplayState<R>,
    found: Seq<Option<R>>,
)
    requires
        sound(s),
        possible(s, run),
        mirrors(s, r.snapshot),
        ascending(r.snapshot.max_lsn, log_of(s, run)),
    ensures
        mirrors(
            state_after(s, run),
            replay_records(io_buf_size, r, log_of(s, run), found).snapshot,
        ),
    decreases run.len(),
{
    if run.len() > 0 {
        let rest = run.drop_last();
        let before = state_after(s, rest);
        let log = log_of(s, run);
        law_a_run_keeps_the_cache_sound(s, rest);
        match record_of(before, run.last()) {
            Some(record) => {
                assert(log.drop_last() =~= log_of(s, rest));
                assert(ascending(r.snapshot.max_lsn, log_of(s, rest))) by {
                    assert forall|i: int| 0 <= i < log_of(s, rest).len() implies r.snapshot.max_lsn
                        < (#[trigger] log_of(s, rest)[i]).lsn by {
                        assert(log[i] == log_of(s, rest)[i]);
                    }
                    assert forall|i: int, j: int|
                        0 <= i < j < log_of(s, rest).len() implies (#[trigger] log_of(
                        s,
                        rest,
                    )[i]).lsn < (#[trigger] log_of(s, rest)[j]).lsn by {
                        assert(log[i] == log_of(s, rest)[i] && log[j] == log_of(s, rest)[j]);
                    }
                }
                law_the_snapshot_follows_a_run(io_buf_size, s, rest, r, found.drop_last());
                law_replay_follows_the_log(io_buf_size, r, log_of(s, rest), found.drop_last());
                let r1 = replay_records(io_buf_size, r, log_of(s, rest), found.drop_last());
                assert(log[log.len() - 1] == record);
                if log.len() > 1 {
                    assert(log[log.len() - 2] == log_of(s, rest).last());
                }
                law_the_snapshot_follows_a_change(
                    io_buf_size,
                    before,
                    run.last(),
                    r1,
                    found.last(),
                );
            },
            None => {
                law_the_snapshot_follows_a_run(io_buf_size, s, rest, r, found);
                let r1 = replay_records(io_buf_size, r, log_of(s, rest), found);
                law_the_snapshot_follows_a_change(io_buf_size, before, run.last(), r1, None);
            },
        }
    }
}

/// Recovery gives back what the stable part of the log has of a run: every page
/// has the positions and the value that it had in the end, every identifier
/// that belonged to no page is free, none belongs to two pages, and the cache
/// is ready for a further run. Writes that failed have left no trace.
pub proof fn law_recovery_gives_back_every_page<PM, P, R>(
    m: PM,
    f: spec_fn(Seq<P>) -> P,
    content: Map<(Lsn, LogID), P>,
    io_buf_size: usize,
    start: CacheState<P, R>,
    snapshot: SnapshotState<R>,
    run: Seq<Change<P, R>>,
    records: Seq<LogRecord<P>>,
    stop_lsn: Lsn,
    r: ReplayState<R>,
    s0: CacheState<P, R>,
    s1: CacheState<P, R>,
)
    where PM: Materializer<PageFrag = P, Recovery = R>
    requires
        sound(start),
        mirrors(start, snapshot),
        possible(start, run),
        records.take(stable_len(records, stop_lsn) as int) == log_of(start, run),
        ascending(snapshot.max_lsn, log_of(start, run)),
        replays(m, io_buf_size, snapshot, records, stop_lsn, r),
        s0 == (CacheState {
            last_snapshot: Some(r.snapshot),
            ..CacheState::<P, R>::empty()
        }),
        loads(s0, s1),
    ensures
        ({
            let end = state_after(start, run);
            &&& page_table(s1) == page_table(end)
            &&& agrees(f, content, s1)
            &&& same_values(f, content, end, s1)
            &&& s1.max_pid == end.max_pid
            &&& forall|pid: PageID| #[trigger]
                s1.free.contains(pid) <==> end.free.contains(pid) || end.retired.contains(pid)
                    || end.deferred.contains(pid)
            &&& mirrors(end, r.snapshot)
            &&& snapshot_ids_distinct(r.snapshot)
            &&& sound(s1)
            &&& mirrors(s1, r.snapshot)
        }),
{
    let end = state_after(start, run);
    let log = log_of(start, run);
    let begin = replay_start(snapshot);
    let found = choose|found: Seq<Option<R>>|
        {
            &&& #[trigger] asked_all(m, io_buf_size, begin, log, found)
            &&& ends_in(replay_records(io_buf_size, begin, log, found), r)
        };
    law_the_snapshot_follows_a_run(io_buf_size, start, run, begin, found);
    law_a_run_keeps_the_cache_sound(start, run);
    let unsorted = replay_records(io_buf_size, begin, log, found).snapshot;
    assert forall|pid: PageID| #[trigger] unsorted.pt.contains_key(pid) implies pid
        < unsorted.max_pid by {
        assert(end.pages.contains_key(pid));
    }
    assert forall|pid: PageID| #[trigger] unsorted.free.contains(pid) implies pid
        < unsorted.max_pid && !unsorted.pt.contains_key(pid) by {
        assert(unsorted.pt.contains_key(pid) == end.pages.contains_key(pid));
    }
    assert(snapshot_ids_distinct(unsorted));
    law_sorting_keeps_ids_distinct(unsorted, r.snapshot.free);
    lemma_sorting_keeps_the_same(unsorted.free, r.snapshot.free);
    law_recovered_ids_are_distinct(s0, s1);
    law_recovery_restores_the_values(f, content, end, s0, s1);
    law_recovery_restores_the_page_table(s0, s1);
    let sorted = choose|sorted: Seq<PageID>| #[trigger]
        sorts(r.snapshot.free, sorted) && s1 == (CacheState {
            pages: with_loaded(s0.pages, r.snapshot.pt, s0.next_version()),
            free: s0.free + sorted,
            max_pid: r.snapshot.max_pid,
            last_version: s0.next_version().id,
            ..s0
        });
    assert(s1.free =~= sorted);
    lemma_sorting_keeps_the_same(r.snapshot.free, sorted);
}

/// Putting identifiers into order adds none and loses none.
proof fn lemma_sorting_keeps_the_same(ids: Seq<PageID>, sorted: Seq<PageID>)
    requires
        sorts(ids, sorted),
    ensures
        forall|pid: PageID| #[trigger] sorted.contains(pid) <==> ids.contains(pid),
{
    assert forall|pid: PageID| #[trigger] sorted.contains(pid) <==> ids.contains(pid) by {
        vstd::seq_lib::to_multiset_contains(sorted, pid);
        vstd::seq_lib::to_multiset_contains(ids, pid);
    }
}

} // verus!
