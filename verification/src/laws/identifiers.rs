//! No identifier ever belongs to two pages.

use crate::snapshot::{replay_record, sorts, without, LogRecord, ReplayState, SnapshotState};
use crate::stack::CacheEntry;
use crate::state::CacheState;
use crate::step::Done;
use crate::transitions::{
    after_completed, allocated, loads, next_pid, released, removed, with_loaded,
};
use crate::types::{HPtr, LoggedUpdate, PageID, Update};
use vstd::prelude::*;

verus! {

/// Every identifier below `max_pid` is at most one of: a page's, waiting to be
/// used again, waiting for its page's removal to be in the log, waiting for
/// those who may hold a version of its page. None above it is any of these.
pub open spec fn ids_distinct<P, R>(s: CacheState<P, R>) -> bool {
    &&& s.free.no_duplicates()
    &&& forall|pid: PageID| #[trigger] s.pages.contains_key(pid) ==> pid < s.max_pid
    &&& forall|pid: PageID| #[trigger]
        s.free.contains(pid) ==> pid < s.max_pid && !s.pages.contains_key(pid)
    &&& forall|pid: PageID| #[trigger]
        s.retired.contains(pid) ==> pid < s.max_pid && !s.pages.contains_key(pid)
            && !s.free.contains(pid)
    &&& forall|pid: PageID| #[trigger]
        s.deferred.contains(pid) ==> pid < s.max_pid && !s.pages.contains_key(pid)
            && !s.free.contains(pid) && !s.retired.contains(pid)
}

/// The identifiers of a new cache are distinct.
pub proof fn law_a_new_cache_has_distinct_ids<P, R>()
    ensures
        ids_distinct(CacheState::<P, R>::empty()),
{
}

/// The identifier given to a new page is that of no other page.
pub proof fn law_a_new_page_has_an_id_of_its_own<P, R>(s: CacheState<P, R>)
    requires
        ids_distinct(s),
    ensures
        !s.pages.contains_key(next_pid(s)),
        !s.retired.contains(next_pid(s)),
{
    if s.free.len() > 0 {
        assert(s.free.contains(s.free.last()));
    }
}

/// Identifiers stay distinct when a page is created.
pub proof fn law_allocating_keeps_ids_distinct<P, R>(s: CacheState<P, R>)
    requires
        ids_distinct(s),
        s.free.len() == 0 ==> s.max_pid < usize::MAX,
    ensures
        ids_distinct(allocated(s)),
{
    let s1 = allocated(s);
    if s.free.len() > 0 {
        let pid = s.free.last();
        assert(s.free.contains(pid));
        assert forall|q: PageID| #[trigger] s1.free.contains(q) implies q < s1.max_pid
            && !s1.pages.contains_key(q) by {
            let i = s1.free.index_of(q);
            assert(s.free[i] == q);
            assert(s.free.contains(q));
        }
    }
    assert forall|q: PageID| #[trigger] s1.retired.contains(q) implies q < s1.max_pid
        && !s1.pages.contains_key(q) && !s1.free.contains(q) by {
        assert(s.retired.contains(q));
        if s1.free.contains(q) {
            let i = s1.free.index_of(q);
            assert(s.free[i] == q);
            assert(s.free.contains(q));
        }
    }
}

/// Identifiers stay distinct when a page is removed.
pub proof fn law_removing_keeps_ids_distinct<P, R>(s: CacheState<P, R>, pid: PageID)
    requires
        ids_distinct(s),
        s.pages.contains_key(pid),
    ensures
        ids_distinct(removed(s, pid)),
{
}

/// Identifiers stay distinct when a change is completed.
pub proof fn law_completing_keeps_ids_distinct<P, R>(s: CacheState<P, R>, done: Done)
    requires
        ids_distinct(s),
    ensures
        ids_distinct(after_completed(s, done)),
{
}

/// Identifiers stay distinct when one is given back.
pub proof fn law_releasing_keeps_ids_distinct<P, R>(s: CacheState<P, R>, pid: PageID)
    requires
        ids_distinct(s),
    ensures
        ids_distinct(released(s, pid)),
{
    if s.deferred.contains(pid) {
        let s1 = released(s, pid);
        assert forall|q: PageID| s1.free.contains(q) implies s.free.contains(q) || q == pid by {
            let i = s1.free.index_of(q);
            if i < s.free.len() {
                assert(s.free[i] == q);
            }
        }
        assert(s1.free.no_duplicates()) by {
            assert forall|i: int, j: int|
                0 <= i < s1.free.len() && 0 <= j < s1.free.len() && i != j implies s1.free[i]
                != s1.free[j] by {
                if i < s.free.len() {
                    assert(s.free.contains(s.free[i]));
                }
                if j < s.free.len() {
                    assert(s.free.contains(s.free[j]));
                }
            }
        }
    }
}

/// Identifiers stay distinct when a stack is exchanged.
pub proof fn law_swapping_keeps_ids_distinct<P, R>(
    s: CacheState<P, R>,
    pid: PageID,
    key: HPtr,
    entries: Seq<CacheEntry<P>>,
)
    requires
        ids_distinct(s),
    ensures
        ids_distinct(s.after_swap(pid, key, entries)),
{
}

/// Every identifier in a snapshot is below `max_pid` and is either a page's or
/// free, and only once.
pub open spec fn snapshot_ids_distinct<R>(s: SnapshotState<R>) -> bool {
    &&& s.free.no_duplicates()
    &&& forall|pid: PageID| #[trigger] s.pt.contains_key(pid) ==> pid < s.max_pid
    &&& forall|pid: PageID| #[trigger]
        s.free.contains(pid) ==> pid < s.max_pid && !s.pt.contains_key(pid)
}

/// Putting identifiers into order keeps them distinct.
pub proof fn law_sorting_keeps_ids_distinct<R>(s: SnapshotState<R>, sorted: Seq<PageID>)
    requires
        snapshot_ids_distinct(s),
        sorts(s.free, sorted),
    ensures
        snapshot_ids_distinct(SnapshotState { free: sorted, ..s }),
{
    s.free.lemma_multiset_has_no_duplicates();
    assert forall|x: PageID| sorted.to_multiset().contains(x) implies sorted.to_multiset().count(x)
        == 1 by {
    }
    sorted.lemma_multiset_has_no_duplicates_conv();
    assert forall|pid: PageID| #[trigger] sorted.contains(pid) implies pid < s.max_pid
        && !s.pt.contains_key(pid) by {
        vstd::seq_lib::to_multiset_contains(sorted, pid);
        vstd::seq_lib::to_multiset_contains(s.free, pid);
    }
}

/// A cache without pages that recovers from a snapshot with distinct
/// identifiers has distinct identifiers.
pub proof fn law_recovered_ids_are_distinct<P, R>(s0: CacheState<P, R>, s1: CacheState<P, R>)
    requires
        s0 == (CacheState { last_snapshot: s0.last_snapshot, ..CacheState::<P, R>::empty() }),
        s0.last_snapshot is Some,
        snapshot_ids_distinct(s0.last_snapshot->0),
        loads(s0, s1),
    ensures
        ids_distinct(s1),
{
    let snapshot = s0.last_snapshot->0;
    let sorted = choose|sorted: Seq<PageID>| #[trigger]
        sorts(snapshot.free, sorted) && s1 == (CacheState {
            pages: with_loaded(s0.pages, snapshot.pt, s0.next_version()),
            free: s0.free + sorted,
            max_pid: snapshot.max_pid,
            last_version: s0.next_version().id,
            ..s0
        });
    law_sorting_keeps_ids_distinct(snapshot, sorted);
    assert(s1.free =~= sorted);
}

/// The update fits the page's history: a page is not freed twice, and one that
/// has been freed is created again before anything is written to it.
pub open spec fn in_order<P>(free: Seq<PageID>, u: LoggedUpdate<P>) -> bool {
    match u.update {
        Update::Free => !free.contains(u.pid),
        Update::Compact(frag) => !free.contains(u.pid),
        _ => true,
    }
}

/// A record that fits its page's history keeps the identifiers of a snapshot
/// distinct.
pub proof fn law_replaying_keeps_ids_distinct<P, R>(
    io_buf_size: usize,
    r: ReplayState<R>,
    record: LogRecord<P>,
    found: Option<R>,
)
    requires
        snapshot_ids_distinct(r.snapshot),
        record.fits(io_buf_size),
        record.lsn > r.snapshot.max_lsn ==> (record.update matches Some(u) ==> in_order(
            r.snapshot.free,
            u,
        )),
    ensures
        snapshot_ids_distinct(replay_record(io_buf_size, r, record, found).snapshot),
{
    if record.lsn > r.snapshot.max_lsn && record.update is Some {
        let u = record.update->0;
        let s = r.snapshot;
        let s1 = replay_record(io_buf_size, r, record, found).snapshot;
        match u.update {
            Update::Free => {
                assert forall|pid: PageID| #[trigger] s1.free.contains(pid) implies pid < s1.max_pid
                    && !s1.pt.contains_key(pid) by {
                    let i = s1.free.index_of(pid);
                    if i < s.free.len() {
                        assert(s.free.contains(pid));
                    }
                }
                assert forall|i: int, j: int|
                    0 <= i < s1.free.len() && 0 <= j < s1.free.len() && i != j implies s1.free[i]
                    != s1.free[j] by {
                    if i < s.free.len() {
                        assert(s.free.contains(s.free[i]));
                    }
                    if j < s.free.len() {
                        assert(s.free.contains(s.free[j]));
                    }
                }
            },
            Update::Alloc => {
                lemma_without(s.free, u.pid);
                assert forall|pid: PageID| #[trigger] s1.free.contains(pid) implies pid < s1.max_pid
                    && !s1.pt.contains_key(pid) by {
                    assert(s.free.contains(pid) && pid != u.pid);
                }
            },
            _ => {},
        }
    }
}

/// What is left of distinct identifiers without one of them is distinct.
pub proof fn lemma_without(ids: Seq<PageID>, pid: PageID)
    requires
        ids.no_duplicates(),
    ensures
        without(ids, pid).no_duplicates(),
        forall|id: PageID| #[trigger]
            without(ids, pid).contains(id) <==> ids.contains(id) && id != pid,
    decreases ids.len(),
{
    reveal(Seq::filter);
    let keep = |id: PageID| id != pid;
    if ids.len() > 0 {
        let rest = ids.drop_last();
        assert(rest.no_duplicates());
        lemma_without(rest, pid);
        let kept = without(ids, pid);
        assert forall|id: PageID| #[trigger] kept.contains(id) implies ids.contains(id) && id
            != pid by {
            let i = kept.index_of(id);
            if i < without(rest, pid).len() {
                assert(without(rest, pid).contains(id));
                let j = rest.index_of(id);
                assert(ids[j] == id);
            } else {
                assert(ids[ids.len() - 1] == id);
            }
        }
        if keep(ids.last()) {
            assert forall|i: int, j: int|
                0 <= i < kept.len() && 0 <= j < kept.len() && i != j implies kept[i]
                != kept[j] by {
                assert forall|k: int| 0 <= k < without(rest, pid).len() implies kept[k]
                    != ids.last() by {
                    assert(without(rest, pid).contains(kept[k]));
                    let l = rest.index_of(kept[k]);
                    assert(ids[l] == kept[k]);
                }
            }
        }
    }
}

} // verus!
