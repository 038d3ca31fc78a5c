//! A version names one stack of a page, for good.

use crate::stack::{locs, CacheEntry};
use crate::state::CacheState;
use crate::step::{Done, Evicting, Merged, Step, Writing};
use crate::transitions::{
    after_completed, after_reserved, allocated, evicted, loads, page_out_step, released, removed,
};
use crate::types::{Config, HPtr, LogID, Lsn, PageID};
use vstd::prelude::*;

verus! {

/// Whenever the page has the version `head`, its fragments are at `at`; and
/// `head` has been given already.
pub open spec fn names<P, R>(
    s: CacheState<P, R>,
    pid: PageID,
    head: HPtr,
    at: Seq<(Lsn, LogID)>,
) -> bool {
    &&& 0 < head.id <= s.last_version
    &&& s.pages.contains_key(pid) && s.pages[pid].head == head ==> locs(s.pages[pid].entries) == at
}

/// Every page of `s1` is as it was in `s0`, or empty, or has a version that
/// was not given before.
pub open spec fn evolves<P, R>(s0: CacheState<P, R>, s1: CacheState<P, R>) -> bool {
    &&& s0.last_version <= s1.last_version
    &&& forall|pid: PageID| #[trigger]
        s1.pages.contains_key(pid) ==> {
            ||| s0.pages.contains_key(pid) && s1.pages[pid] == s0.pages[pid]
            ||| s1.pages[pid].head.id == 0
            ||| s1.pages[pid].head.id > s0.last_version
        }
}

/// What a version names is the same however the cache evolves meanwhile.
pub proof fn law_a_version_keeps_its_meaning<P, R>(
    s0: CacheState<P, R>,
    s1: CacheState<P, R>,
    pid: PageID,
    head: HPtr,
    at: Seq<(Lsn, LogID)>,
)
    requires
        evolves(s0, s1),
        names(s0, pid, head, at),
    ensures
        names(s1, pid, head, at),
{
}

/// The version under which a page is read names the positions that were read.
pub proof fn law_a_read_version_names_its_page<P, R>(s: CacheState<P, R>, pid: PageID)
    requires
        s.wf(),
        s.pages.contains_key(pid),
        s.pages[pid].entries.len() > 0,
    ensures
        names(s, pid, s.pages[pid].head, locs(s.pages[pid].entries)),
{
}

/// Evolution is transitive.
pub proof fn law_evolution_composes<P, R>(
    s0: CacheState<P, R>,
    s1: CacheState<P, R>,
    s2: CacheState<P, R>,
)
    requires
        evolves(s0, s1),
        evolves(s1, s2),
    ensures
        evolves(s0, s2),
{
    assert forall|pid: PageID| #[trigger] s2.pages.contains_key(pid) implies {
        ||| s0.pages.contains_key(pid) && s2.pages[pid] == s0.pages[pid]
        ||| s2.pages[pid].head.id == 0
        ||| s2.pages[pid].head.id > s0.last_version
    } by {
        if s1.pages.contains_key(pid) && s2.pages[pid] == s1.pages[pid] {
        }
    }
}

/// A swap, tried or done, is an evolution.
pub proof fn law_swapping_evolves<P, R>(
    s: CacheState<P, R>,
    pid: PageID,
    key: HPtr,
    entries: Seq<CacheEntry<P>>,
)
    ensures
        evolves(s, s.after_swap(pid, key, entries)),
{
}

/// So is everything else that happens to the cache: creating a page, removing
/// one, completing a change, giving an identifier back, writing and recovery.
pub proof fn law_every_change_evolves<P, R>(
    s: CacheState<P, R>,
    pid: PageID,
    done: Done,
    w: Writing<P>,
    lsn: Lsn,
    lid: LogID,
)
    ensures
        evolves(s, allocated(s)),
        evolves(s, removed(s, pid)),
        evolves(s, after_completed(s, done)),
        evolves(s, released(s, pid)),
        evolves(s, after_reserved(s, w, lsn, lid)),
        forall|s1: CacheState<P, R>|
            s.last_version < u64::MAX && #[trigger] loads(s, s1) ==> evolves(s, s1),
{
}

/// And so is each step of a read.
pub proof fn law_reading_evolves<P: Clone, R>(
    config: Config,
    s0: CacheState<P, R>,
    read: Merged<P>,
    to_evict: Seq<PageID>,
    s1: CacheState<P, R>,
    step: Step<P>,
)
    requires
        page_out_step(config, s0, read, to_evict, s1, step),
    ensures
        evolves(s0, s1),
        forall|pid: PageID, head: HPtr| evolves(s0, #[trigger] evicted(s0, pid, head)),
{
}

/// A write succeeds if and only if its page has the version that it presents
/// and there is a version left to give. It then gives back the page's new
/// version; otherwise it changes nothing and says which version the page has,
/// if there is such a page.
pub proof fn law_a_write_needs_the_current_version<P, R>(
    s: CacheState<P, R>,
    w: Writing<P>,
    lsn: Lsn,
    lid: LogID,
)
    requires
        !(w.kind is Free),
    ensures
        ({
            let pid = w.update.pid;
            let s1 = after_reserved(s, w, lsn, lid);
            match s.swap_result(pid, w.key) {
                Ok(head) => {
                    &&& s.can_swap(pid, w.key)
                    &&& s1.pages[pid].head == head
                    &&& head.id == s.last_version + 1
                },
                Err(Some(actual)) => {
                    &&& s1 == s
                    &&& s.pages.contains_key(pid) && s.pages[pid].head == actual
                    &&& actual != w.key || s.last_version == u64::MAX
                },
                Err(None) => s1 == s && !s.pages.contains_key(pid),
            }
        }),
{
}

/// A page leaves memory under the version that was chosen for it, and then the
/// log has been made stable up to the newest of its fragments.
pub proof fn law_eviction_waits_for_the_newest_fragment<P: Clone, R>(
    config: Config,
    s0: CacheState<P, R>,
    read: Merged<P>,
    to_evict: Seq<PageID>,
    s1: CacheState<P, R>,
    e: Evicting<P>,
    later: CacheState<P, R>,
)
    requires
        s0.wf(),
        page_out_step(config, s0, read, to_evict, s1, Step::MakeStable(e)),
        evolves(s1, later),
    ensures
        later.can_swap(e.pid, e.head) ==> later.pages[e.pid].entries.len() > 0
            && later.pages[e.pid].entries.last().loc().0 == e.lsn,
{
    lemma_next_eviction(s0, to_evict);
}

/// A page that is chosen to leave memory is there, and not empty.
proof fn lemma_next_eviction<P, R>(s: CacheState<P, R>, to_evict: Seq<PageID>)
    ensures
        s.next_eviction(to_evict) matches Some((pid, rest)) ==> s.pages.contains_key(pid)
            && s.pages[pid].entries.len() > 0,
    decreases to_evict.len(),
{
    if to_evict.len() > 0 && !s.pages.contains_key(to_evict[0]) {
        lemma_next_eviction(s, to_evict.skip(1));
    }
}

} // verus!
