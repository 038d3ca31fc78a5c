//! The page cache.

use crate::id_map::{lists_keys, IdMap};
use crate::laws::recovery::{
    law_evicting_keeps_every_position, law_reading_keeps_every_position, page_table,
};
use crate::laws::versions::{evolves, law_a_version_keeps_its_meaning, names};
use crate::materializer::Materializer;
use crate::snapshot::{
    catch_up, replays, segment_lsn, sort_descending, sorts, stable_len, LogRecord, Replay,
    Snapshot,
};
use crate::stack::{
    count_below_residents, fix_up, flush_all, frags, lids_from_stack, lids_head_first, locations,
    CacheEntry, PageStack,
};
use crate::state::CacheState;
use crate::step::{
    AfterRewrite, Cleaning, Cleanup, Committed, Done, Evicting, Mark, Marking, Merged, Outcome,
    PageIn, Rewrite, Step, WriteKind, Writing,
};
use crate::transitions::{
    after_completed, after_reserved, allocated, can_load, completed_step, evicted, finish_step,
    get_step, has_next_pid, loaded_page, loads, next_pid, page_out_step, pulled_step, released,
    removed, replaced_stack, reserved_step, rewritten_step, snapshot_of, with_loaded, writes,
};
use crate::types::{Config, HPtr, LogID, LoggedUpdate, Lsn, PageID, Update};
use vstd::prelude::*;

verus! {

/// A page cache which supports fragmented pages for dramatically improving
/// write throughput.
pub struct PageCache<PM, P, R> {
    t: PM,
    config: Config,
    inner: IdMap<PageStack<P>>,
    max_pid: PageID,
    free: Vec<PageID>,
    retired: IdMap<()>,
    deferred: IdMap<()>,
    last_version: u64,
    updates: usize,
    last_snapshot: Option<Snapshot<R>>,
    snapshotting: bool,
}

impl<PM, P, R> View for PageCache<PM, P, R> {
    type V = CacheState<P, R>;

    closed spec fn view(&self) -> CacheState<P, R> {
        CacheState {
            pages: self.inner@.map_values(|stack: PageStack<P>| stack@),
            free: self.free@,
            retired: self.retired@.dom(),
            deferred: self.deferred@.dom(),
            max_pid: self.max_pid,
            last_version: self.last_version,
            updates: self.updates,
            last_snapshot: match self.last_snapshot {
                Some(snapshot) => Some(snapshot@),
                None => None,
            },
            snapshotting: self.snapshotting,
        }
    }
}

impl<PM, P, R> PageCache<PM, P, R> {
    /// The materializer and the settings, which never change.
    pub closed spec fn fixed(&self) -> (PM, Config) {
        (self.t, self.config)
    }

    /// The materializer that the cache was made with.
    pub open spec fn materializer(&self) -> PM {
        self.fixed().0
    }

    /// The settings that the cache was made with.
    pub open spec fn settings(&self) -> Config {
        self.fixed().1
    }
}

impl<PM, P, R> PageCache<PM, P, R> where
    PM: Materializer<PageFrag = P, Recovery = R>,
    P: Clone,
    R: Clone,
 {
    /// Instantiates a new `PageCache`, without pages.
    pub fn new(pm: PM, config: Config) -> (r: PageCache<PM, P, R>)
        ensures
            r.fixed() == (pm, config),
            r@.wf(),
            r@ == CacheState::<P, R>::empty(),
    {
        let r = PageCache {
            t: pm,
            config,
            inner: IdMap::new(),
            max_pid: 0,
            free: Vec::new(),
            retired: IdMap::new(),
            deferred: IdMap::new(),
            last_version: 0,
            updates: 0,
            last_snapshot: None,
            snapshotting: false,
        };
        assert(r@.pages =~= Map::empty());
        assert(r@.retired =~= Set::empty());
        assert(r@.deferred =~= Set::empty());
        r
    }

    /// The smallest identifier never used.
    pub fn max_pid(&self) -> (r: PageID)
        ensures
            r == self@.max_pid,
    {
        self.max_pid
    }

    /// The identifiers to be used again, the next one last.
    pub fn free_pids(&self) -> (r: &Vec<PageID>)
        ensures
            r@ == self@.free,
    {
        &self.free
    }

    /// Whether a page can be created: there is an identifier left, and the one
    /// whose turn it is belongs to no page.
    pub fn can_allocate(&self) -> (r: bool)
        ensures
            r == has_next_pid(self@),
    {
        let n: usize = self.free.len();
        let pid: PageID = if n > 0 {
            self.free[n - 1]
        } else if self.max_pid < usize::MAX {
            self.max_pid
        } else {
            return false;
        };
        self.inner.get(pid).is_none()
    }

    /// Whether there is a snapshot whose pages can be put into the cache.
    pub fn can_recover(&self) -> (r: bool)
        ensures
            r == can_load(self@),
    {
        let snapshot = match &self.last_snapshot {
            Some(snapshot) => snapshot,
            None => {
                return false;
            },
        };
        if self.last_version == u64::MAX {
            return false;
        }
        let pids = snapshot.pt.keys();
        let mut i: usize = 0;
        while i < pids.len()
            invariant
                i <= pids@.len(),
                lists_keys(pids@, snapshot.pt@),
                self.last_snapshot == Some(*snapshot),
                self@.last_snapshot == Some(snapshot@),
                forall|j: int| 0 <= j < i ==> !self@.pages.contains_key(#[trigger] pids@[j]),
            decreases pids@.len() - i,
        {
            if self.inner.get(pids[i]).is_some() {
                assert(pids@.contains(pids@[i as int]));
                assert(snapshot@.pt.contains_key(pids@[i as int]));
                return false;
            }
            i += 1;
        }
        assert forall|pid: PageID| #[trigger]
            snapshot@.pt.contains_key(pid) implies !self@.pages.contains_key(pid) by {
            assert(pids@.contains(pid));
            assert(pids@[pids@.index_of(pid)] == pid);
        }
        true
    }

    /// Exchanges the page's stack for `entries` if the page has the version
    /// `key`.
    fn swap(&mut self, pid: PageID, key: HPtr, entries: Vec<CacheEntry<P>>) -> (r: Result<
        HPtr,
        Option<HPtr>,
    >)
        ensures
            final(self).fixed() == old(self).fixed(),
            final(self)@ == old(self)@.after_swap(pid, key, entries@),
            r == old(self)@.swap_result(pid, key),
    {
        let head = match self.inner.get(pid) {
            Some(stack) => stack.head,
            None => {
                return Err(None);
            },
        };
        if head == key && self.last_version < u64::MAX {
            self.last_version = self.last_version + 1;
            let new_head = HPtr { id: self.last_version };
            self.inner.insert(pid, PageStack { head: new_head, entries });
            assert(self@.pages =~= old(self)@.after_swap(pid, key, entries@).pages);
            Ok(new_head)
        } else {
            Err(Some(head))
        }
    }

    /// Puts `entry` on top of the page's stack if the page has the version
    /// `key`.
    fn push(&mut self, pid: PageID, key: HPtr, entry: CacheEntry<P>) -> (r: Result<
        HPtr,
        Option<HPtr>,
    >)
        ensures
            final(self).fixed() == old(self).fixed(),
            final(self)@ == old(self)@.after_swap(
                pid,
                key,
                old(self)@.pages[pid].entries.push(entry),
            ),
            r == old(self)@.swap_result(pid, key),
    {
        let head = match self.inner.get(pid) {
            Some(stack) => stack.head,
            None => {
                return Err(None);
            },
        };
        if head == key && self.last_version < u64::MAX {
            self.last_version = self.last_version + 1;
            let new_head = HPtr { id: self.last_version };
            if let Some(stack) = self.inner.remove(pid) {
                let mut entries = stack.entries;
                entries.push(entry);
                self.inner.insert(pid, PageStack { head: new_head, entries });
            }
            assert(self@.pages =~= old(self)@.after_swap(
                pid,
                key,
                old(self)@.pages[pid].entries.push(entry),
            ).pages);
            Ok(new_head)
        } else {
            Err(Some(head))
        }
    }

    /// Creates a new page, trying to reuse old freed pages if possible.
    ///
    /// Gives the page's identifier, its version, and the update that is to be
    /// written to the log.
    pub fn allocate(&mut self) -> (r: (PageID, HPtr, LoggedUpdate<P>))
        requires
            old(self)@.wf(),
            has_next_pid(old(self)@),
        ensures
            final(self).fixed() == old(self).fixed(),
            final(self)@.wf(),
            final(self)@ == allocated(old(self)@),
            r.0 == next_pid(old(self)@),
            r.1.id == 0,
            r.2 == (LoggedUpdate::<P> { pid: r.0, update: Update::Alloc }),
    {
        let pid: PageID = match self.free.pop() {
            Some(pid) => pid,
            None => {
                let pid = self.max_pid;
                self.max_pid = self.max_pid + 1;
                pid
            },
        };
        let key = HPtr::null();
        self.inner.insert(pid, PageStack { head: key, entries: Vec::new() });
        assert(self@.pages =~= allocated(old(self)@).pages);
        (pid, key, LoggedUpdate { pid, update: Update::Alloc })
    }

    /// Frees a particular page.
    ///
    /// The page is gone at once; its identifier can be used again when it has
    /// been released.
    pub fn free(&mut self, pid: PageID) -> (r: Step<P>)
        requires
            old(self)@.wf(),
        ensures
            final(self).fixed() == old(self).fixed(),
            final(self)@.wf(),
            !old(self)@.pages.contains_key(pid) ==> {
                &&& final(self)@ == old(self)@
                &&& r == Step::<P>::Return(Outcome::Freed)
            },
            old(self)@.pages.contains_key(pid) ==> {
                &&& final(self)@ == removed(old(self)@, pid)
                &&& r matches Step::Reserve(w)
                &&& w.wf()
                &&& w.update == (LoggedUpdate::<P> { pid, update: Update::Free })
                &&& w.new is None
                &&& w.key == old(self)@.pages[pid].head
                &&& w.kind matches WriteKind::Free { lids }
                &&& lids@ == lids_head_first(old(self)@.pages[pid].entries)
            },
    {
        let stack = match self.inner.remove(pid) {
            Some(stack) => stack,
            None => {
                assert(self@.pages =~= old(self)@.pages);
                return Step::Return(Outcome::Freed);
            },
        };
        self.retired.insert(pid, ());
        let lids = lids_from_stack(&stack.entries);
        assert(self@.pages =~= old(self)@.pages.remove(pid));
        assert(self@.retired =~= old(self)@.retired.insert(pid));
        Step::Reserve(
            Writing {
                update: LoggedUpdate { pid, update: Update::Free },
                new: None,
                key: stack.head,
                kind: WriteKind::Free { lids },
            },
        )
    }

    /// Tries to retrieve a page by its logical ID.
    pub fn get(&self, pid: PageID) -> (r: Step<P>)
        requires
            self@.wf(),
        ensures
            get_step(self.materializer(), self@, pid, r),
            r matches Step::Pull(p) ==> p.wf(),
            r matches Step::Access(q) ==> q.wf(),
    {
        match self.inner.get(pid) {
            Some(stack) => self.page_in(pid, stack),
            None => Step::Return(Outcome::Got(None)),
        }
    }

    /// Reads the page whose stack is given.
    fn page_in(&self, pid: PageID, stack: &PageStack<P>) -> (r: Step<P>)
        requires
            self@.wf(),
            self@.pages.contains_key(pid),
            self@.pages[pid] == stack@,
        ensures
            get_step(self.materializer(), self@, pid, r),
            r matches Step::Pull(p) ==> p.wf(),
            r matches Step::Access(q) ==> q.wf(),
    {
        let entries = &stack.entries;
        let n: usize = entries.len();
        if n == 0 {
            return Step::Return(Outcome::Got(None));
        }
        if let CacheEntry::MergedResident(page_frag, _, _) = &entries[n - 1] {
            // There is only one fragment to look at.
            return Step::Return(Outcome::Got(Some((page_frag.clone(), stack.head))));
        }
        let below = count_below_residents(entries);
        let at = locations(entries);
        let merged_resident = below > 0 && matches!(
            &entries[below - 1],
            CacheEntry::MergedResident(_, _, _)
        );
        if below > 0 && !merged_resident {
            let mut resident: Vec<P> = Vec::with_capacity(n - below);
            let mut i: usize = below;
            while i < n
                invariant
                    n == entries@.len(),
                    below <= i <= n,
                    forall|j: int| below <= j < n ==> (#[trigger] entries@[j]) is Resident,
                    resident@.len() == i - below,
                    forall|j: int|
                        0 <= j < i - below ==> cloned::<P>(
                            (#[trigger] frags(entries@.skip(below as int))[j]),
                            resident@[j],
                        ),
                decreases n - i,
            {
                if let CacheEntry::Resident(page_frag, _, _) = &entries[i] {
                    resident.push(page_frag.clone());
                }
                i += 1;
            }
            let mut to_pull: Vec<(Lsn, LogID)> = Vec::with_capacity(below);
            let mut k: usize = below;
            while k > 0
                invariant
                    k <= below <= at@.len(),
                    to_pull@ =~= at@.take(below as int).reverse().take(below - k),
                decreases k,
            {
                k -= 1;
                to_pull.push(at[k]);
            }
            assert(to_pull@ =~= at@.take(below as int).reverse());
            return Step::Pull(PageIn { pid, head: stack.head, at, resident, to_pull });
        }
        let from: usize = if merged_resident {
            below - 1
        } else {
            below
        };
        let mut combined: Vec<&P> = Vec::with_capacity(n - from);
        let mut i: usize = from;
        while i < n
            invariant
                n == entries@.len(),
                from <= i <= n,
                forall|j: int| from <= j < n ==> !(#[trigger] entries@[j]).is_flushed(),
                combined@.len() == i - from,
                forall|j: int|
                    0 <= j < i - from ==> *(#[trigger] combined@[j]) == entries@[from + j].frag(),
            decreases n - i,
        {
            match &entries[i] {
                CacheEntry::MergedResident(page_frag, _, _) => {
                    combined.push(page_frag);
                },
                CacheEntry::Resident(page_frag, _, _) => {
                    combined.push(page_frag);
                },
                _ => {},
            }
            i += 1;
        }
        let slice = combined.as_slice();
        let merged = self.t.merge(slice);
        proof {
            assert(slice@.unref() =~= frags(entries@.skip(from as int)));
            assert(call_ensures(PM::merge, (&self.t, slice), merged));
        }
        Step::Access(
            Merged {
                pid,
                head: stack.head,
                at,
                merged,
                size: std::mem::size_of::<P>(),
                fix_up_length: if merged_resident {
                    n - below
                } else {
                    0
                },
                fetched: false,
            },
        )
    }

    /// Goes on with a read when its fragments have come from the log, in the
    /// order in which they were asked for.
    pub fn pulled(&self, p: PageIn<P>, fetched: Vec<P>) -> (r: Step<P>)
        requires
            p.wf(),
        ensures
            pulled_step::<PM, P, R>(self.materializer(), p, fetched@, r),
            r matches Step::Access(q) ==> q.wf(),
    {
        let mut combined: Vec<&P> = Vec::new();
        let mut i: usize = fetched.len();
        while i > 0
            invariant
                i <= fetched@.len(),
                combined@.len() == fetched@.len() - i,
                forall|k: int|
                    0 <= k < combined@.len() ==> *(#[trigger] combined@[k]) == fetched@[
                        fetched@.len() - 1 - k],
            decreases i,
        {
            i -= 1;
            combined.push(&fetched[i]);
        }
        let mut j: usize = 0;
        while j < p.resident.len()
            invariant
                j <= p.resident@.len(),
                combined@.len() == fetched@.len() + j,
                forall|k: int|
                    0 <= k < fetched@.len() ==> *(#[trigger] combined@[k]) == fetched@[
                        fetched@.len() - 1 - k],
                forall|k: int|
                    fetched@.len() <= k < fetched@.len() + j ==> *(#[trigger] combined@[k])
                        == p.resident@[k - fetched@.len()],
            decreases p.resident@.len() - j,
        {
            combined.push(&p.resident[j]);
            j += 1;
        }
        let slice = combined.as_slice();
        let merged = self.t.merge(slice);
        proof {
            assert(slice@.unref() =~= fetched@.reverse() + p.resident@);
            assert(call_ensures(PM::merge, (&self.t, slice), merged));
        }
        Step::Access(
            Merged {
                pid: p.pid,
                head: p.head,
                at: p.at,
                merged,
                size: std::mem::size_of::<P>(),
                fix_up_length: 0,
                fetched: fetched.len() > 0,
            },
        )
    }

    /// Goes on with a read when the eviction policy has chosen the pages that
    /// are to leave memory.
    pub fn accessed(&mut self, read: Merged<P>, to_evict: Vec<PageID>) -> (r: Step<P>)
        requires
            old(self)@.wf(),
            read.wf(),
        ensures
            final(self).fixed() == old(self).fixed(),
            final(self)@.wf(),
            page_out_step(old(self).settings(), old(self)@, read, to_evict@, final(self)@, r),
            names(old(self)@, read.pid, read.head, read.at@) ==> page_table(final(self)@)
                == page_table(old(self)@),
    {
        assert(to_evict@.skip(0) =~= to_evict@);
        let ghost to_come = to_evict@;
        let step = self.page_out(read, to_evict, 0);
        proof {
            if names(old(self)@, read.pid, read.head, read.at@) {
                law_reading_keeps_every_position(
                    old(self).settings(),
                    old(self)@,
                    read,
                    to_come,
                    self@,
                    step,
                );
            }
        }
        step
    }

    /// Looks for the next page to leave memory, from the given one of
    /// `to_evict` on.
    fn page_out(&mut self, read: Merged<P>, to_evict: Vec<PageID>, from: usize) -> (r: Step<P>)
        requires
            old(self)@.wf(),
            read.wf(),
            from <= to_evict@.len(),
        ensures
            final(self).fixed() == old(self).fixed(),
            final(self)@.wf(),
            page_out_step(
                old(self).settings(),
                old(self)@,
                read,
                to_evict@.skip(from as int),
                final(self)@,
                r,
            ),
    {
        let mut i: usize = from;
        while i < to_evict.len()
            invariant
                from <= i <= to_evict@.len(),
                *self == *old(self),
                self@.wf(),
                read.wf(),
                self@.next_eviction(to_evict@.skip(i as int)) == self@.next_eviction(
                    to_evict@.skip(from as int),
                ),
            decreases to_evict@.len() - i,
        {
            let pid: PageID = to_evict[i];
            assert(to_evict@.skip(i as int).skip(1) =~= to_evict@.skip(i + 1));
            i += 1;
            match self.inner.get(pid) {
                None => {},
                Some(stack) => {
                    if stack.entries.len() == 0 {
                        return self.page_in_finish(read);
                    }
                    let lsn: Lsn = stack.entries[stack.entries.len() - 1].location().0;
                    let head = stack.head;
                    return Step::MakeStable(
                        Evicting { pid, head, lsn, to_evict, next: i, read },
                    );
                },
            }
        }
        self.page_in_finish(read)
    }

    /// Goes on with a read when the log is stable enough for a page to leave
    /// memory.
    pub fn stable(&mut self, e: Evicting<P>) -> (r: Step<P>)
        requires
            old(self)@.wf(),
            e.wf(),
        ensures
            final(self).fixed() == old(self).fixed(),
            final(self)@.wf(),
            page_out_step(
                old(self).settings(),
                evicted(old(self)@, e.pid, e.head),
                e.read,
                e.rest(),
                final(self)@,
                r,
            ),
            names(old(self)@, e.read.pid, e.read.head, e.read.at@) ==> page_table(final(self)@)
                == page_table(old(self)@),
    {
        if let Some(stack) = self.inner.get(e.pid) {
            let at = locations(&stack.entries);
            let new_stack = flush_all(&at);
            let _ = self.swap(e.pid, e.head, new_stack);
        }
        let ghost without_page = self@;
        assert(without_page == evicted(old(self)@, e.pid, e.head));
        let ghost read = e.read;
        let ghost to_come = e.rest();
        let step = self.page_out(e.read, e.to_evict, e.next);
        proof {
            if names(old(self)@, read.pid, read.head, read.at@) {
                law_evicting_keeps_every_position(old(self)@, e.pid, e.head);
                assert(evolves(old(self)@, without_page));
                law_a_version_keeps_its_meaning(
                    old(self)@,
                    without_page,
                    read.pid,
                    read.head,
                    read.at@,
                );
                law_reading_keeps_every_position(
                    old(self).settings(),
                    without_page,
                    read,
                    to_come,
                    self@,
                    step,
                );
            }
        }
        step
    }

    /// Brings a read to its end.
    fn page_in_finish(&mut self, read: Merged<P>) -> (r: Step<P>)
        requires
            old(self)@.wf(),
            read.wf(),
        ensures
            final(self).fixed() == old(self).fixed(),
            final(self)@.wf(),
            finish_step(old(self).settings(), old(self)@, read, final(self)@, r),
    {
        if read.at.len() > self.config.page_consolidation_threshold {
            let new = read.merged.clone();
            Step::Rewrite(
                Rewrite { pid: read.pid, key: read.head, new },
                AfterRewrite::Return { merged: read.merged, head: read.head },
            )
        } else if read.fetched || read.fix_up_length >= self.config.cache_fixup_threshold {
            let copy = read.merged.clone();
            assert(cloned::<P>(read.merged, copy));
            let new_entries = fix_up(copy, &read.at);
            let head = match self.swap(read.pid, read.head, new_entries) {
                Ok(new_head) => new_head,
                // What has been read is no longer the latest state, so the
                // caller keeps the version that goes with it.
                Err(_) => read.head,
            };
            Step::Return(Outcome::Got(Some((read.merged, head))))
        } else {
            Step::Return(Outcome::Got(Some((read.merged, read.head))))
        }
    }

    /// Replaces an existing page with a different set of fragments.
    ///
    /// The outcome is `Ok(new_key)` if the operation was successful,
    /// `Err(None)` if the page no longer exists, and `Err(Some(actual_key))`
    /// if the atomic swap fails.
    pub fn replace(&self, pid: PageID, key: HPtr, new: P) -> (r: Step<P>)
        ensures
            !self@.pages.contains_key(pid) ==> r == Step::<P>::Return(Outcome::Written(Err(None))),
            self@.pages.contains_key(pid) ==> (r matches Step::Reserve(w) && writes(
                w,
                pid,
                key,
                new,
                WriteKind::Replace { recursed: false },
                true,
            )),
    {
        self.replace_recurse_once(pid, key, new, false)
    }

    /// Replaces a page's fragments; unless `recursed`, the segment accountant
    /// is then asked for a page to be moved.
    pub fn replace_recurse_once(&self, pid: PageID, key: HPtr, new: P, recursed: bool) -> (r: Step<
        P,
    >)
        ensures
            !self@.pages.contains_key(pid) ==> r == Step::<P>::Return(Outcome::Written(Err(None))),
            self@.pages.contains_key(pid) ==> (r matches Step::Reserve(w) && writes(
                w,
                pid,
                key,
                new,
                WriteKind::Replace { recursed },
                true,
            )),
    {
        match self.inner.get(pid) {
            None => Step::Return(Outcome::Written(Err(None))),
            Some(_) => Step::Reserve(
                Writing {
                    update: LoggedUpdate { pid, update: Update::Compact(new.clone()) },
                    new: Some(new),
                    key,
                    kind: WriteKind::Replace { recursed },
                },
            ),
        }
    }

    /// Replaces a page as a part of another operation; no page is asked to be
    /// moved on its account.
    pub fn rewrite(&self, rewrite: Rewrite<P>) -> (r: Step<P>)
        ensures
            !self@.pages.contains_key(rewrite.pid) ==> r == Step::<P>::Return(
                Outcome::Written(Err(None)),
            ),
            self@.pages.contains_key(rewrite.pid) ==> (r matches Step::Reserve(w) && writes(
                w,
                rewrite.pid,
                rewrite.key,
                rewrite.new,
                WriteKind::Replace { recursed: true },
                true,
            )),
    {
        self.replace_recurse_once(rewrite.pid, rewrite.key, rewrite.new, true)
    }

    /// Tries to atomically add a fragment to the page.
    ///
    /// The outcome is `Ok(new_key)` if the operation was successful,
    /// `Err(None)` if the page no longer exists, and `Err(Some(actual_key))`
    /// if the atomic append fails.
    pub fn link(&self, pid: PageID, key: HPtr, new: P) -> (r: Step<P>)
        ensures
            !self@.pages.contains_key(pid) ==> r == Step::<P>::Return(Outcome::Written(Err(None))),
            self@.pages.contains_key(pid) ==> (r matches Step::Reserve(w) && writes(
                w,
                pid,
                key,
                new,
                WriteKind::Link,
                key.id == 0,
            )),
    {
        match self.inner.get(pid) {
            None => Step::Return(Outcome::Written(Err(None))),
            Some(_) => Step::Reserve(
                Writing {
                    update: LoggedUpdate {
                        pid,
                        update: if key.is_null() {
                            Update::Compact(new.clone())
                        } else {
                            Update::Append(new.clone())
                        },
                    },
                    new: Some(new),
                    key,
                    kind: WriteKind::Link,
                },
            ),
        }
    }

    /// Goes on with an update when it has its place in the log.
    pub fn reserved(&mut self, w: Writing<P>, lsn: Lsn, lid: LogID) -> (r: Step<P>)
        requires
            old(self)@.wf(),
            w.wf(),
        ensures
            final(self).fixed() == old(self).fixed(),
            final(self)@.wf(),
            final(self)@ == after_reserved(old(self)@, w, lsn, lid),
            reserved_step(old(self)@, w, lsn, lid, r),
    {
        let pid = w.update.pid;
        let key = w.key;
        match w.kind {
            WriteKind::Free { lids } => Step::Mark(
                Marking {
                    mark: Mark::Replace { pid, lsn, old_lids: lids, lid },
                    cleanup: Cleanup::Skip,
                    committed: Committed { lsn, lid, done: Done::Free(pid) },
                },
            ),
            WriteKind::Replace { recursed } => {
                let old_lids = match self.inner.get(pid) {
                    Some(stack) => lids_from_stack(&stack.entries),
                    None => Vec::new(),
                };
                let mut new_entries: Vec<CacheEntry<P>> = Vec::new();
                if let Some(new) = w.new {
                    new_entries.push(CacheEntry::MergedResident(new, lsn, lid));
                }
                assert(new_entries@ =~= replaced_stack(w.frag(), lsn, lid));
                match self.swap(pid, key, new_entries) {
                    Ok(head) => Step::Mark(
                        Marking {
                            mark: Mark::Replace { pid, lsn, old_lids, lid },
                            cleanup: if recursed {
                                Cleanup::Skip
                            } else {
                                Cleanup::AnyBut(pid)
                            },
                            committed: Committed { lsn, lid, done: Done::Write(head) },
                        },
                    ),
                    Err(actual) => Step::Abort(lsn, lid, Outcome::Written(Err(actual))),
                }
            },
            WriteKind::Link => {
                let result = match w.new {
                    Some(new) => self.push(pid, key, CacheEntry::Resident(new, lsn, lid)),
                    None => Err(None),
                };
                match result {
                    Ok(head) => Step::Mark(
                        Marking {
                            mark: Mark::Link { pid, lsn, lid },
                            cleanup: Cleanup::Any,
                            committed: Committed { lsn, lid, done: Done::Write(head) },
                        },
                    ),
                    Err(actual) => Step::Abort(lsn, lid, Outcome::Written(Err(actual))),
                }
            },
        }
    }

    /// Goes on with an update when the segment accountant knows of it and, if
    /// it was asked, has named a page to be moved.
    pub fn marked(&self, m: Marking, to_clean: Option<PageID>) -> (r: Step<P>)
        requires
            m.cleanup is Skip ==> to_clean is None,
            m.cleanup matches Cleanup::AnyBut(pid) ==> to_clean != Some(pid),
        ensures
            match to_clean {
                Some(pid) => r == Step::<P>::Get(pid, Cleaning { pid, committed: m.committed }),
                None => r == Step::<P>::Complete(m.committed),
            },
    {
        match to_clean {
            Some(pid) => Step::Get(pid, Cleaning { pid, committed: m.committed }),
            None => Step::Complete(m.committed),
        }
    }

    /// Goes on with an update when the page to be moved has been read.
    pub fn got(&self, c: Cleaning, page: Option<(P, HPtr)>) -> (r: Step<P>)
        ensures
            match page {
                Some((new, key)) => r == Step::Rewrite(
                    Rewrite { pid: c.pid, key, new },
                    AfterRewrite::Complete(c.committed),
                ),
                None => r == Step::<P>::Complete(c.committed),
            },
    {
        match page {
            Some((new, key)) => Step::Rewrite(
                Rewrite { pid: c.pid, key, new },
                AfterRewrite::Complete(c.committed),
            ),
            None => Step::Complete(c.committed),
        }
    }

    /// Goes on with an operation when the page that it wanted rewritten has
    /// been, or has not.
    pub fn rewritten(&self, after: AfterRewrite<P>, result: Result<HPtr, Option<HPtr>>) -> (r: Step<
        P,
    >)
        ensures
            r == rewritten_step(after, result),
    {
        match after {
            AfterRewrite::Complete(committed) => Step::Complete(committed),
            AfterRewrite::Return { merged, head } => match result {
                Ok(new_head) => Step::Return(Outcome::Got(Some((merged, new_head)))),
                Err(None) => Step::Return(Outcome::Got(None)),
                Err(Some(_)) => Step::Return(Outcome::Got(Some((merged, head)))),
            },
        }
    }

    /// Goes on with an update when it is complete in the log.
    pub fn completed(&mut self, c: Committed) -> (r: Step<P>)
        requires
            old(self)@.wf(),
            c.done is Write ==> old(self).settings().snapshot_after_ops > 0,
        ensures
            final(self).fixed() == old(self).fixed(),
            final(self)@.wf(),
            final(self)@ == after_completed(old(self)@, c.done),
            r == completed_step::<P, R>(old(self).settings(), old(self)@, c.done),
    {
        match c.done {
            Done::Write(head) => {
                self.updates = if self.updates == usize::MAX {
                    0
                } else {
                    self.updates + 1
                };
                if self.updates % self.config.snapshot_after_ops == 0 {
                    Step::Snapshot(Outcome::Written(Ok(head)))
                } else {
                    Step::Return(Outcome::Written(Ok(head)))
                }
            },
            Done::Free(pid) => {
                if self.retired.remove(pid).is_some() {
                    self.deferred.insert(pid, ());
                }
                assert(self@ =~= after_completed(old(self)@, c.done));
                Step::Defer(pid, Outcome::Freed)
            },
        }
    }

    /// Makes the identifier of a removed page available again.
    ///
    /// To be called when nobody who may still hold a version of the page is
    /// left.
    pub fn release(&mut self, pid: PageID)
        requires
            old(self)@.wf(),
        ensures
            final(self).fixed() == old(self).fixed(),
            final(self)@.wf(),
            final(self)@ == released(old(self)@, pid),
    {
        if self.deferred.remove(pid).is_some() {
            self.free.push(pid);
        }
        assert(self@ =~= released(old(self)@, pid));
    }

    /// Begins to bring the last snapshot up to date, unless somebody else is
    /// at it.
    ///
    /// The caller reads the log from `start_lsn` on and calls `caught_up`.
    pub fn advance_snapshot(&mut self) -> (r: Option<Advancing<R>>)
        requires
            old(self).settings().io_buf_size > 0,
        ensures
            final(self).fixed() == old(self).fixed(),
            old(self)@.snapshotting ==> r is None && final(self)@ == old(self)@,
            !old(self)@.snapshotting ==> {
                &&& final(self)@ == (CacheState {
                    last_snapshot: None,
                    snapshotting: true,
                    ..old(self)@
                })
                &&& r matches Some(a)
                &&& a.snapshot@ == snapshot_of(old(self)@)
                &&& a.start_lsn == segment_lsn(
                    a.snapshot.max_lsn,
                    old(self).settings().io_buf_size,
                )
            },
    {
        if self.snapshotting {
            return None;
        }
        let snapshot = match self.last_snapshot.take() {
            Some(snapshot) => snapshot,
            None => Snapshot::new(),
        };
        self.snapshotting = true;
        let max_lsn: Lsn = snapshot.max_lsn;
        let size: u64 = self.config.io_buf_size as u64;
        proof {
            vstd::arithmetic::div_mod::lemma_mod_decreases(max_lsn as nat, size as nat);
        }
        let start_lsn: Lsn = max_lsn - max_lsn % size;
        Some(Advancing { snapshot, start_lsn })
    }

    /// Takes the records that have been read from the log into the snapshot,
    /// as far as they lie before `stop_lsn`.
    ///
    /// The caller carries out what has happened to the segments, puts the
    /// snapshot on disk and calls `publish_snapshot`.
    pub fn caught_up(
        &self,
        advancing: Advancing<R>,
        records: &Vec<LogRecord<P>>,
        stop_lsn: Lsn,
    ) -> (r: Replay<R>)
        requires
            self.settings().io_buf_size > 0,
            forall|i: int|
                0 <= i < stable_len(records@, stop_lsn) ==> (#[trigger] records@[i]).fits(
                    self.settings().io_buf_size,
                ),
        ensures
            replays(
                self.materializer(),
                self.settings().io_buf_size,
                advancing.snapshot@,
                records@,
                stop_lsn,
                r@,
            ),
    {
        catch_up(&self.t, self.config.io_buf_size, advancing.snapshot, records, stop_lsn)
    }

    /// Makes `snapshot` the last snapshot.
    pub fn publish_snapshot(&mut self, snapshot: Snapshot<R>)
        ensures
            final(self).fixed() == old(self).fixed(),
            final(self)@ == (CacheState {
                last_snapshot: Some(snapshot@),
                snapshotting: false,
                ..old(self)@
            }),
    {
        self.last_snapshot = Some(snapshot);
        self.snapshotting = false;
    }

    /// Puts the pages of the last snapshot, which is up to date with the log,
    /// into the cache, and returns what their owner wants back.
    pub fn recover(&mut self) -> (r: Option<R>)
        requires
            old(self)@.wf(),
            can_load(old(self)@),
        ensures
            final(self).fixed() == old(self).fixed(),
            final(self)@.wf(),
            loads(old(self)@, final(self)@),
            match (old(self)@.last_snapshot->0.recovery, r) {
                (Some(recovery), Some(copy)) => cloned::<R>(recovery, copy),
                (None, None) => true,
                _ => false,
            },
    {
        self.load_snapshot();
        match &self.last_snapshot {
            Some(snapshot) => match &snapshot.recovery {
                Some(recovery) => Some(recovery.clone()),
                None => None,
            },
            None => None,
        }
    }

    /// Puts the pages of the last snapshot into the cache.
    fn load_snapshot(&mut self)
        requires
            old(self)@.wf(),
            can_load(old(self)@),
        ensures
            final(self).fixed() == old(self).fixed(),
            final(self)@.wf(),
            loads(old(self)@, final(self)@),
            final(self).last_snapshot == old(self).last_snapshot,
    {
        let snapshot = match self.last_snapshot.take() {
            Some(snapshot) => snapshot,
            None => {
                return;
            },
        };
        let ghost s0 = old(self)@;
        let ghost at0 = snapshot@.pt;
        self.max_pid = snapshot.max_pid;
        let mut free: Vec<PageID> = Vec::new();
        let mut i: usize = 0;
        while i < snapshot.free.len()
            invariant
                i <= snapshot.free@.len(),
                free@ == snapshot.free@.take(i as int),
            decreases snapshot.free@.len() - i,
        {
            free.push(snapshot.free[i]);
            i += 1;
        }
        assert(free@ =~= snapshot.free@);
        sort_descending(&mut free);
        let ghost sorted = free@;
        self.free.append(&mut free);
        self.last_version = self.last_version + 1;
        let version = HPtr { id: self.last_version };
        let pids = snapshot.pt.keys();
        let ghost with_free = *self;
        let mut k: usize = 0;
        assert(self@.pages =~= with_loaded(
            s0.pages,
            at0.restrict(pids@.take(0).to_set()),
            version,
        ));
        while k < pids.len()
            invariant
                k <= pids@.len(),
                lists_keys(pids@, snapshot.pt@),
                at0 == snapshot@.pt,
                version.id > 0,
                *self == (PageCache { inner: self.inner, ..with_free }),
                self@.pages == with_loaded(
                    s0.pages,
                    at0.restrict(pids@.take(k as int).to_set()),
                    version,
                ),
            decreases pids@.len() - k,
        {
            let pid: PageID = pids[k];
            assert(pids@.contains(pid));
            let ghost before = self@;
            if let Some(at) = snapshot.pt.get(pid) {
                let entries = flush_all(at);
                let head = if at.len() == 0 {
                    HPtr::null()
                } else {
                    version
                };
                self.inner.insert(pid, PageStack { head, entries });
                assert(self@.pages =~= before.pages.insert(pid, loaded_page(at0[pid], version)));
            }
            proof {
                let taken = pids@.take(k as int).to_set();
                assert(pids@.take(k + 1) =~= pids@.take(k as int).push(pid));
                broadcast use vstd::seq_lib::group_seq_properties;

                assert(pids@.take(k + 1).to_set() =~= taken.insert(pid));
                assert(self@.pages =~= with_loaded(
                    s0.pages,
                    at0.restrict(taken.insert(pid)),
                    version,
                ));
            }
            k += 1;
        }
        assert(pids@.take(k as int) =~= pids@);
        assert(at0.restrict(pids@.to_set()) =~= at0);
        self.last_snapshot = Some(snapshot);
        assert(self@.pages =~= with_loaded(s0.pages, at0, version));
        assert(self@.free =~= s0.free + sorted);
        assert(sorts(s0.last_snapshot->0.free, sorted));
    }
}

/// What somebody who brings the snapshot up to date holds.
pub struct Advancing<R> {
    pub snapshot: Snapshot<R>,
    /// The log is to be read from here on.
    pub start_lsn: Lsn,
}

} // verus!
