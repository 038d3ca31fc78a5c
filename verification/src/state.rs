//! The page cache as a mathematical value, and the changes it can undergo.

use crate::snapshot::SnapshotState;
use crate::stack::{CacheEntry, PageState};
use crate::types::{HPtr, PageID};
use vstd::prelude::*;

verus! {

/// What a page cache is, as a mathematical value.
#[verifier::ext_equal]
pub struct CacheState<P, R> {
    /// The pages, each with its stack.
    pub pages: Map<PageID, PageState<P>>,
    /// Identifiers to be used again, the next one last.
    pub free: Seq<PageID>,
    /// Identifiers of removed pages whose removal is not yet in the log.
    pub retired: Set<PageID>,
    /// Identifiers of removed pages of which somebody may still hold a
    /// version.
    pub deferred: Set<PageID>,
    /// The smallest identifier never used.
    pub max_pid: PageID,
    /// The number of the newest version given to any stack.
    pub last_version: u64,
    /// How many updates have been made, modulo the size of the counter.
    pub updates: usize,
    /// The last snapshot, while nobody is at work on it.
    pub last_snapshot: Option<SnapshotState<R>>,
    /// Whether somebody is at work on the snapshot.
    pub snapshotting: bool,
}

impl<P, R> CacheState<P, R> {
    /// The cache without pages.
    pub open spec fn empty() -> Self {
        CacheState {
            pages: Map::empty(),
            free: Seq::empty(),
            retired: Set::empty(),
            deferred: Set::empty(),
            max_pid: 0,
            last_version: 0,
            updates: 0,
            last_snapshot: None,
            snapshotting: false,
        }
    }

    /// Every stack is well formed, and none has a version yet to be given.
    pub open spec fn wf(self) -> bool {
        forall|pid: PageID| #[trigger]
            self.pages.contains_key(pid) ==> self.pages[pid].wf() && self.pages[pid].head.id
                <= self.last_version
    }

    /// Whether the page is there under the version `key`, with a version left
    /// to give to its successor.
    pub open spec fn can_swap(self, pid: PageID, key: HPtr) -> bool {
        &&& self.pages.contains_key(pid)
        &&& self.pages[pid].head == key
        &&& self.last_version < u64::MAX
    }

    /// The version that the next changed stack gets.
    pub open spec fn next_version(self) -> HPtr {
        HPtr { id: (self.last_version + 1) as u64 }
    }

    /// The cache with the page's stack exchanged for `entries`, under a new
    /// version.
    pub open spec fn swap(self, pid: PageID, entries: Seq<CacheEntry<P>>) -> Self {
        CacheState {
            pages: self.pages.insert(
                pid,
                PageState { head: self.next_version(), entries: entries },
            ),
            last_version: self.next_version().id,
            ..self
        }
    }

    /// The cache after an attempt to exchange the stack that `key` names.
    pub open spec fn after_swap(
        self,
        pid: PageID,
        key: HPtr,
        entries: Seq<CacheEntry<P>>,
    ) -> Self {
        if self.can_swap(pid, key) {
            self.swap(pid, entries)
        } else {
            self
        }
    }

    /// What the attempt reports: the new version, the version that is there
    /// instead, or that there is no such page.
    pub open spec fn swap_result(self, pid: PageID, key: HPtr) -> Result<HPtr, Option<HPtr>> {
        if !self.pages.contains_key(pid) {
            Err(None)
        } else if self.can_swap(pid, key) {
            Ok(self.next_version())
        } else {
            Err(Some(self.pages[pid].head))
        }
    }

    /// The page to be evicted first out of `to_evict`, and the ones to be
    /// looked at after it.
    ///
    /// Identifiers without a page are passed over; an empty page ends the
    /// round.
    pub open spec fn next_eviction(self, to_evict: Seq<PageID>) -> Option<(PageID, Seq<PageID>)>
        decreases to_evict.len(),
    {
        if to_evict.len() == 0 {
            None
        } else if !self.pages.contains_key(to_evict[0]) {
            self.next_eviction(to_evict.skip(1))
        } else if self.pages[to_evict[0]].entries.len() == 0 {
            None
        } else {
            Some((to_evict[0], to_evict.skip(1)))
        }
    }
}

} // verus!
