//! What the cache asks of its caller, and what it needs to go on afterwards.
//!
//! Every operation on the cache gives a [`Step`]. The caller carries out what
//! the step asks for and hands the result, together with the value that the
//! step came with, to the method of the cache that the step names. It does so
//! until a step carries an [`Outcome`]. Steps of several operations may
//! alternate.

use crate::types::{HPtr, LogID, LoggedUpdate, Lsn, PageID};
use vstd::prelude::*;

verus! {

/// What an operation gives in the end.
pub enum Outcome<P> {
    /// A page and its version, or that there is none.
    Got(Option<(P, HPtr)>),
    /// The page's new version; `Err(None)` if there is no such page;
    /// `Err(Some(actual))` if the page has another version than the one
    /// presented.
    Written(Result<HPtr, Option<HPtr>>),
    /// The page is gone.
    Freed,
}

/// What the caller is to do next.
pub enum Step<P> {
    /// Nothing: the operation is over.
    Return(Outcome<P>),
    /// See to it that `release` is called for the identifier once nobody is
    /// left who may hold a version of its page; the operation itself is over.
    Defer(PageID, Outcome<P>),
    /// Reserve room in the log for the update, then call `reserved`.
    Reserve(Writing<P>),
    /// Abort the reservation; then the operation is over.
    Abort(Lsn, LogID, Outcome<P>),
    /// Tell the segment accountant, then call `marked`.
    Mark(Marking),
    /// Get the page, then call `got`.
    Get(PageID, Cleaning),
    /// Call `rewrite` and see it through, then call `rewritten`.
    Rewrite(Rewrite<P>, AfterRewrite<P>),
    /// Complete the reservation, then call `completed`.
    Complete(Committed),
    /// Advance the snapshot; then the operation is over.
    Snapshot(Outcome<P>),
    /// Read fragments back from the log, then call `pulled`.
    Pull(PageIn<P>),
    /// Tell the eviction policy of the access, then call `accessed` with the
    /// pages that it wants out.
    Access(Merged<P>),
    /// Make the log stable up to the sequence number, then call `stable`.
    MakeStable(Evicting<P>),
}

/// How an update goes into the cache once it has its place in the log.
pub enum WriteKind {
    /// It takes the place of the whole stack; `recursed` if no cleaning is to
    /// follow.
    Replace { recursed: bool },
    /// It goes on top of the stack.
    Link,
    /// It does not: the page with fragments at these positions is gone.
    Free { lids: Vec<LogID> },
}

/// An update on its way into the log.
pub struct Writing<P> {
    /// What goes into the log.
    pub update: LoggedUpdate<P>,
    /// The fragment that goes into the cache, if there is one: that of which
    /// the update holds a clone.
    pub new: Option<P>,
    /// The version that the page is expected to have.
    pub key: HPtr,
    pub kind: WriteKind,
}

/// What the segment accountant is told.
pub enum Mark {
    /// The page's fragments at `old_lids` are superseded by the one at `lid`.
    Replace { pid: PageID, lsn: Lsn, old_lids: Vec<LogID>, lid: LogID },
    /// The page has a further fragment at `lid`.
    Link { pid: PageID, lsn: Lsn, lid: LogID },
}

/// Whether the segment accountant is asked for a page to be moved out of its
/// segment.
#[derive(Clone, Copy, PartialEq, Eq, Structural, Debug)]
pub enum Cleanup {
    /// It is not.
    Skip,
    /// Any page will do.
    Any,
    /// Any page but this one.
    AnyBut(PageID),
}

/// A change that is in the cache, and of which the segment accountant is to
/// be told.
pub struct Marking {
    pub mark: Mark,
    pub cleanup: Cleanup,
    pub committed: Committed,
}

/// What is left to do when the reservation has been completed.
#[derive(Clone, Copy, PartialEq, Eq, Structural, Debug)]
pub enum Done {
    /// Count the update and give back the page's new version.
    Write(HPtr),
    /// Have the identifier made available again.
    Free(PageID),
}

/// A change that is in the cache and known to the segment accountant.
#[derive(Clone, Copy, PartialEq, Eq, Structural, Debug)]
pub struct Committed {
    pub lsn: Lsn,
    pub lid: LogID,
    pub done: Done,
}

/// A change whose completion waits for a page to be moved.
#[derive(Clone, Copy, PartialEq, Eq, Structural, Debug)]
pub struct Cleaning {
    pub pid: PageID,
    pub committed: Committed,
}

/// A page to be replaced as a part of another operation.
pub struct Rewrite<P> {
    pub pid: PageID,
    pub key: HPtr,
    pub new: P,
}

/// What follows such a replacement.
pub enum AfterRewrite<P> {
    /// The completion of the change that asked for cleaning.
    Complete(Committed),
    /// The result of the read that found the page too long.
    Return { merged: P, head: HPtr },
}

/// A read that needs fragments from the log.
pub struct PageIn<P> {
    pub pid: PageID,
    /// The version that is being read.
    pub head: HPtr,
    /// The positions of all fragments, oldest first.
    pub at: Vec<(Lsn, LogID)>,
    /// Clones of the fragments that are in memory, oldest first.
    pub resident: Vec<P>,
    /// The positions to be read, newest first.
    pub to_pull: Vec<(Lsn, LogID)>,
}

/// A page that has been read and merged.
pub struct Merged<P> {
    pub pid: PageID,
    /// The version that was read.
    pub head: HPtr,
    /// The positions of all fragments, oldest first.
    pub at: Vec<(Lsn, LogID)>,
    pub merged: P,
    /// The size of the page in memory, as the eviction policy counts it.
    pub size: usize,
    /// How many fragments lay above the merged one that was found.
    pub fix_up_length: usize,
    /// Whether fragments came out of the log.
    pub fetched: bool,
}

/// A page on its way out of memory, and the read that waits for it.
pub struct Evicting<P> {
    pub pid: PageID,
    /// The version that is to be flushed.
    pub head: HPtr,
    /// Up to here the log has to be stable first.
    pub lsn: Lsn,
    pub to_evict: Vec<PageID>,
    /// How many of `to_evict` have been dealt with.
    pub next: usize,
    pub read: Merged<P>,
}

impl<P> Writing<P> {
    /// The update is of the kind that it is said to be.
    pub open spec fn wf(self) -> bool {
        match self.kind {
            WriteKind::Replace { recursed } => self.new is Some && self.update.update is Compact,
            WriteKind::Link => self.new is Some && self.update.update.has_frag(),
            WriteKind::Free { lids } => self.update.update is Free,
        }
    }

    /// The fragment that goes into the cache.
    pub open spec fn frag(self) -> P
        recommends
            self.new is Some,
    {
        self.new->0
    }
}

impl<P> PageIn<P> {
    /// The page has a fragment.
    pub open spec fn wf(self) -> bool {
        self.at@.len() > 0
    }
}

impl<P> Merged<P> {
    /// The page has a fragment.
    pub open spec fn wf(self) -> bool {
        self.at@.len() > 0
    }
}

impl<P> Evicting<P> {
    /// The page to be flushed has a fragment.
    pub open spec fn wf(self) -> bool {
        &&& self.head.id != 0
        &&& self.next <= self.to_evict@.len()
        &&& self.read.wf()
    }

    /// The pages to be looked at after this one.
    pub open spec fn rest(self) -> Seq<PageID> {
        self.to_evict@.skip(self.next as int)
    }
}

} // verus!
