//! The stack of cache entries that stands for a page.
//!
//! A stack is kept oldest entry first, so that its last entry is its head.

use crate::types::{HPtr, LogID, Lsn};
use vstd::prelude::*;

verus! {

/// One entry of a page's stack, with the log position of the fragment that it
/// stands for.
pub enum CacheEntry<P> {
    /// The page as it is at this entry, everything older merged into it.
    MergedResident(P, Lsn, LogID),
    /// A fragment that is held in memory.
    Resident(P, Lsn, LogID),
    /// A fragment that is only in the log, with older ones below it.
    PartialFlush(Lsn, LogID),
    /// The oldest fragment of the page, only in the log.
    Flush(Lsn, LogID),
}

impl<P> CacheEntry<P> {
    /// The log position of the entry's fragment.
    pub open spec fn loc(self) -> (Lsn, LogID) {
        match self {
            CacheEntry::MergedResident(_, lsn, lid) => (lsn, lid),
            CacheEntry::Resident(_, lsn, lid) => (lsn, lid),
            CacheEntry::PartialFlush(lsn, lid) => (lsn, lid),
            CacheEntry::Flush(lsn, lid) => (lsn, lid),
        }
    }

    /// The value that the entry holds in memory.
    pub open spec fn frag(self) -> P
        recommends
            !self.is_flushed(),
    {
        match self {
            CacheEntry::MergedResident(p, _, _) => p,
            CacheEntry::Resident(p, _, _) => p,
            _ => arbitrary(),
        }
    }

    /// Whether the entry holds nothing in memory.
    pub open spec fn is_flushed(self) -> bool {
        self is PartialFlush || self is Flush
    }

    /// The log position of the entry's fragment.
    pub fn location(&self) -> (r: (Lsn, LogID))
        ensures
            r == self.loc(),
    {
        match self {
            CacheEntry::MergedResident(_, lsn, lid) => (*lsn, *lid),
            CacheEntry::Resident(_, lsn, lid) => (*lsn, *lid),
            CacheEntry::PartialFlush(lsn, lid) => (*lsn, *lid),
            CacheEntry::Flush(lsn, lid) => (*lsn, *lid),
        }
    }
}

/// The log positions of a page's fragments, oldest first.
pub open spec fn locs<P>(entries: Seq<CacheEntry<P>>) -> Seq<(Lsn, LogID)> {
    Seq::new(entries.len(), |i: int| entries[i].loc())
}

/// The values that `entries` hold in memory, oldest first.
pub open spec fn frags<P>(entries: Seq<CacheEntry<P>>) -> Seq<P> {
    Seq::new(entries.len(), |i: int| entries[i].frag())
}

/// The shape that every stack has: flushed entries at the bottom, the oldest
/// of them marked as such, then at most one merged entry, then single
/// fragments.
pub open spec fn well_shaped<P>(entries: Seq<CacheEntry<P>>) -> bool {
    &&& entries.len() > 0 ==> !(entries[0] is PartialFlush)
    &&& forall|i: int| 0 < i < entries.len() ==> !(#[trigger] entries[i] is Flush)
    &&& forall|i: int, j: int|
        0 <= i < j < entries.len() && !(#[trigger] entries[j] is Resident) ==> (
        #[trigger] entries[i]).is_flushed()
}

/// How many entries lie below the run of single fragments at the head.
pub open spec fn below_residents<P>(entries: Seq<CacheEntry<P>>) -> nat
    decreases entries.len(),
{
    if entries.len() > 0 && entries.last() is Resident {
        below_residents(entries.drop_last())
    } else {
        entries.len()
    }
}

/// Whether the fragments below the run at the head are in memory as one
/// merged entry.
pub open spec fn has_merged<P>(entries: Seq<CacheEntry<P>>) -> bool {
    below_residents(entries) > 0 && entries[below_residents(entries) - 1] is MergedResident
}

/// Whether the page can only be read with the help of the log.
pub open spec fn needs_pull<P>(entries: Seq<CacheEntry<P>>) -> bool {
    below_residents(entries) > 0 && !has_merged(entries)
}

/// The stack whose fragments are all in the log only, at `at`, oldest first.
pub open spec fn flushed_stack<P>(at: Seq<(Lsn, LogID)>) -> Seq<CacheEntry<P>> {
    Seq::new(
        at.len(),
        |i: int|
            if i == 0 {
                CacheEntry::Flush(at[i].0, at[i].1)
            } else {
                CacheEntry::PartialFlush(at[i].0, at[i].1)
            },
    )
}

/// The stack whose head is the whole page, merged, and whose older fragments
/// are in the log only.
pub open spec fn fixed_up_stack<P>(merged: P, at: Seq<(Lsn, LogID)>) -> Seq<CacheEntry<P>> {
    Seq::new(
        at.len(),
        |i: int|
            if i == at.len() - 1 {
                CacheEntry::MergedResident(merged, at[i].0, at[i].1)
            } else if i == 0 {
                CacheEntry::Flush(at[i].0, at[i].1)
            } else {
                CacheEntry::PartialFlush(at[i].0, at[i].1)
            },
    )
}

/// A stack together with the version that names it.
pub struct PageStack<P> {
    pub head: HPtr,
    pub entries: Vec<CacheEntry<P>>,
}

/// What a [`PageStack`] is, as a mathematical value.
#[verifier::ext_equal]
pub struct PageState<P> {
    pub head: HPtr,
    pub entries: Seq<CacheEntry<P>>,
}

impl<P> View for PageStack<P> {
    type V = PageState<P>;

    open spec fn view(&self) -> PageState<P> {
        PageState { head: self.head, entries: self.entries@ }
    }
}

impl<P> PageState<P> {
    /// The stack has its shape, and it is named by the null version if and
    /// only if it is empty.
    pub open spec fn wf(self) -> bool {
        &&& well_shaped(self.entries)
        &&& self.entries.len() == 0 <==> self.head.id == 0
    }
}

/// The log positions of a stack's fragments, oldest first.
pub fn locations<P>(entries: &Vec<CacheEntry<P>>) -> (r: Vec<(Lsn, LogID)>)
    ensures
        r@ == locs(entries@),
{
    let mut out: Vec<(Lsn, LogID)> = Vec::with_capacity(entries.len());
    let mut i: usize = 0;
    while i < entries.len()
        invariant
            i <= entries@.len(),
            out@ =~= locs(entries@).take(i as int),
        decreases entries@.len() - i,
    {
        out.push(entries[i].location());
        i += 1;
    }
    assert(out@ =~= locs(entries@));
    out
}

/// The log file positions of a stack's fragments, from the head down.
pub fn lids_from_stack<P>(entries: &Vec<CacheEntry<P>>) -> (r: Vec<LogID>)
    ensures
        r@ == lids_head_first(entries@),
{
    let mut lids: Vec<LogID> = Vec::new();
    let mut i: usize = entries.len();
    while i > 0
        invariant
            i <= entries@.len(),
            lids@ =~= lids_head_first(entries@).take(entries@.len() - i),
        decreases i,
    {
        i -= 1;
        lids.push(entries[i].location().1);
    }
    assert(lids@ =~= lids_head_first(entries@));
    lids
}

/// The log file positions of a stack's fragments, from the head down.
pub open spec fn lids_head_first<P>(entries: Seq<CacheEntry<P>>) -> Seq<LogID> {
    Seq::new(entries.len(), |i: int| entries[entries.len() - 1 - i].loc().1)
}

/// Builds the stack whose fragments are all in the log only.
pub fn flush_all<P>(at: &Vec<(Lsn, LogID)>) -> (r: Vec<CacheEntry<P>>)
    ensures
        r@ == flushed_stack::<P>(at@),
        well_shaped(r@),
        locs(r@) == at@,
{
    let mut out: Vec<CacheEntry<P>> = Vec::with_capacity(at.len());
    let mut i: usize = 0;
    while i < at.len()
        invariant
            i <= at@.len(),
            out@ =~= flushed_stack::<P>(at@).take(i as int),
        decreases at@.len() - i,
    {
        let (lsn, lid) = at[i];
        if i == 0 {
            out.push(CacheEntry::Flush(lsn, lid));
        } else {
            out.push(CacheEntry::PartialFlush(lsn, lid));
        }
        i += 1;
    }
    assert(out@ =~= flushed_stack::<P>(at@));
    assert(locs(out@) =~= at@);
    out
}

/// Builds the stack whose head is the whole page and whose older fragments
/// are in the log only.
pub fn fix_up<P>(merged: P, at: &Vec<(Lsn, LogID)>) -> (r: Vec<CacheEntry<P>>)
    requires
        at@.len() > 0,
    ensures
        r@ == fixed_up_stack(merged, at@),
        well_shaped(r@),
        locs(r@) == at@,
{
    let mut out: Vec<CacheEntry<P>> = Vec::with_capacity(at.len());
    let last: usize = at.len() - 1;
    let mut i: usize = 0;
    while i < last
        invariant
            i <= last == at@.len() - 1,
            out@ =~= fixed_up_stack(merged, at@).take(i as int),
        decreases at@.len() - i,
    {
        let (lsn, lid) = at[i];
        if i == 0 {
            out.push(CacheEntry::Flush(lsn, lid));
        } else {
            out.push(CacheEntry::PartialFlush(lsn, lid));
        }
        i += 1;
    }
    let (head_lsn, head_lid) = at[i];
    out.push(CacheEntry::MergedResident(merged, head_lsn, head_lid));
    assert(out@ =~= fixed_up_stack(merged, at@));
    assert(locs(out@) =~= at@);
    out
}

/// Finds how many entries lie below the run of single fragments at the head.
pub fn count_below_residents<P>(entries: &Vec<CacheEntry<P>>) -> (r: usize)
    ensures
        r == below_residents(entries@),
        r <= entries@.len(),
        forall|i: int| r <= i < entries@.len() ==> (#[trigger] entries@[i]) is Resident,
        r > 0 ==> !(entries@[r - 1] is Resident),
{
    let mut i: usize = entries.len();
    assert(entries@.take(i as int) =~= entries@);
    while i > 0 && matches!(&entries[i - 1], CacheEntry::Resident(_, _, _))
        invariant
            i <= entries@.len(),
            below_residents(entries@) == below_residents(entries@.take(i as int)),
            forall|j: int| i <= j < entries@.len() ==> (#[trigger] entries@[j]) is Resident,
        decreases i,
    {
        assert(entries@.take(i as int).drop_last() =~= entries@.take(i - 1));
        i -= 1;
    }
    i
}

} // verus!
