//! What stacks are made of, entry by entry.

use crate::laws::values::lemma_below_residents;
use crate::stack::{
    below_residents, fixed_up_stack, flushed_stack, frags, has_merged, lids_head_first, locs,
    needs_pull, well_shaped, CacheEntry,
};
use crate::types::{LogID, Lsn};
use vstd::prelude::*;

verus! {

/// The entry stands for the fragment at `at` in the log.
pub open spec fn stands_at<P>(entry: CacheEntry<P>, at: (Lsn, LogID)) -> bool {
    ||| entry matches CacheEntry::MergedResident(p, lsn, lid) && lsn == at.0 && lid == at.1
    ||| entry matches CacheEntry::Resident(p, lsn, lid) && lsn == at.0 && lid == at.1
    ||| entry matches CacheEntry::PartialFlush(lsn, lid) && lsn == at.0 && lid == at.1
    ||| entry matches CacheEntry::Flush(lsn, lid) && lsn == at.0 && lid == at.1
}

/// The entry's fragment has the sequence number `lsn`.
pub open spec fn has_lsn<P>(entry: CacheEntry<P>, lsn: Lsn) -> bool {
    ||| entry matches CacheEntry::MergedResident(p, l, d) && l == lsn
    ||| entry matches CacheEntry::Resident(p, l, d) && l == lsn
    ||| entry matches CacheEntry::PartialFlush(l, d) && l == lsn
    ||| entry matches CacheEntry::Flush(l, d) && l == lsn
}

/// The entry's fragment is at `lid` in the log file.
pub open spec fn has_lid<P>(entry: CacheEntry<P>, lid: LogID) -> bool {
    ||| entry matches CacheEntry::MergedResident(p, l, d) && d == lid
    ||| entry matches CacheEntry::Resident(p, l, d) && d == lid
    ||| entry matches CacheEntry::PartialFlush(l, d) && d == lid
    ||| entry matches CacheEntry::Flush(l, d) && d == lid
}

/// The entry holds `p` in memory.
pub open spec fn holds<P>(entry: CacheEntry<P>, p: P) -> bool {
    ||| entry matches CacheEntry::MergedResident(q, lsn, lid) && q == p
    ||| entry matches CacheEntry::Resident(q, lsn, lid) && q == p
}

/// The entry holds nothing in memory.
pub open spec fn in_log_only<P>(entry: CacheEntry<P>) -> bool {
    entry is PartialFlush || entry is Flush
}

/// `at` has the position of each entry, oldest first.
pub open spec fn lists_positions<P>(at: Seq<(Lsn, LogID)>, entries: Seq<CacheEntry<P>>) -> bool {
    &&& at.len() == entries.len()
    &&& forall|i: int| 0 <= i < at.len() ==> stands_at(entries[i], #[trigger] at[i])
}

/// The positions of a stack are those of all of its entries, oldest first, and
/// nothing else is.
pub proof fn law_positions_are_those_of_the_entries<P>(
    entries: Seq<CacheEntry<P>>,
    at: Seq<(Lsn, LogID)>,
)
    ensures
        lists_positions(at, entries) <==> at == locs(entries),
{
    if lists_positions(at, entries) {
        assert forall|i: int| 0 <= i < at.len() implies at[i] == locs(entries)[i] by {
            assert(stands_at(entries[i], at[i]));
        }
        assert(at =~= locs(entries));
    }
}

/// The positions that the segment accountant is told of are those of all
/// entries, newest first.
pub proof fn law_old_positions_are_those_of_the_entries<P>(entries: Seq<CacheEntry<P>>)
    ensures
        lids_head_first(entries).len() == entries.len(),
        forall|i: int|
            0 <= i < entries.len() ==> has_lid(
                entries[entries.len() - 1 - i],
                #[trigger] lids_head_first(entries)[i],
            ),
{
}

/// The fragments of entries that are in memory are what these hold, all of
/// them, oldest first.
pub proof fn law_fragments_are_what_the_entries_hold<P>(entries: Seq<CacheEntry<P>>)
    ensures
        frags(entries).len() == entries.len(),
        forall|i: int|
            0 <= i < entries.len() && !in_log_only(entries[i]) ==> holds(
                entries[i],
                #[trigger] frags(entries)[i],
            ),
{
}

/// Above the count are single fragments in memory only, and right below it is
/// something else.
pub proof fn law_the_run_at_the_head_is_all_of_it<P>(entries: Seq<CacheEntry<P>>, n: int)
    ensures
        n == below_residents(entries) <==> {
            &&& 0 <= n <= entries.len()
            &&& forall|i: int| n <= i < entries.len() ==> (#[trigger] entries[i]) is Resident
            &&& n > 0 ==> !(entries[n - 1] is Resident)
        },
{
    lemma_below_residents(entries);
    let b = below_residents(entries) as int;
    if 0 <= n <= entries.len() && (forall|i: int|
        n <= i < entries.len() ==> (#[trigger] entries[i]) is Resident) && (n > 0 ==> !(entries[n
        - 1] is Resident)) {
        if n < b {
            assert(entries[b - 1] is Resident);
        }
        if b < n {
            assert(entries[n - 1] is Resident);
        }
    }
}

/// A stack has a merged entry below the fragments at its head if and only if it
/// has one anywhere, and cannot be read from memory if and only if it has none
/// and something of it is in the log only.
pub proof fn law_a_stack_is_read_from_memory_if_it_can_be<P>(entries: Seq<CacheEntry<P>>)
    requires
        well_shaped(entries),
    ensures
        has_merged(entries) <==> exists|i: int|
            0 <= i < entries.len() && (#[trigger] entries[i]) is MergedResident,
        needs_pull(entries) <==> {
            &&& forall|i: int|
                0 <= i < entries.len() ==> !((#[trigger] entries[i]) is MergedResident)
            &&& exists|i: int| 0 <= i < entries.len() && in_log_only(#[trigger] entries[i])
        },
{
    lemma_below_residents(entries);
    let below = below_residents(entries) as int;
    if exists|i: int| 0 <= i < entries.len() && (#[trigger] entries[i]) is MergedResident {
        let i = choose|i: int|
            0 <= i < entries.len() && (#[trigger] entries[i]) is MergedResident;
        assert(i < below);
        if i < below - 1 {
            assert(entries[i].is_flushed());
        }
    }
    if exists|i: int| 0 <= i < entries.len() && in_log_only(#[trigger] entries[i]) {
        let i = choose|i: int| 0 <= i < entries.len() && in_log_only(#[trigger] entries[i]);
        assert(i < below);
    }
    if below > 0 && !has_merged(entries) {
        assert(in_log_only(entries[below - 1]));
    }
}

/// A stack that is in the log only has all its positions, its oldest entry
/// marked as such.
pub proof fn law_a_flushed_stack_keeps_its_positions<P>(at: Seq<(Lsn, LogID)>)
    ensures
        lists_positions(at, flushed_stack::<P>(at)),
        forall|i: int|
            0 <= i < at.len() ==> if i == 0 {
                (#[trigger] flushed_stack::<P>(at)[i]) is Flush
            } else {
                flushed_stack::<P>(at)[i] is PartialFlush
            },
{
}

/// A stack with the merged page at its head has all its positions, and holds
/// nothing but that page in memory.
pub proof fn law_a_fixed_up_stack_keeps_its_positions<P>(merged: P, at: Seq<(Lsn, LogID)>)
    requires
        at.len() > 0,
    ensures
        lists_positions(at, fixed_up_stack(merged, at)),
        fixed_up_stack(merged, at)[at.len() - 1] is MergedResident,
        holds(fixed_up_stack(merged, at)[at.len() - 1], merged),
        forall|i: int|
            0 <= i < at.len() - 1 ==> if i == 0 {
                (#[trigger] fixed_up_stack(merged, at)[i]) is Flush
            } else {
                fixed_up_stack(merged, at)[i] is PartialFlush
            },
{
}

} // verus!
