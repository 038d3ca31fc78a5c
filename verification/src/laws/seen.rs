//! What reads give back, now and after whatever goes on beside them.
//!
//! A read takes a merged page that is in memory for what it is, so what is
//! seen of a page need not be what its fragments in the log merge to: a page
//! that has been replaced by `x` is seen as `x`, while the log gives what
//! merging `x` alone gives. Of the materializer nothing is asked here but
//! where a law says so.
//!
//! After a write a page may be moved out of a segment that is to be cleaned:
//! it is read and rewritten as it is. Together with what other reads do to the
//! cache, these are the quiet changes.

use crate::laws::recovery::{ascending, page_table};
use crate::laws::runs::{
    after, can_happen, law_recovery_gives_back_every_page, log_of, mirrors, possible, sound,
    state_after, Change,
};
use crate::laws::values::{
    agrees, awaits_rest, clones_are_equal, computes, entry_agrees,
    law_a_write_changes_its_page_only, law_creation_and_removal_change_their_page_only,
    law_eviction_changes_no_value, lawful, lemma_below_residents, lemma_merge_from,
    lemma_same_positions, logged, stack_agrees, value, value_after, value_at, whole,
};
use crate::laws::versions::{evolves, names};
use crate::materializer::Materializer;
use crate::snapshot::{replays, stable_len, LogRecord, ReplayState, SnapshotState};
use crate::stack::{
    below_residents, fixed_up_stack, flushed_stack, frags, has_merged, locs, needs_pull, CacheEntry,
};
use crate::state::CacheState;
use crate::step::{Merged, Outcome, Step, Writing};
use crate::transitions::{after_reserved, get_step, loads, page_out_step};
use crate::types::{Config, HPtr, LogID, Lsn, PageID};
use vstd::prelude::*;

verus! {

/// What is seen of a stack: its merged entry if there is one, with the
/// fragments above it, and else what its fragments merge to.
pub open spec fn seen_in<P>(
    f: spec_fn(Seq<P>) -> P,
    content: Map<(Lsn, LogID), P>,
    entries: Seq<CacheEntry<P>>,
) -> Option<P> {
    if entries.len() == 0 {
        None
    } else if entries.last() is MergedResident {
        Some(entries.last().frag())
    } else if has_merged(entries) {
        Some(f(frags(entries.skip(below_residents(entries) - 1))))
    } else {
        Some(f(logged(content, locs(entries))))
    }
}

/// What is seen of a page, `None` if there is no such page or nothing has been
/// written to it.
pub open spec fn seen<P, R>(
    f: spec_fn(Seq<P>) -> P,
    content: Map<(Lsn, LogID), P>,
    s: CacheState<P, R>,
    pid: PageID,
) -> Option<P> {
    if s.pages.contains_key(pid) {
        seen_in(f, content, s.pages[pid].entries)
    } else {
        None
    }
}

/// The single fragments of a stack that are in memory are those in the log.
pub open spec fn fragments_agree<P>(
    content: Map<(Lsn, LogID), P>,
    entries: Seq<CacheEntry<P>>,
) -> bool {
    forall|i: int|
        0 <= i < entries.len() ==> ((#[trigger] entries[i]) matches CacheEntry::Resident(
            p,
            lsn,
            lid,
        ) ==> p == content[(lsn, lid)])
}

/// The single fragments that the cache has in memory are those in the log.
pub open spec fn memory_agrees<P, R>(content: Map<(Lsn, LogID), P>, s: CacheState<P, R>) -> bool {
    forall|pid: PageID| #[trigger]
        s.pages.contains_key(pid) ==> fragments_agree(content, s.pages[pid].entries)
}

/// The stack is seen the same when all of it is in the log only.
pub open spec fn lasting<P>(
    f: spec_fn(Seq<P>) -> P,
    content: Map<(Lsn, LogID), P>,
    entries: Seq<CacheEntry<P>>,
) -> bool {
    seen_in(f, content, entries) == value_at(f, content, locs(entries))
}

/// Nothing else is seen in `s1` than in `s0`.
pub open spec fn same_sight<P, R>(
    f: spec_fn(Seq<P>) -> P,
    content: Map<(Lsn, LogID), P>,
    s0: CacheState<P, R>,
    s1: CacheState<P, R>,
) -> bool {
    forall|pid: PageID| #[trigger] seen(f, content, s1, pid) == seen(f, content, s0, pid)
}

/// Whenever the page has the version `head`, `page` is seen of it; and `head`
/// has been given already.
pub open spec fn shows<P, R>(
    f: spec_fn(Seq<P>) -> P,
    content: Map<(Lsn, LogID), P>,
    s: CacheState<P, R>,
    pid: PageID,
    head: HPtr,
    page: P,
) -> bool {
    &&& 0 < head.id <= s.last_version
    &&& s.pages.contains_key(pid) && s.pages[pid].head == head ==> seen(f, content, s, pid) == Some(
        page,
    )
}

/// A page that agrees with the log is seen as the value that the log gives it,
/// if merging in parts is merging at once.
pub proof fn law_what_agrees_is_seen_as_its_value<P, R>(
    f: spec_fn(Seq<P>) -> P,
    content: Map<(Lsn, LogID), P>,
    s: CacheState<P, R>,
)
    requires
        lawful(f),
        agrees(f, content, s),
    ensures
        memory_agrees(content, s),
        forall|pid: PageID| #[trigger] seen(f, content, s, pid) == value(f, content, s, pid),
        forall|pid: PageID| #[trigger]
            s.pages.contains_key(pid) ==> lasting(f, content, s.pages[pid].entries),
{
    assert forall|pid: PageID| #[trigger] s.pages.contains_key(pid) implies lasting(
        f,
        content,
        s.pages[pid].entries,
    ) && fragments_agree(content, s.pages[pid].entries) by {
        let entries = s.pages[pid].entries;
        let n = entries.len() as int;
        assert(stack_agrees(f, content, entries));
        assert forall|i: int| 0 <= i < n implies (
        (#[trigger] entries[i]) matches CacheEntry::Resident(p, lsn, lid) ==> p == content[(
            lsn,
            lid,
        )]) by {
            assert(entry_agrees(f, content, entries, i));
        }
        if n > 0 {
            lemma_below_residents(entries);
            if entries.last() is MergedResident {
                assert(entry_agrees(f, content, entries, n - 1));
                assert(locs(entries).take(n) =~= locs(entries));
            } else if has_merged(entries) {
                lemma_merge_from(f, content, entries, below_residents(entries) - 1);
            }
        }
    }
    assert forall|pid: PageID| #[trigger]
        seen(f, content, s, pid) == value(f, content, s, pid) by {
        if s.pages.contains_key(pid) {
            assert(lasting(f, content, s.pages[pid].entries));
        }
    }
}

/// A lookup gives what is seen of the page, or goes on to a read that will:
/// one that holds it already, or one that lacks only what it asks the log for.
/// The version that comes with it shows the same.
pub proof fn law_get_gives_what_is_seen<PM, P, R>(
    m: PM,
    f: spec_fn(Seq<P>) -> P,
    content: Map<(Lsn, LogID), P>,
    s: CacheState<P, R>,
    pid: PageID,
    step: Step<P>,
)
    where PM: Materializer<PageFrag = P, Recovery = R>, P: Clone
    requires
        computes(m, f),
        clones_are_equal::<P>(),
        s.wf(),
        memory_agrees(content, s),
        get_step(m, s, pid, step),
    ensures
        match step {
            Step::Return(Outcome::Got(None)) => seen(f, content, s, pid) is None,
            Step::Return(Outcome::Got(Some((page, head)))) => {
                &&& seen(f, content, s, pid) == Some(page)
                &&& shows(f, content, s, pid, head, page)
                &&& head == s.pages[pid].head
            },
            Step::Pull(p) => {
                &&& p.pid == pid
                &&& p.head == s.pages[pid].head
                &&& awaits_rest(content, p)
                &&& seen(f, content, s, pid) == value_at(f, content, p.at@)
                &&& shows(f, content, s, pid, p.head, f(logged(content, p.at@)))
                &&& names(s, pid, p.head, p.at@)
            },
            Step::Access(q) => {
                &&& q.pid == pid
                &&& q.head == s.pages[pid].head
                &&& q.wf()
                &&& seen(f, content, s, pid) == Some(q.merged)
                &&& shows(f, content, s, pid, q.head, q.merged)
                &&& names(s, pid, q.head, q.at@)
            },
            _ => false,
        },
{
    if s.pages.contains_key(pid) && s.pages[pid].entries.len() > 0 {
        let entries = s.pages[pid].entries;
        let n = entries.len() as int;
        let below = below_residents(entries) as int;
        lemma_below_residents(entries);
        assert(fragments_agree(content, entries));
        if entries.last() is MergedResident {
        } else if needs_pull(entries) {
            let p = step->Pull_0;
            assert(p.to_pull@.len() == below);
            assert forall|i: int| 0 <= i < n - below implies p.resident@[i] == content[locs(
                entries,
            )[below + i]] by {
                assert(entries[below + i] is Resident);
                assert(cloned::<P>(frags(entries.skip(below))[i], p.resident@[i]));
            }
            assert(p.resident@ =~= logged(content, p.at@.skip(below)));
        } else if !has_merged(entries) {
            assert(below == 0);
            assert(frags(entries.skip(0)) =~= logged(content, locs(entries)));
        }
    }
}

/// What a version shows it shows for good.
pub proof fn law_a_version_shows_the_same_page<P, R>(
    f: spec_fn(Seq<P>) -> P,
    content: Map<(Lsn, LogID), P>,
    s0: CacheState<P, R>,
    s1: CacheState<P, R>,
    pid: PageID,
    head: HPtr,
    page: P,
)
    requires
        shows(f, content, s0, pid, head, page),
        evolves(s0, s1),
    ensures
        shows(f, content, s1, pid, head, page),
{
}

/// The write replaces a page by what is seen of it under the version that is
/// presented.
pub open spec fn rewrites<P, R>(
    f: spec_fn(Seq<P>) -> P,
    content: Map<(Lsn, LogID), P>,
    s: CacheState<P, R>,
    w: Writing<P>,
) -> bool {
    w.kind is Replace && shows(f, content, s, w.update.pid, w.key, w.frag())
}

/// The change is one that a read makes, the move of a page, about identifiers
/// that belong to no page, or about the snapshot.
pub open spec fn quiet<P, R>(
    f: spec_fn(Seq<P>) -> P,
    content: Map<(Lsn, LogID), P>,
    s: CacheState<P, R>,
    c: Change<P, R>,
) -> bool {
    can_happen(s, c) && match c {
        Change::Write { w, lsn, lid } => rewrites(f, content, s, w),
        Change::FixUp { pid, head, at, merged } => shows(f, content, s, pid, head, merged),
        Change::Evict { pid, head } => s.can_swap(pid, head) ==> lasting(
            f,
            content,
            s.pages[pid].entries,
        ),
        Change::Complete { done } => true,
        Change::Release { pid } => true,
        Change::Snapshot { last, at_work } => true,
        _ => false,
    }
}

/// Every change of the run is quiet.
pub open spec fn quiet_run<P, R>(
    f: spec_fn(Seq<P>) -> P,
    content: Map<(Lsn, LogID), P>,
    s: CacheState<P, R>,
    run: Seq<Change<P, R>>,
) -> bool
    decreases run.len(),
{
    run.len() > 0 ==> {
        &&& quiet_run(f, content, s, run.drop_last())
        &&& quiet(f, content, state_after(s, run.drop_last()), run.last())
    }
}

/// Exchanging a page's stack for one of which the same is seen changes nothing
/// that is seen.
proof fn lemma_same_sight<P, R>(
    f: spec_fn(Seq<P>) -> P,
    content: Map<(Lsn, LogID), P>,
    s: CacheState<P, R>,
    pid: PageID,
    key: HPtr,
    entries: Seq<CacheEntry<P>>,
)
    requires
        memory_agrees(content, s),
        s.can_swap(pid, key) ==> seen_in(f, content, entries) == seen(f, content, s, pid),
        s.can_swap(pid, key) ==> fragments_agree(content, entries),
    ensures
        memory_agrees(content, s.after_swap(pid, key, entries)),
        same_sight(f, content, s, s.after_swap(pid, key, entries)),
{
    let s1 = s.after_swap(pid, key, entries);
    assert forall|q: PageID| #[trigger] s1.pages.contains_key(q) implies fragments_agree(
        content,
        s1.pages[q].entries,
    ) by {
        assert(s.pages.contains_key(q));
    }
    assert forall|q: PageID| #[trigger] seen(f, content, s1, q) == seen(f, content, s, q) by {
    }
}

/// A stack that is in the log only is seen as what its fragments merge to.
proof fn lemma_flushed_is_seen_as_its_value<P>(
    f: spec_fn(Seq<P>) -> P,
    content: Map<(Lsn, LogID), P>,
    at: Seq<(Lsn, LogID)>,
)
    ensures
        seen_in(f, content, flushed_stack::<P>(at)) == value_at(f, content, at),
        fragments_agree(content, flushed_stack::<P>(at)),
{
    let entries = flushed_stack::<P>(at);
    assert(locs(entries) =~= at);
    if at.len() > 0 {
        lemma_below_residents(entries);
    }
}

/// A quiet change changes nothing that is seen, creates no page and removes
/// none.
pub proof fn law_a_quiet_change_is_not_seen<P, R>(
    f: spec_fn(Seq<P>) -> P,
    content: Map<(Lsn, LogID), P>,
    s: CacheState<P, R>,
    c: Change<P, R>,
)
    requires
        memory_agrees(content, s),
        quiet(f, content, s, c),
    ensures
        memory_agrees(content, after(s, c)),
        same_sight(f, content, s, after(s, c)),
        after(s, c).pages.dom() == s.pages.dom(),
{
    match c {
        Change::Write { w, lsn, lid } => {
            let pid = w.update.pid;
            let entries = after(s, c).pages[pid].entries;
            lemma_same_sight(f, content, s, pid, w.key, entries);
        },
        Change::FixUp { pid, head, at, merged } => {
            let entries = fixed_up_stack(merged, at);
            assert(entries.last() == entries[at.len() - 1]);
            lemma_same_sight(f, content, s, pid, head, entries);
        },
        Change::Evict { pid, head } => {
            let at = locs(s.pages[pid].entries);
            lemma_flushed_is_seen_as_its_value(f, content, at);
            lemma_same_sight(f, content, s, pid, head, flushed_stack::<P>(at));
        },
        _ => {
            assert forall|q: PageID| #[trigger]
                seen(f, content, after(s, c), q) == seen(f, content, s, q) by {
            }
        },
    }
    assert(after(s, c).pages.dom() =~= s.pages.dom());
}

/// A quiet run changes nothing that is seen, creates no page and removes none.
pub proof fn law_a_quiet_run_is_not_seen<P, R>(
    f: spec_fn(Seq<P>) -> P,
    content: Map<(Lsn, LogID), P>,
    s: CacheState<P, R>,
    run: Seq<Change<P, R>>,
)
    requires
        memory_agrees(content, s),
        quiet_run(f, content, s, run),
    ensures
        memory_agrees(content, state_after(s, run)),
        same_sight(f, content, s, state_after(s, run)),
        state_after(s, run).pages.dom() == s.pages.dom(),
    decreases run.len(),
{
    if run.len() > 0 {
        let before = state_after(s, run.drop_last());
        law_a_quiet_run_is_not_seen(f, content, s, run.drop_last());
        law_a_quiet_change_is_not_seen(f, content, before, run.last());
        assert forall|pid: PageID| #[trigger]
            seen(f, content, state_after(s, run), pid) == seen(f, content, s, pid) by {
            assert(seen(f, content, before, pid) == seen(f, content, s, pid));
        }
    }
}

/// A page that is replaced is seen as what it is replaced by, whatever that
/// is. A fragment that is linked is seen on top of what was seen before, if
/// merging in parts is merging at once. Nothing else that is seen changes, and
/// a write that fails changes nothing.
pub proof fn law_a_write_is_seen<P, R>(
    f: spec_fn(Seq<P>) -> P,
    content: Map<(Lsn, LogID), P>,
    s: CacheState<P, R>,
    w: Writing<P>,
    lsn: Lsn,
    lid: LogID,
)
    requires
        memory_agrees(content, s),
        !(w.kind is Free),
        w.kind is Link ==> lawful(f) && content[(lsn, lid)] == w.frag(),
    ensures
        ({
            let pid = w.update.pid;
            let new = w.frag();
            let s1 = after_reserved(s, w, lsn, lid);
            &&& memory_agrees(content, s1)
            &&& s1.pages.dom() == s.pages.dom()
            &&& s.swap_result(pid, w.key) is Err ==> s1 == s
            &&& s.swap_result(pid, w.key) matches Ok(head) ==> {
                &&& seen(f, content, s1, pid) == value_after(
                    f,
                    seen(f, content, s, pid),
                    w.kind,
                    new,
                )
                &&& w.kind is Replace ==> seen(f, content, s1, pid) == Some(new)
                &&& w.kind is Replace ==> shows(f, content, s1, pid, head, new)
            }
            &&& forall|q: PageID|
                q != pid ==> #[trigger] seen(f, content, s1, q) == seen(f, content, s, q)
        }),
{
    let pid = w.update.pid;
    let new = w.frag();
    let s1 = after_reserved(s, w, lsn, lid);
    assert(s1.pages.dom() =~= s.pages.dom());
    if s.can_swap(pid, w.key) {
        assert forall|q: PageID| #[trigger] s1.pages.contains_key(q) implies fragments_agree(
            content,
            s1.pages[q].entries,
        ) by {
            assert(s.pages.contains_key(q));
        }
        if w.kind is Link {
            lemma_linked_is_seen(f, content, s.pages[pid].entries, new, lsn, lid);
        }
    }
}

/// What is seen of a stack with one more fragment on it.
proof fn lemma_linked_is_seen<P>(
    f: spec_fn(Seq<P>) -> P,
    content: Map<(Lsn, LogID), P>,
    before: Seq<CacheEntry<P>>,
    new: P,
    lsn: Lsn,
    lid: LogID,
)
    requires
        lawful(f),
        content[(lsn, lid)] == new,
    ensures
        ({
            let entries = before.push(CacheEntry::Resident(new, lsn, lid));
            seen_in(f, content, entries) == match seen_in(f, content, before) {
                Some(page) => Some(f(seq![page, new])),
                None => Some(f(seq![new])),
            }
        }),
{
    let entries = before.push(CacheEntry::Resident(new, lsn, lid));
    let below = below_residents(before) as int;
    assert(entries.drop_last() =~= before);
    assert(below_residents(entries) == below);
    lemma_below_residents(before);
    let ys = seq![new];
    assert(logged(content, locs(entries)) =~= logged(content, locs(before)) + ys);
    if before.len() == 0 {
        assert(logged(content, locs(entries)) =~= ys);
    } else {
        assert(has_merged(entries) == has_merged(before));
        if has_merged(before) {
            let xs = frags(before.skip(below - 1));
            assert(frags(entries.skip(below - 1)) =~= xs + ys);
            if before.last() is MergedResident {
                assert(below == before.len());
                assert(xs + ys =~= seq![before.last().frag(), new]);
            } else {
                assert(xs.len() > 0);
                assert(seq![f(xs)] + ys =~= seq![f(xs), new]);
                assert(f(seq![f(xs)] + ys) == f(xs + ys));
            }
        } else {
            let xs = logged(content, locs(before));
            assert(seq![f(xs)] + ys =~= seq![f(xs), new]);
            assert(f(seq![f(xs)] + ys) == f(xs + ys));
        }
    }
}

/// A write that succeeds, with all the cleaning that follows it: a page that
/// is replaced is seen as what it is replaced by, and a linked fragment is
/// seen on top of what was seen before. Of no other page anything else is
/// seen, also if it was moved, and none is created or removed.
pub proof fn law_a_write_with_its_cleaning_is_seen<P, R>(
    f: spec_fn(Seq<P>) -> P,
    content: Map<(Lsn, LogID), P>,
    s: CacheState<P, R>,
    w: Writing<P>,
    lsn: Lsn,
    lid: LogID,
    cleaning: Seq<Change<P, R>>,
)
    requires
        memory_agrees(content, s),
        !(w.kind is Free),
        w.kind is Link ==> lawful(f) && content[(lsn, lid)] == w.frag(),
        s.swap_result(w.update.pid, w.key) is Ok,
        quiet_run(f, content, after_reserved(s, w, lsn, lid), cleaning),
    ensures
        ({
            let pid = w.update.pid;
            let new = w.frag();
            let s1 = state_after(after_reserved(s, w, lsn, lid), cleaning);
            &&& memory_agrees(content, s1)
            &&& w.kind is Replace ==> seen(f, content, s1, pid) == Some(new)
            &&& seen(f, content, s1, pid) == value_after(f, seen(f, content, s, pid), w.kind, new)
            &&& forall|q: PageID|
                q != pid ==> #[trigger] seen(f, content, s1, q) == seen(f, content, s, q)
            &&& s1.pages.dom() == s.pages.dom()
        }),
{
    let pid = w.update.pid;
    let written = after_reserved(s, w, lsn, lid);
    let s1 = state_after(written, cleaning);
    law_a_write_is_seen(f, content, s, w, lsn, lid);
    law_a_quiet_run_is_not_seen(f, content, written, cleaning);
    assert(seen(f, content, s1, pid) == seen(f, content, written, pid));
    assert forall|q: PageID| q != pid implies #[trigger] seen(f, content, s1, q) == seen(
        f,
        content,
        s,
        q,
    ) by {
        assert(seen(f, content, written, q) == seen(f, content, s, q));
    }
}

/// Each step of a read is a quiet change, or none. What the read gives back is
/// what the version that comes with it shows, and what it asks to be rewritten
/// is rewritten as it is, whatever happens before that.
pub proof fn law_reading_is_quiet<P: Clone, R>(
    f: spec_fn(Seq<P>) -> P,
    content: Map<(Lsn, LogID), P>,
    config: Config,
    s0: CacheState<P, R>,
    read: Merged<P>,
    to_evict: Seq<PageID>,
    s1: CacheState<P, R>,
    step: Step<P>,
    later: CacheState<P, R>,
)
    requires
        clones_are_equal::<P>(),
        read.wf(),
        names(s0, read.pid, read.head, read.at@),
        shows(f, content, s0, read.pid, read.head, read.merged),
        page_out_step(config, s0, read, to_evict, s1, step),
        evolves(s1, later),
    ensures
        s1 == s0 || exists|c: Change<P, R>| #[trigger]
            quiet(f, content, s0, c) && s1 == after(s0, c),
        step matches Step::Return(outcome) ==> {
            &&& outcome matches Outcome::Got(Some((page, head)))
            &&& page == read.merged
            &&& shows(f, content, later, read.pid, head, page)
        },
        step matches Step::Rewrite(rewrite, rest) ==> forall|w: Writing<P>|
            w.kind is Replace && w.update.pid == rewrite.pid && w.key == rewrite.key
                && w.frag() == rewrite.new ==> #[trigger] rewrites(
                f,
                content,
                later,
                w,
            ),
{
    if s0.next_eviction(to_evict) is None {
        if read.at@.len() > config.page_consolidation_threshold {
            assert(cloned::<P>(read.merged, step->Rewrite_0.new));
        } else if read.fetched || read.fix_up_length >= config.cache_fixup_threshold {
            let copy = choose|copy: P| #[trigger]
                cloned::<P>(read.merged, copy) && s1 == s0.after_swap(
                    read.pid,
                    read.head,
                    fixed_up_stack(copy, read.at@),
                );
            let c = Change::FixUp { pid: read.pid, head: read.head, at: read.at@, merged: copy };
            assert(quiet(f, content, s0, c) && s1 == after(s0, c));
            let entries = fixed_up_stack(copy, read.at@);
            assert(entries.last() == entries[read.at@.len() - 1]);
        }
    }
}

/// Everything that the run writes is in the log as it was written, pages are
/// replaced by what merging leaves alone, and reads put into memory what the
/// log gives.
pub open spec fn logged_run<P, R>(
    f: spec_fn(Seq<P>) -> P,
    content: Map<(Lsn, LogID), P>,
    s: CacheState<P, R>,
    run: Seq<Change<P, R>>,
) -> bool
    decreases run.len(),
{
    run.len() > 0 ==> {
        let before = state_after(s, run.drop_last());
        &&& logged_run(f, content, s, run.drop_last())
        &&& can_happen(before, run.last())
        &&& match run.last() {
            Change::Write { w, lsn, lid } => before.swap_result(w.update.pid, w.key) is Ok ==> {
                &&& content[(lsn, lid)] == w.frag()
                &&& w.kind is Replace ==> whole(f, w.frag())
            },
            Change::FixUp { pid, head, at, merged } => merged == f(logged(content, at)),
            _ => true,
        }
    }
}

/// A cache that agrees with the log goes on agreeing with it throughout such a
/// run.
pub proof fn law_a_logged_run_agrees_with_the_log<P, R>(
    f: spec_fn(Seq<P>) -> P,
    content: Map<(Lsn, LogID), P>,
    s: CacheState<P, R>,
    run: Seq<Change<P, R>>,
)
    requires
        lawful(f),
        agrees(f, content, s),
        logged_run(f, content, s, run),
    ensures
        possible(s, run),
        agrees(f, content, state_after(s, run)),
    decreases run.len(),
{
    if run.len() > 0 {
        let before = state_after(s, run.drop_last());
        law_a_logged_run_agrees_with_the_log(f, content, s, run.drop_last());
        match run.last() {
            Change::Write { w, lsn, lid } => {
                if before.swap_result(w.update.pid, w.key) is Ok {
                    law_a_write_changes_its_page_only(f, content, before, w, lsn, lid);
                }
            },
            Change::Allocate { lsn, lid } => {
                law_creation_and_removal_change_their_page_only(f, content, before, 0);
            },
            Change::Remove { pid, lsn, lid } => {
                law_creation_and_removal_change_their_page_only(f, content, before, pid);
            },
            Change::FixUp { pid, head, at, merged } => {
                let entries = fixed_up_stack(merged, at);
                let n = entries.len() as int;
                assert(locs(entries) =~= at);
                assert(locs(entries).take(n) =~= at);
                assert(entry_agrees(f, content, entries, n - 1));
                assert(stack_agrees(f, content, entries));
                lemma_same_positions(f, content, before, pid, head, entries);
            },
            Change::Evict { pid, head } => {
                law_eviction_changes_no_value(f, content, before, pid, head);
            },
            _ => {},
        }
    }
}

/// A cache with the same page table as one that agrees with the log is seen
/// the same, if it agrees with the log too: so is one that has recovered.
pub proof fn law_the_same_positions_are_seen_the_same<P, R>(
    f: spec_fn(Seq<P>) -> P,
    content: Map<(Lsn, LogID), P>,
    live: CacheState<P, R>,
    recovered: CacheState<P, R>,
)
    requires
        lawful(f),
        agrees(f, content, live),
        agrees(f, content, recovered),
        page_table(live) == page_table(recovered),
    ensures
        same_sight(f, content, live, recovered),
        live.pages.dom() == recovered.pages.dom(),
{
    law_what_agrees_is_seen_as_its_value(f, content, live);
    law_what_agrees_is_seen_as_its_value(f, content, recovered);
    assert(live.pages.dom() =~= page_table(live).dom());
    assert(recovered.pages.dom() =~= page_table(recovered).dom());
    assert forall|pid: PageID| #[trigger]
        seen(f, content, recovered, pid) == seen(f, content, live, pid) by {
        if live.pages.contains_key(pid) {
            assert(page_table(live)[pid] == page_table(recovered)[pid]);
        }
        assert(value(f, content, recovered, pid) == value(f, content, live, pid));
    }
}

/// After recovery the same is seen of every page as before it, and the same
/// pages are there.
pub proof fn law_a_recovered_cache_is_seen_the_same<PM, P, R>(
    m: PM,
    f: spec_fn(Seq<P>) -> P,
    content: Map<(Lsn, LogID), P>,
    io_buf_size: usize,
    start: CacheState<P, R>,
    snapshot: SnapshotState<R>,
    run: Seq<Change<P, R>>,
    records: Seq<LogRecord<P>>,
    stop_lsn: Lsn,
    r: ReplayState<R>,
    s0: CacheState<P, R>,
    s1: CacheState<P, R>,
)
    where PM: Materializer<PageFrag = P, Recovery = R>
    requires
        lawful(f),
        sound(start),
        mirrors(start, snapshot),
        agrees(f, content, start),
        logged_run(f, content, start, run),
        records.take(stable_len(records, stop_lsn) as int) == log_of(start, run),
        ascending(snapshot.max_lsn, log_of(start, run)),
        replays(m, io_buf_size, snapshot, records, stop_lsn, r),
        s0 == (CacheState {
            last_snapshot: Some(r.snapshot),
            ..CacheState::<P, R>::empty()
        }),
        loads(s0, s1),
    ensures
        same_sight(f, content, state_after(start, run), s1),
        s1.pages.dom() == state_after(start, run).pages.dom(),
        agrees(f, content, s1),
        sound(s1),
        mirrors(s1, r.snapshot),
{
    law_a_logged_run_agrees_with_the_log(f, content, start, run);
    law_recovery_gives_back_every_page(
        m,
        f,
        content,
        io_buf_size,
        start,
        snapshot,
        run,
        records,
        stop_lsn,
        r,
        s0,
        s1,
    );
    law_the_same_positions_are_seen_the_same(f, content, state_after(start, run), s1);
}

} // verus!
