//! What a read gives back of the writes before it.
//!
//! The log is taken to be written once: there is one assignment of fragments
//! to positions, `content`, with which everything that is written to the log
//! or read from it agrees. The value of a page is then what merging the
//! fragments at its positions gives, wherever they happen to be: in memory one
//! by one, in memory merged, or in the log only. What merging gives is the
//! function `f`.

use crate::laws::versions::{evolves, law_a_version_keeps_its_meaning, law_reading_evolves, names};
use crate::materializer::{merges, Materializer};
use crate::stack::{
    below_residents, fixed_up_stack, flushed_stack, frags, has_merged, locs, needs_pull, CacheEntry,
};
use crate::state::CacheState;
use crate::step::{Merged, Outcome, PageIn, Step, WriteKind, Writing};
use crate::transitions::{
    after_reserved, allocated, evicted, finish_step, get_step, next_pid, page_out_step, pulled_step,
    removed, rewritten_step,
};
use crate::types::{Config, HPtr, LogID, Lsn, PageID};
use vstd::prelude::*;

verus! {

/// The fragments that `content` has at the positions `at`.
pub open spec fn logged<P>(content: Map<(Lsn, LogID), P>, at: Seq<(Lsn, LogID)>) -> Seq<P> {
    Seq::new(at.len(), |i: int| content[at[i]])
}

/// The materializer makes `f` of the fragments that it is given.
pub open spec fn computes<PM: Materializer>(
    m: PM,
    f: spec_fn(Seq<PM::PageFrag>) -> PM::PageFrag,
) -> bool {
    forall|frags: Seq<PM::PageFrag>, page: PM::PageFrag| #[trigger]
        merges(m, frags, page) ==> page == f(frags)
}

/// A page merged in parts is the page merged at once.
pub open spec fn lawful<P>(f: spec_fn(Seq<P>) -> P) -> bool {
    forall|xs: Seq<P>, ys: Seq<P>|
        xs.len() > 0 ==> #[trigger] f(seq![f(xs)] + ys) == f(xs + ys)
}

/// Merging changes nothing about the fragment `x` alone, as it changes nothing
/// about a page that has been merged.
pub open spec fn whole<P>(f: spec_fn(Seq<P>) -> P, x: P) -> bool {
    f(seq![x]) == x
}

/// A clone is equal to what it was made from.
pub open spec fn clones_are_equal<P: Clone>() -> bool {
    forall|a: P, b: P| #[trigger] cloned::<P>(a, b) ==> a == b
}

/// What the entry `i` holds in memory is what the log says it should be.
pub open spec fn entry_agrees<P>(
    f: spec_fn(Seq<P>) -> P,
    content: Map<(Lsn, LogID), P>,
    entries: Seq<CacheEntry<P>>,
    i: int,
) -> bool {
    match entries[i] {
        CacheEntry::Resident(p, lsn, lid) => p == content[(lsn, lid)],
        CacheEntry::MergedResident(p, lsn, lid) => p == f(
            logged(content, locs(entries).take(i + 1)),
        ),
        _ => true,
    }
}

/// What a stack holds in memory is what the log says it should be.
pub open spec fn stack_agrees<P>(
    f: spec_fn(Seq<P>) -> P,
    content: Map<(Lsn, LogID), P>,
    entries: Seq<CacheEntry<P>>,
) -> bool {
    forall|i: int| 0 <= i < entries.len() ==> #[trigger] entry_agrees(f, content, entries, i)
}

/// What the cache holds in memory is what the log says it should be.
pub open spec fn agrees<P, R>(
    f: spec_fn(Seq<P>) -> P,
    content: Map<(Lsn, LogID), P>,
    s: CacheState<P, R>,
) -> bool {
    forall|pid: PageID| #[trigger]
        s.pages.contains_key(pid) ==> stack_agrees(f, content, s.pages[pid].entries)
}

/// The value of the page with fragments at `at`.
pub open spec fn value_at<P>(
    f: spec_fn(Seq<P>) -> P,
    content: Map<(Lsn, LogID), P>,
    at: Seq<(Lsn, LogID)>,
) -> Option<P> {
    if at.len() == 0 {
        None
    } else {
        Some(f(logged(content, at)))
    }
}

/// The value of a page, `None` if there is no such page or nothing has been
/// written to it.
pub open spec fn value<P, R>(
    f: spec_fn(Seq<P>) -> P,
    content: Map<(Lsn, LogID), P>,
    s: CacheState<P, R>,
    pid: PageID,
) -> Option<P> {
    if s.pages.contains_key(pid) {
        value_at(f, content, locs(s.pages[pid].entries))
    } else {
        None
    }
}

/// No page has another value in `s1` than in `s0`.
pub open spec fn same_values<P, R>(
    f: spec_fn(Seq<P>) -> P,
    content: Map<(Lsn, LogID), P>,
    s0: CacheState<P, R>,
    s1: CacheState<P, R>,
) -> bool {
    forall|pid: PageID| #[trigger]
        value(f, content, s1, pid) == value(f, content, s0, pid)
}

/// A read that waits for the log holds what it should, and asks for what it
/// lacks.
pub open spec fn awaits_rest<P>(content: Map<(Lsn, LogID), P>, p: PageIn<P>) -> bool {
    let below = p.to_pull@.len() as int;
    &&& 0 < p.at@.len()
    &&& below <= p.at@.len()
    &&& p.to_pull@ == p.at@.take(below).reverse()
    &&& p.resident@ == logged(content, p.at@.skip(below))
}

/// A page that has been read is the value of the positions that were read.
pub open spec fn read_right<P>(
    f: spec_fn(Seq<P>) -> P,
    content: Map<(Lsn, LogID), P>,
    q: Merged<P>,
) -> bool {
    &&& q.at@.len() > 0
    &&& q.merged == f(logged(content, q.at@))
}

/// Merging the entries from `from` up gives the whole page, if `from` is the
/// merged entry or the bottom.
pub proof fn lemma_merge_from<P>(
    f: spec_fn(Seq<P>) -> P,
    content: Map<(Lsn, LogID), P>,
    entries: Seq<CacheEntry<P>>,
    from: int,
)
    requires
        lawful(f),
        stack_agrees(f, content, entries),
        0 <= from < entries.len(),
        from == 0 || entries[from] is MergedResident,
        entries[from] is MergedResident || entries[from] is Resident,
        forall|i: int| from < i < entries.len() ==> (#[trigger] entries[i]) is Resident,
    ensures
        f(frags(entries.skip(from))) == f(logged(content, locs(entries))),
{
    let at = locs(entries);
    let above = logged(content, at.skip(from + 1));
    assert forall|i: int| from < i < entries.len() implies entries[i].frag() == content[at[i]] by {
        assert(entry_agrees(f, content, entries, i));
    }
    assert(entry_agrees(f, content, entries, from));
    assert(frags(entries.skip(from)) =~= seq![entries[from].frag()] + above);
    let older = logged(content, at.take(from + 1));
    assert(logged(content, at) =~= older + above);
    if entries[from] is MergedResident {
        assert(entries[from].frag() == f(older));
        assert(f(seq![f(older)] + above) == f(older + above));
    } else {
        assert(older =~= seq![entries[from].frag()]);
    }
}

/// How many entries lie below the run of single fragments, and what they are.
pub proof fn lemma_below_residents<P>(entries: Seq<CacheEntry<P>>)
    ensures
        below_residents(entries) <= entries.len(),
        forall|i: int|
            below_residents(entries) <= i < entries.len() ==> (#[trigger] entries[i]) is Resident,
        below_residents(entries) > 0 ==> !(entries[below_residents(entries) - 1] is Resident),
    decreases entries.len(),
{
    if entries.len() > 0 && entries.last() is Resident {
        lemma_below_residents(entries.drop_last());
        assert forall|i: int| below_residents(entries) <= i < entries.len() implies (
        #[trigger] entries[i]) is Resident by {
            if i < entries.len() - 1 {
                assert(entries.drop_last()[i] is Resident);
            }
        }
    }
}

/// A lookup gives the page's value, or goes on to a read that will: one that
/// holds the value already, or one that lacks only what it asks the log for.
pub proof fn law_get_finds_the_value<PM, P, R>(
    m: PM,
    f: spec_fn(Seq<P>) -> P,
    content: Map<(Lsn, LogID), P>,
    s: CacheState<P, R>,
    pid: PageID,
    step: Step<P>,
)
    where PM: Materializer<PageFrag = P, Recovery = R>, P: Clone
    requires
        computes(m, f),
        lawful(f),
        clones_are_equal::<P>(),
        s.wf(),
        agrees(f, content, s),
        get_step(m, s, pid, step),
    ensures
        match step {
            Step::Return(Outcome::Got(None)) => value(f, content, s, pid) is None,
            Step::Return(Outcome::Got(Some((frag, head)))) => {
                &&& value(f, content, s, pid) == Some(frag)
                &&& head == s.pages[pid].head
            },
            Step::Pull(p) => {
                &&& awaits_rest(content, p)
                &&& p.pid == pid
                &&& value(f, content, s, pid) == value_at(f, content, p.at@)
                &&& names(s, pid, p.head, p.at@)
            },
            Step::Access(q) => {
                &&& read_right(f, content, q)
                &&& q.pid == pid
                &&& value(f, content, s, pid) == Some(q.merged)
                &&& names(s, pid, q.head, q.at@)
            },
            _ => false,
        },
{
    if s.pages.contains_key(pid) && s.pages[pid].entries.len() > 0 {
        let entries = s.pages[pid].entries;
        let n = entries.len() as int;
        let below = below_residents(entries) as int;
        lemma_below_residents(entries);
        assert(stack_agrees(f, content, entries));
        if entries.last() is MergedResident {
            assert(entry_agrees(f, content, entries, n - 1));
            assert(locs(entries).take(n) =~= locs(entries));
        } else if needs_pull(entries) {
            let p = step->Pull_0;
            assert(p.to_pull@.len() == below);
            assert forall|i: int| 0 <= i < n - below implies p.resident@[i] == content[locs(
                entries,
            )[below + i]] by {
                assert(entry_agrees(f, content, entries, below + i));
                assert(cloned::<P>(frags(entries.skip(below))[i], p.resident@[i]));
            }
            assert(p.resident@ =~= logged(content, p.at@.skip(below)));
        } else {
            let from = if has_merged(entries) { below - 1 } else { below };
            lemma_merge_from(f, content, entries, from);
        }
    }
}

/// A read that gets out of the log what is there holds the page's value.
pub proof fn law_what_is_pulled_completes_the_read<PM, P, R>(
    m: PM,
    f: spec_fn(Seq<P>) -> P,
    content: Map<(Lsn, LogID), P>,
    p: PageIn<P>,
    fetched: Seq<P>,
    step: Step<P>,
)
    where PM: Materializer<PageFrag = P, Recovery = R>, P: Clone
    requires
        computes(m, f),
        awaits_rest(content, p),
        fetched == logged(content, p.to_pull@),
        pulled_step::<PM, P, R>(m, p, fetched, step),
    ensures
        step matches Step::Access(q) && read_right(f, content, q) && q.pid == p.pid
            && q.head == p.head && q.at@ == p.at@,
{
    let below = p.to_pull@.len() as int;
    assert(fetched.reverse() =~= logged(content, p.at@.take(below)));
    assert(fetched.reverse() + p.resident@ =~= logged(content, p.at@));
}

/// Exchanging a page's stack for one with the same positions, and that agrees
/// with the log, changes no value.
pub proof fn lemma_same_positions<P, R>(
    f: spec_fn(Seq<P>) -> P,
    content: Map<(Lsn, LogID), P>,
    s: CacheState<P, R>,
    pid: PageID,
    key: HPtr,
    entries: Seq<CacheEntry<P>>,
)
    requires
        agrees(f, content, s),
        s.can_swap(pid, key) ==> locs(entries) == locs(s.pages[pid].entries),
        s.can_swap(pid, key) ==> stack_agrees(f, content, entries),
    ensures
        agrees(f, content, s.after_swap(pid, key, entries)),
        same_values(f, content, s, s.after_swap(pid, key, entries)),
{
    let s1 = s.after_swap(pid, key, entries);
    assert forall|q: PageID| #[trigger] s1.pages.contains_key(q) implies stack_agrees(
        f,
        content,
        s1.pages[q].entries,
    ) by {
        assert(s.pages.contains_key(q));
    }
    assert forall|q: PageID| #[trigger]
        value(f, content, s1, q) == value(f, content, s, q) by {
    }
}

/// A page that leaves memory keeps its value, and so do all others.
pub proof fn law_eviction_changes_no_value<P, R>(
    f: spec_fn(Seq<P>) -> P,
    content: Map<(Lsn, LogID), P>,
    s: CacheState<P, R>,
    pid: PageID,
    head: HPtr,
)
    requires
        agrees(f, content, s),
    ensures
        agrees(f, content, evicted(s, pid, head)),
        same_values(f, content, s, evicted(s, pid, head)),
{
    let at = locs(s.pages[pid].entries);
    let entries = flushed_stack::<P>(at);
    assert(locs(entries) =~= at);
    assert(stack_agrees(f, content, entries));
    lemma_same_positions(f, content, s, pid, head, entries);
}

/// The end of a read changes no value: it gives back the page as it was read,
/// and leaves the stack alone, or leaves the page at its head, or asks for it
/// to be rewritten with the value that it has.
pub proof fn law_finishing_a_read_changes_no_value<P, R>(
    f: spec_fn(Seq<P>) -> P,
    content: Map<(Lsn, LogID), P>,
    config: Config,
    s0: CacheState<P, R>,
    read: Merged<P>,
    s1: CacheState<P, R>,
    step: Step<P>,
)
    where P: Clone
    requires
        clones_are_equal::<P>(),
        agrees(f, content, s0),
        read_right(f, content, read),
        names(s0, read.pid, read.head, read.at@),
        finish_step(config, s0, read, s1, step),
    ensures
        agrees(f, content, s1),
        same_values(f, content, s0, s1),
        match step {
            Step::Return(Outcome::Got(Some((frag, head)))) => frag == read.merged,
            Step::Rewrite(rewrite, after) => {
                &&& rewrite.pid == read.pid
                &&& rewrite.key == read.head
                &&& rewrite.new == read.merged
            },
            _ => false,
        },
{
    if read.at@.len() > config.page_consolidation_threshold {
        assert(cloned::<P>(read.merged, step->Rewrite_0.new));
    } else if read.fetched || read.fix_up_length >= config.cache_fixup_threshold {
        let copy = choose|copy: P| #[trigger] cloned::<P>(read.merged, copy) && s1 == s0.after_swap(
            read.pid,
            read.head,
            fixed_up_stack(copy, read.at@),
        );
        let entries = fixed_up_stack(copy, read.at@);
        let n = entries.len() as int;
        assert(locs(entries) =~= read.at@);
        assert(locs(entries).take(n) =~= read.at@);
        assert(entry_agrees(f, content, entries, n - 1));
        assert(stack_agrees(f, content, entries));
        lemma_same_positions(f, content, s0, read.pid, read.head, entries);
    }
}

/// No step of a read changes the value of any page.
pub proof fn law_reading_changes_no_value<P, R>(
    f: spec_fn(Seq<P>) -> P,
    content: Map<(Lsn, LogID), P>,
    config: Config,
    s0: CacheState<P, R>,
    read: Merged<P>,
    to_evict: Seq<PageID>,
    s1: CacheState<P, R>,
    step: Step<P>,
)
    where P: Clone
    requires
        clones_are_equal::<P>(),
        agrees(f, content, s0),
        read_right(f, content, read),
        names(s0, read.pid, read.head, read.at@),
        page_out_step(config, s0, read, to_evict, s1, step),
    ensures
        agrees(f, content, s1),
        same_values(f, content, s0, s1),
        step matches Step::MakeStable(e) ==> e.read == read,
        step matches Step::Return(outcome) ==> {
            &&& outcome matches Outcome::Got(Some((frag, head)))
            &&& frag == read.merged
        },
        step matches Step::Rewrite(rewrite, after) ==> {
            &&& rewrite.pid == read.pid
            &&& rewrite.key == read.head
            &&& rewrite.new == read.merged
        },
{
    if s0.next_eviction(to_evict) is None {
        law_finishing_a_read_changes_no_value(f, content, config, s0, read, s1, step);
    }
}

/// A read gives back the value that the page had when it was looked up,
/// whatever else has happened to the cache by the time it comes to its end.
pub proof fn law_a_read_returns_what_it_found<P, R>(
    f: spec_fn(Seq<P>) -> P,
    content: Map<(Lsn, LogID), P>,
    config: Config,
    found: CacheState<P, R>,
    read: Merged<P>,
    s0: CacheState<P, R>,
    to_evict: Seq<PageID>,
    s1: CacheState<P, R>,
    step: Step<P>,
)
    where P: Clone
    requires
        clones_are_equal::<P>(),
        read_right(f, content, read),
        value(f, content, found, read.pid) == value_at(f, content, read.at@),
        names(found, read.pid, read.head, read.at@),
        evolves(found, s0),
        agrees(f, content, s0),
        page_out_step(config, s0, read, to_evict, s1, step),
    ensures
        agrees(f, content, s1),
        same_values(f, content, s0, s1),
        names(s1, read.pid, read.head, read.at@),
        step matches Step::Return(outcome) ==> {
            &&& outcome matches Outcome::Got(Some((frag, head)))
            &&& value(f, content, found, read.pid) == Some(frag)
        },
        step matches Step::Rewrite(rewrite, after) ==> {
            &&& value(f, content, found, read.pid) == Some(rewrite.new)
            &&& forall|result: Result<HPtr, Option<HPtr>>| #[trigger]
                rewritten_step(after, result) matches Step::Return(outcome) && {
                    ||| result == Err::<HPtr, Option<HPtr>>(None) && outcome == Outcome::<
                        P,
                    >::Got(None)
                    ||| outcome matches Outcome::Got(Some((frag, head))) && value(
                        f,
                        content,
                        found,
                        read.pid,
                    ) == Some(frag)
                }
        },
{
    law_a_version_keeps_its_meaning(found, s0, read.pid, read.head, read.at@);
    law_reading_changes_no_value(f, content, config, s0, read, to_evict, s1, step);
    law_reading_evolves(config, s0, read, to_evict, s1, step);
    law_a_version_keeps_its_meaning(s0, s1, read.pid, read.head, read.at@);
}

/// The value that a page has once `new` has been written to it.
pub open spec fn value_after<P>(
    f: spec_fn(Seq<P>) -> P,
    before: Option<P>,
    kind: WriteKind,
    new: P,
) -> Option<P> {
    match (kind, before) {
        (WriteKind::Link, Some(page)) => Some(f(seq![page, new])),
        (WriteKind::Link, None) => Some(f(seq![new])),
        _ => Some(new),
    }
}

/// A write that succeeds gives its page the written value, or adds the written
/// fragment to the page's; one that fails changes nothing; and neither touches
/// another page.
pub proof fn law_a_write_changes_its_page_only<P, R>(
    f: spec_fn(Seq<P>) -> P,
    content: Map<(Lsn, LogID), P>,
    s: CacheState<P, R>,
    w: Writing<P>,
    lsn: Lsn,
    lid: LogID,
)
    requires
        lawful(f),
        agrees(f, content, s),
        w.wf(),
        !(w.kind is Free),
        w.kind is Replace ==> whole(f, w.frag()),
        content[(lsn, lid)] == w.frag(),
    ensures
        ({
            let pid = w.update.pid;
            let new = w.frag();
            let s1 = after_reserved(s, w, lsn, lid);
            &&& agrees(f, content, s1)
            &&& s.swap_result(pid, w.key) is Ok ==> value(f, content, s1, pid)
                == value_after(f, value(f, content, s, pid), w.kind, new)
            &&& s.swap_result(pid, w.key) is Err ==> s1 == s
            &&& forall|q: PageID|
                q != pid ==> #[trigger] value(f, content, s1, q) == value(f, content, s, q)
        }),
{
    let pid = w.update.pid;
    let new = w.frag();
    let s1 = after_reserved(s, w, lsn, lid);
    if s.can_swap(pid, w.key) {
        let before = s.pages[pid].entries;
        let entries = s1.pages[pid].entries;
        let at = locs(entries);
        if w.kind is Link {
            assert(at =~= locs(before).push((lsn, lid)));
            assert forall|i: int| 0 <= i < entries.len() implies #[trigger] entry_agrees(
                f,
                content,
                entries,
                i,
            ) by {
                if i < before.len() {
                    assert(entry_agrees(f, content, before, i));
                    assert(at.take(i + 1) =~= locs(before).take(i + 1));
                }
            }
            let older = logged(content, locs(before));
            assert(logged(content, at) =~= older + seq![new]);
            if before.len() == 0 {
                assert(older + seq![new] =~= seq![new]);
            } else {
                assert(seq![f(older)] + seq![new] =~= seq![f(older), new]);
                assert(f(seq![f(older)] + seq![new]) == f(
                    older + seq![new],
                ));
            }
        } else {
            assert(at =~= seq![(lsn, lid)]);
            assert(logged(content, at) =~= seq![new]);
            assert(at.take(1) =~= at);
            assert(stack_agrees(f, content, entries));
        }
        assert forall|q: PageID| #[trigger] s1.pages.contains_key(q) implies stack_agrees(
            f,
            content,
            s1.pages[q].entries,
        ) by {
            if q != pid {
                assert(s.pages.contains_key(q));
            }
        }
    }
}

/// A new page has no value, a removed page has none any more, and neither
/// touches another page.
pub proof fn law_creation_and_removal_change_their_page_only<P, R>(
    f: spec_fn(Seq<P>) -> P,
    content: Map<(Lsn, LogID), P>,
    s: CacheState<P, R>,
    pid: PageID,
)
    requires
        agrees(f, content, s),
    ensures
        agrees(f, content, allocated(s)),
        value(f, content, allocated(s), next_pid(s)) is None,
        forall|q: PageID|
            q != next_pid(s) ==> #[trigger] value(f, content, allocated(s), q) == value(
                f,
                content,
                s,
                q,
            ),
        agrees(f, content, removed(s, pid)),
        value(f, content, removed(s, pid), pid) is None,
        forall|q: PageID|
            q != pid ==> #[trigger] value(f, content, removed(s, pid), q) == value(
                f,
                content,
                s,
                q,
            ),
{
}

/// Rewriting a page with the value that was read changes no value, whatever
/// has happened to the page since it was read.
pub proof fn law_rewriting_changes_no_value<P, R>(
    f: spec_fn(Seq<P>) -> P,
    content: Map<(Lsn, LogID), P>,
    s: CacheState<P, R>,
    w: Writing<P>,
    at: Seq<(Lsn, LogID)>,
    lsn: Lsn,
    lid: LogID,
)
    requires
        lawful(f),
        agrees(f, content, s),
        w.wf(),
        w.kind is Replace,
        names(s, w.update.pid, w.key, at),
        value_at(f, content, at) == Some(w.frag()),
        content[(lsn, lid)] == w.frag(),
    ensures
        agrees(f, content, after_reserved(s, w, lsn, lid)),
        same_values(f, content, s, after_reserved(s, w, lsn, lid)),
{
    let xs = logged(content, at);
    assert(seq![f(xs)] + Seq::empty() =~= seq![f(xs)]);
    assert(xs + Seq::empty() =~= xs);
    assert(f(seq![f(xs)] + Seq::empty()) == f(xs + Seq::empty()));
    law_a_write_changes_its_page_only(f, content, s, w, lsn, lid);
    let s1 = after_reserved(s, w, lsn, lid);
    assert forall|q: PageID| #[trigger]
        value(f, content, s1, q) == value(f, content, s, q) by {
        if q == w.update.pid && s.swap_result(q, w.key) is Ok {
            assert(locs(s.pages[q].entries) == at);
        }
    }
}

/// A page to which fragments have been linked one after the other is the
/// merge of all of them, in that order, on top of what it was the merge of.
pub proof fn law_linked_fragments_are_merged_in_order<P>(
    f: spec_fn(Seq<P>) -> P,
    older: Seq<P>,
    linked: Seq<P>,
)
    requires
        lawful(f),
        older.len() > 0,
    ensures
        value_after_links(f, Some(f(older)), linked) == Some(f(older + linked)),
    decreases linked.len(),
{
    if linked.len() == 0 {
        assert(older + linked =~= older);
    } else {
        law_linked_fragments_are_merged_in_order(f, older, linked.drop_last());
        let xs = older + linked.drop_last();
        let ys = seq![linked.last()];
        assert(seq![f(xs), linked.last()] =~= seq![f(xs)] + ys);
        assert(xs + ys =~= older + linked);
        assert(f(seq![f(xs)] + ys) == f(xs + ys));
    }
}

/// The value that a page has once each of `linked` has been linked to it.
pub open spec fn value_after_links<P>(
    f: spec_fn(Seq<P>) -> P,
    before: Option<P>,
    linked: Seq<P>,
) -> Option<P>
    decreases linked.len(),
{
    if linked.len() == 0 {
        before
    } else {
        value_after(
            f,
            value_after_links(f, before, linked.drop_last()),
            WriteKind::Link,
            linked.last(),
        )
    }
}

} // verus!
