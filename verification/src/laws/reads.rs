//! What each step of a read is for.

use crate::laws::stacks::{
    has_lsn, holds, in_log_only, law_fragments_are_what_the_entries_hold,
    law_a_stack_is_read_from_memory_if_it_can_be, law_positions_are_those_of_the_entries,
    lists_positions, stands_at,
};
use crate::laws::values::lemma_below_residents;
use crate::laws::versions::names;
use crate::materializer::{merges, Materializer};
use crate::stack::{
    below_residents, fixed_up_stack, frags, has_merged, locs, needs_pull, CacheEntry, PageState,
};
use crate::state::CacheState;
use crate::step::{
    AfterRewrite, Committed, Merged, Outcome, PageIn, Step, Writing,
};
use crate::transitions::{
    evicted, get_step, page_out_step, pulled_step, reserved_step, rewritten_step,
};
use crate::types::{Config, HPtr, LogID, Lsn, PageID};
use vstd::prelude::*;

verus! {

/// The materializer has made `page` of these fragments: all of them, one by
/// one, in this order.
pub open spec fn merged_from<PM: Materializer>(
    m: PM,
    fragments: Seq<PM::PageFrag>,
    page: PM::PageFrag,
) -> bool {
    exists|slice: &[&PM::PageFrag]|
        {
            &&& #[trigger] call_ensures(PM::merge, (&m, slice), page)
            &&& slice@.len() == fragments.len()
            &&& forall|i: int|
                0 <= i < fragments.len() ==> *(#[trigger] slice@[i]) == fragments[i]
        }
}

/// To merge fragments is to hand every one of them to the materializer, in
/// order, however many there are.
pub proof fn law_merging_takes_every_fragment<PM: Materializer>(
    m: PM,
    fragments: Seq<PM::PageFrag>,
    page: PM::PageFrag,
)
    ensures
        merges(m, fragments, page) <==> merged_from(m, fragments, page),
{
    if merges(m, fragments, page) {
        let slice = choose|slice: &[&PM::PageFrag]|
            slice@.unref() == fragments && #[trigger] call_ensures(PM::merge, (&m, slice), page);
        assert forall|i: int| 0 <= i < fragments.len() implies *(#[trigger] slice@[i])
            == fragments[i] by {
            assert(slice@.unref()[i] == *slice@[i]);
        }
    }
    if merged_from(m, fragments, page) {
        let slice = choose|slice: &[&PM::PageFrag]|
            {
                &&& #[trigger] call_ensures(PM::merge, (&m, slice), page)
                &&& slice@.len() == fragments.len()
                &&& forall|i: int|
                    0 <= i < fragments.len() ==> *(#[trigger] slice@[i]) == fragments[i]
            };
        assert(slice@.unref() =~= fragments);
    }
}

/// `q` is the page, read from memory: everything from the merged entry up, or
/// everything there is, has been merged.
pub open spec fn read_from_memory<PM: Materializer>(
    m: PM,
    page: PageState<PM::PageFrag>,
    from: int,
    fragments: Seq<PM::PageFrag>,
    q: Merged<PM::PageFrag>,
) -> bool {
    let n = page.entries.len() as int;
    &&& 0 <= from < n
    &&& from == 0 || page.entries[from] is MergedResident
    &&& fragments.len() == n - from
    &&& forall|i: int|
        0 <= i < n - from ==> holds(#[trigger] page.entries[from + i], fragments[i])
    &&& merged_from(m, fragments, q.merged)
    &&& q.head == page.head
    &&& lists_positions(q.at@, page.entries)
    &&& !q.fetched
    &&& q.size == vstd::layout::size_of::<PM::PageFrag>()
    &&& page.entries[from] is MergedResident ==> q.fix_up_length == n - 1 - from
    &&& !(page.entries[from] is MergedResident) ==> q.fix_up_length == 0
}

/// `p` waits for the rest of the page: it has clones of the fragments in
/// memory, and asks for all others, newest first.
pub open spec fn waits_for_the_rest<P: Clone>(page: PageState<P>, p: PageIn<P>) -> bool {
    let n = page.entries.len() as int;
    let k = p.to_pull@.len() as int;
    &&& p.head == page.head
    &&& lists_positions(p.at@, page.entries)
    &&& k + p.resident@.len() == n
    &&& forall|i: int|
        0 <= i < k ==> in_log_only(#[trigger] page.entries[i]) && p.to_pull@[k - 1 - i] == p.at@[i]
    &&& forall|i: int|
        0 <= i < n - k ==> (#[trigger] page.entries[k + i]) is Resident && exists|x: P|
            holds(page.entries[k + i], x) && #[trigger] cloned::<P>(x, p.resident@[i])
}

/// What a lookup gives for what is known of the page.
pub open spec fn looks_at_every_fragment<PM, P, R>(
    m: PM,
    s: CacheState<P, R>,
    pid: PageID,
    step: Step<P>,
) -> bool
    where PM: Materializer<PageFrag = P, Recovery = R>, P: Clone
 {
    let page = s.pages[pid];
    let n = page.entries.len() as int;
    let there = s.pages.contains_key(pid) && n > 0;
    let at_head = page.entries[n - 1] is MergedResident;
    let in_memory = (exists|i: int|
        0 <= i < n && (#[trigger] page.entries[i]) is MergedResident) || (forall|i: int|
        0 <= i < n ==> !in_log_only(#[trigger] page.entries[i]));
    &&& !there <==> step == Step::<P>::Return(Outcome::Got(None))
    &&& there && at_head ==> {
        &&& step matches Step::Return(Outcome::Got(Some((copy, head))))
        &&& head == page.head
        &&& exists|x: P|
            holds(page.entries[n - 1], x) && #[trigger] cloned::<P>(x, copy)
    }
    &&& there && !at_head && in_memory ==> {
        &&& step matches Step::Access(q)
        &&& q.pid == pid
        &&& exists|from: int, fragments: Seq<P>| #[trigger]
            read_from_memory(m, page, from, fragments, q)
    }
    &&& there && !at_head && !in_memory ==> {
        &&& step matches Step::Pull(p)
        &&& p.pid == pid
        &&& waits_for_the_rest(page, p)
    }
}

/// A lookup finds nothing if and only if there is nothing. It gives the merged
/// page if that is at the head; else it merges everything that is in memory
/// from the merged entry up, or everything if there is none, provided that
/// nothing else is needed; else it asks for exactly what is not in memory.
pub proof fn law_a_lookup_looks_at_every_fragment<PM, P, R>(
    m: PM,
    s: CacheState<P, R>,
    pid: PageID,
    step: Step<P>,
)
    where PM: Materializer<PageFrag = P, Recovery = R>, P: Clone
    requires
        s.wf(),
        get_step(m, s, pid, step),
    ensures
        looks_at_every_fragment(m, s, pid, step),
{
    let page = s.pages[pid];
    let entries = page.entries;
    let n = entries.len() as int;
    if s.pages.contains_key(pid) && n > 0 {
        lemma_below_residents(entries);
        law_a_stack_is_read_from_memory_if_it_can_be(entries);
        law_positions_are_those_of_the_entries(entries, locs(entries));
        let below = below_residents(entries) as int;
        if entries[n - 1] is MergedResident {
            assert(holds(entries[n - 1], entries.last().frag()));
        } else if needs_pull(entries) {
            let p = step->Pull_0;
            assert forall|i: int| 0 <= i < below implies in_log_only(#[trigger] entries[i])
                && p.to_pull@[below - 1 - i] == p.at@[i] by {
                if i < below - 1 {
                    assert(!(entries[below - 1] is Resident));
                    assert(entries[i].is_flushed());
                }
            }
            assert forall|i: int| 0 <= i < n - below implies (#[trigger] entries[below
                + i]) is Resident && exists|x: P|
                holds(entries[below + i], x) && #[trigger] cloned::<P>(x, p.resident@[i]) by {
                let x = frags(entries.skip(below))[i];
                assert(entries.skip(below)[i] == entries[below + i]);
                assert(holds(entries[below + i], x) && cloned::<P>(x, p.resident@[i]));
            }
        } else {
            let q = step->Access_0;
            let from = if has_merged(entries) { below - 1 } else { below };
            let fragments = frags(entries.skip(from));
            law_merging_takes_every_fragment(m, fragments, q.merged);
            law_fragments_are_what_the_entries_hold(entries.skip(from));
            assert forall|i: int| 0 <= i < n - from implies holds(
                #[trigger] entries[from + i],
                fragments[i],
            ) by {
                assert(entries.skip(from)[i] == entries[from + i]);
            }
            assert(read_from_memory(m, page, from, fragments, q));
        }
    }
}

/// The read goes on with everything merged.
pub open spec fn merges_what_was_pulled<PM: Materializer>(
    m: PM,
    p: PageIn<PM::PageFrag>,
    fetched: Seq<PM::PageFrag>,
    step: Step<PM::PageFrag>,
) -> bool {
    step matches Step::Access(q) && {
        &&& q.pid == p.pid
        &&& q.head == p.head
        &&& q.at@ == p.at@
        &&& q.fetched <==> fetched.len() > 0
        &&& q.fix_up_length == 0
        &&& q.size == vstd::layout::size_of::<PM::PageFrag>()
        &&& exists|fragments: Seq<PM::PageFrag>|
            {
                &&& #[trigger] merged_from(m, fragments, q.merged)
                &&& fragments.len() == fetched.len() + p.resident@.len()
                &&& forall|i: int|
                    0 <= i < fetched.len() ==> fragments[fetched.len() - 1 - i]
                        == #[trigger] fetched[i]
                &&& forall|i: int|
                    0 <= i < p.resident@.len() ==> fragments[fetched.len() + i]
                        == #[trigger] p.resident@[i]
            }
    }
}

/// When the missing fragments have come, everything is merged: first they, in
/// the opposite order, since they came newest first, and then what was in
/// memory.
pub proof fn law_what_is_pulled_is_merged_with_the_rest<PM, P, R>(
    m: PM,
    p: PageIn<P>,
    fetched: Seq<P>,
    step: Step<P>,
)
    where PM: Materializer<PageFrag = P, Recovery = R>, P: Clone
    requires
        pulled_step::<PM, P, R>(m, p, fetched, step),
    ensures
        merges_what_was_pulled(m, p, fetched, step),
{
    let q = step->Access_0;
    let fragments = fetched.reverse() + p.resident@;
    law_merging_takes_every_fragment(m, fragments, q.merged);
    assert(merged_from(m, fragments, q.merged));
}

/// A read that has to go to the log merges the fragment at each position of
/// the page, however many there are, oldest first.
pub proof fn law_a_read_from_the_log_merges_every_fragment<PM, P, R>(
    m: PM,
    content: Map<(Lsn, LogID), P>,
    s: CacheState<P, R>,
    pid: PageID,
    p: PageIn<P>,
    fetched: Seq<P>,
    step: Step<P>,
)
    where PM: Materializer<PageFrag = P, Recovery = R>, P: Clone
    requires
        s.wf(),
        get_step(m, s, pid, Step::Pull(p)),
        // Clones are equal, fragments in memory are those in the log, and the
        // log gives back what is in it.
        forall|a: P, b: P| #[trigger] cloned::<P>(a, b) ==> a == b,
        forall|i: int|
            0 <= i < p.at@.len() ==> (
            (#[trigger] s.pages[pid].entries[i]) matches CacheEntry::Resident(x, l, d) ==> x
                == content[p.at@[i]]),
        fetched.len() == p.to_pull@.len(),
        forall|i: int| 0 <= i < fetched.len() ==> #[trigger] fetched[i] == content[p.to_pull@[i]],
        pulled_step::<PM, P, R>(m, p, fetched, step),
    ensures
        lists_positions(p.at@, s.pages[pid].entries),
        step matches Step::Access(q) && exists|fragments: Seq<P>|
            {
                &&& #[trigger] merged_from(m, fragments, q.merged)
                &&& fragments.len() == s.pages[pid].entries.len()
                &&& forall|i: int|
                    0 <= i < fragments.len() ==> #[trigger] fragments[i] == content[p.at@[i]]
            },
{
    law_a_lookup_looks_at_every_fragment(m, s, pid, Step::Pull(p));
    law_what_is_pulled_is_merged_with_the_rest::<PM, P, R>(m, p, fetched, step);
    let q = step->Access_0;
    let page = s.pages[pid];
    let k = fetched.len() as int;
    let fragments = choose|fragments: Seq<P>|
        {
            &&& #[trigger] merged_from(m, fragments, q.merged)
            &&& fragments.len() == fetched.len() + p.resident@.len()
            &&& forall|i: int|
                0 <= i < fetched.len() ==> fragments[fetched.len() - 1 - i]
                    == #[trigger] fetched[i]
            &&& forall|i: int|
                0 <= i < p.resident@.len() ==> fragments[fetched.len() + i]
                    == #[trigger] p.resident@[i]
        };
    assert forall|i: int| 0 <= i < fragments.len() implies #[trigger] fragments[i]
        == content[p.at@[i]] by {
        if i < k {
            assert(in_log_only(page.entries[i]));
            assert(fragments[k - 1 - (k - 1 - i)] == fetched[k - 1 - i]);
        } else {
            let j = i - k;
            assert(page.entries[k + j] is Resident);
            let x = choose|x: P|
                holds(page.entries[k + j], x) && #[trigger] cloned::<P>(x, p.resident@[j]);
            assert(x == content[p.at@[i]]);
            assert(fragments[k + j] == p.resident@[j]);
        }
    }
}

/// Where the page to leave memory next is found: past identifiers without a
/// page.
pub open spec fn is_next_to_leave<P, R>(
    s: CacheState<P, R>,
    to_evict: Seq<PageID>,
    k: int,
) -> bool {
    &&& 0 <= k < to_evict.len()
    &&& s.pages.contains_key(to_evict[k])
    &&& s.pages[to_evict[k]].entries.len() > 0
    &&& forall|j: int| 0 <= j < k ==> !s.pages.contains_key(#[trigger] to_evict[j])
}

/// The choice of the page to leave memory next is as told.
proof fn lemma_next_to_leave<P, R>(s: CacheState<P, R>, to_evict: Seq<PageID>)
    ensures
        match s.next_eviction(to_evict) {
            Some((pid, rest)) => exists|k: int| #[trigger]
                is_next_to_leave(s, to_evict, k) && pid == to_evict[k] && rest == to_evict.skip(
                    k + 1,
                ),
            None => forall|k: int| !#[trigger] is_next_to_leave(s, to_evict, k),
        },
    decreases to_evict.len(),
{
    if to_evict.len() > 0 {
        if !s.pages.contains_key(to_evict[0]) {
            let tail = to_evict.skip(1);
            lemma_next_to_leave(s, tail);
            match s.next_eviction(tail) {
                Some((pid, rest)) => {
                    let k = choose|k: int| #[trigger]
                        is_next_to_leave(s, tail, k) && pid == tail[k] && rest == tail.skip(k + 1);
                    assert(tail.skip(k + 1) =~= to_evict.skip(k + 2));
                    assert forall|j: int| 0 <= j < k + 1 implies !s.pages.contains_key(
                        #[trigger] to_evict[j],
                    ) by {
                        if j > 0 {
                            assert(tail[j - 1] == to_evict[j]);
                        }
                    }
                    assert(is_next_to_leave(s, to_evict, k + 1));
                },
                None => {
                    assert forall|k: int| !#[trigger] is_next_to_leave(s, to_evict, k) by {
                        if is_next_to_leave(s, to_evict, k) {
                            assert(k > 0);
                            assert forall|j: int| 0 <= j < k - 1 implies !s.pages.contains_key(
                                #[trigger] tail[j],
                            ) by {
                                assert(tail[j] == to_evict[j + 1]);
                            }
                            assert(is_next_to_leave(s, tail, k - 1));
                        }
                    }
                },
            }
        } else if s.pages[to_evict[0]].entries.len() == 0 {
            assert forall|k: int| !#[trigger] is_next_to_leave(s, to_evict, k) by {
                if k > 0 && 0 <= k < to_evict.len() {
                    assert(s.pages.contains_key(to_evict[0]));
                }
            }
        } else {
            assert(is_next_to_leave(s, to_evict, 0));
        }
    }
}

/// A page leaves memory next if and only if there is one to leave, the first of
/// those asked for.
pub open spec fn chooses_who_leaves<P, R>(
    s0: CacheState<P, R>,
    read: Merged<P>,
    to_evict: Seq<PageID>,
    s1: CacheState<P, R>,
    step: Step<P>,
) -> bool {
    &&& step is MakeStable <==> exists|k: int| #[trigger] is_next_to_leave(s0, to_evict, k)
    &&& step matches Step::MakeStable(e) ==> {
        &&& s1 == s0
        &&& e.read == read
        &&& e.head == s0.pages[e.pid].head
        &&& has_lsn(s0.pages[e.pid].entries[s0.pages[e.pid].entries.len() - 1], e.lsn)
        &&& exists|k: int| #[trigger]
            is_next_to_leave(s0, to_evict, k) && e.pid == to_evict[k] && e.to_evict@.skip(
                e.next as int,
            ) == to_evict.skip(k + 1)
    }
}

/// A page leaves memory before the read ends if and only if there is one to
/// leave; the log must then be stable up to the newest fragment of that page,
/// and the others are looked at after it.
pub proof fn law_pages_leave_memory_one_after_the_other<P: Clone, R>(
    config: Config,
    s0: CacheState<P, R>,
    read: Merged<P>,
    to_evict: Seq<PageID>,
    s1: CacheState<P, R>,
    step: Step<P>,
)
    requires
        page_out_step(config, s0, read, to_evict, s1, step),
    ensures
        chooses_who_leaves(s0, read, to_evict, s1, step),
{
    lemma_next_to_leave(s0, to_evict);
}

/// What it is for a page to leave memory under the version `head`.
pub open spec fn leaves_memory<P, R>(
    s: CacheState<P, R>,
    pid: PageID,
    head: HPtr,
    s1: CacheState<P, R>,
) -> bool {
    let due = s.pages.contains_key(pid) && s.pages[pid].head.id == head.id && s.last_version
        < u64::MAX;
    let n = s.pages[pid].entries.len() as int;
    &&& !due ==> s1 == s
    &&& due ==> {
        &&& s1 == (CacheState {
            pages: s1.pages,
            last_version: (s.last_version + 1) as u64,
            ..s
        })
        &&& s1.pages.remove(pid) == s.pages.remove(pid)
        &&& s1.pages.contains_key(pid)
        &&& s1.pages[pid].head.id == s.last_version + 1
        &&& s1.pages[pid].entries.len() == n
        &&& forall|i: int, at: (Lsn, LogID)|
            0 <= i < n ==> (#[trigger] stands_at(s1.pages[pid].entries[i], at)
                <==> stands_at(s.pages[pid].entries[i], at))
        &&& forall|i: int|
            0 <= i < n ==> ((#[trigger] s1.pages[pid].entries[i]) is Flush <==> i == 0)
        &&& forall|i: int|
            0 <= i < n ==> in_log_only(#[trigger] s1.pages[pid].entries[i])
    }
}

/// A page that leaves memory under the version that it has keeps its
/// positions and holds nothing in memory afterwards, under a new version.
/// Under another version it is left alone, and so is everything else.
pub proof fn law_eviction_empties_one_page_of_memory<P, R>(
    s: CacheState<P, R>,
    pid: PageID,
    head: HPtr,
)
    ensures
        leaves_memory(s, pid, head, evicted(s, pid, head)),
{
    let s1 = evicted(s, pid, head);
    if s.can_swap(pid, head) {
        assert(s1.pages.remove(pid) =~= s.pages.remove(pid));
    } else {
        assert(s.pages.contains_key(pid) ==> (s.pages[pid].head.id == head.id ==> s.pages[pid].head
            == head));
    }
}

/// How a read ends when no page is to leave memory any more.
pub open spec fn comes_to_its_end<P: Clone, R>(
    config: Config,
    s0: CacheState<P, R>,
    read: Merged<P>,
    s1: CacheState<P, R>,
    step: Step<P>,
) -> bool {
    let pid = read.pid;
    let n = read.at@.len() as int;
    let current = s0.pages.contains_key(pid) && s0.pages[pid].head.id == read.head.id;
    let costly = read.fetched || read.fix_up_length >= config.cache_fixup_threshold;
    &&& n > config.page_consolidation_threshold ==> {
        &&& s1 == s0
        &&& step matches Step::Rewrite(rewrite, after)
        &&& rewrite.pid == pid
        &&& rewrite.key == read.head
        &&& cloned::<P>(read.merged, rewrite.new)
        &&& after matches AfterRewrite::Return { merged, head }
        &&& merged == read.merged && head == read.head
    }
    &&& n <= config.page_consolidation_threshold ==> {
        &&& step matches Step::Return(Outcome::Got(Some((page, head))))
        &&& page == read.merged
        &&& !(costly && current && s0.last_version < u64::MAX) ==> s1 == s0 && head
            == read.head
        &&& costly && current && s0.last_version < u64::MAX ==> {
            &&& head.id == s0.last_version + 1
            &&& s1 == (CacheState { pages: s1.pages, last_version: head.id, ..s0 })
            &&& s1.pages.remove(pid) == s0.pages.remove(pid)
            &&& s1.pages.contains_key(pid)
            &&& s1.pages[pid].head == head
            &&& lists_positions(read.at@, s1.pages[pid].entries)
            &&& lists_positions(read.at@, s0.pages[pid].entries)
            &&& s1.pages[pid].entries[n - 1] is MergedResident
            &&& exists|copy: P|
                holds(s1.pages[pid].entries[n - 1], copy) && #[trigger] cloned::<P>(
                    read.merged,
                    copy,
                )
            &&& forall|i: int|
                0 <= i < n - 1 ==> in_log_only(#[trigger] s1.pages[pid].entries[i])
            &&& n > 1 ==> s1.pages[pid].entries[0] is Flush
        }
    }
}

/// When no page is to leave memory any more, a page of more fragments than the
/// settings allow is to be rewritten as it was read. Otherwise the read gives
/// the page, and leaves it merged at the head of its stack if fragments had to
/// be fetched or as many as the settings say were passed over. Nothing else
/// changes, and the positions never do.
pub proof fn law_a_read_comes_to_its_end<P: Clone, R>(
    config: Config,
    s0: CacheState<P, R>,
    read: Merged<P>,
    to_evict: Seq<PageID>,
    s1: CacheState<P, R>,
    step: Step<P>,
)
    requires
        read.wf(),
        names(s0, read.pid, read.head, read.at@),
        page_out_step(config, s0, read, to_evict, s1, step),
        !(step is MakeStable),
    ensures
        comes_to_its_end(config, s0, read, s1, step),
{
    let pid = read.pid;
    let n = read.at@.len() as int;
    if n <= config.page_consolidation_threshold && (read.fetched || read.fix_up_length
        >= config.cache_fixup_threshold) {
        let copy = choose|copy: P| #[trigger] cloned::<P>(read.merged, copy) && s1 == s0.after_swap(
            read.pid,
            read.head,
            fixed_up_stack(copy, read.at@),
        );
        if s0.can_swap(pid, read.head) {
            assert(s1.pages.remove(pid) =~= s0.pages.remove(pid));
            assert(holds(s1.pages[pid].entries[n - 1], copy) && cloned::<P>(read.merged, copy));
            law_positions_are_those_of_the_entries(s0.pages[pid].entries, read.at@);
        }
        if s0.pages.contains_key(pid) && s0.pages[pid].head.id == read.head.id {
            assert(s0.pages[pid].head == read.head);
        }
    }
}

/// When a read ends and the page is still under the version that was read, the
/// version given back is the one that the page has after the read, so that a
/// write that presents it succeeds as long as nothing else happens to the
/// page and there is a version left.
pub proof fn law_a_read_gives_the_current_version<P: Clone, R>(
    config: Config,
    s0: CacheState<P, R>,
    read: Merged<P>,
    to_evict: Seq<PageID>,
    s1: CacheState<P, R>,
    page: P,
    head: HPtr,
    later: CacheState<P, R>,
    w: Writing<P>,
    lsn: Lsn,
    lid: LogID,
    step: Step<P>,
)
    requires
        page_out_step(
            config,
            s0,
            read,
            to_evict,
            s1,
            Step::Return(Outcome::Got(Some((page, head)))),
        ),
        s0.pages.contains_key(read.pid),
        s0.pages[read.pid].head.id == read.head.id,
        later.pages.contains_key(read.pid),
        later.pages[read.pid] == s1.pages[read.pid],
        later.last_version < u64::MAX,
        w.update.pid == read.pid,
        w.key == head,
        !(w.kind is Free),
        reserved_step(later, w, lsn, lid, step),
    ensures
        s1.pages.contains_key(read.pid),
        s1.pages[read.pid].head.id == head.id,
        step is Mark,
{
    assert(s0.pages[read.pid].head == read.head);
}

/// A read whose page was rewritten gives the page under the version that it
/// got. If the rewrite came too late, it gives the page under the version that
/// was read; if the page is gone, nothing. A change that asked for another
/// page to be rewritten goes on to its completion whatever came of it.
pub proof fn law_what_follows_a_rewrite<P>(
    merged: P,
    head: HPtr,
    committed: Committed,
    result: Result<HPtr, Option<HPtr>>,
)
    ensures
        rewritten_step(AfterRewrite::<P>::Complete(committed), result) == Step::<P>::Complete(
            committed,
        ),
        match result {
            Ok(new_head) => rewritten_step(AfterRewrite::Return { merged, head }, result)
                == Step::Return(Outcome::Got(Some((merged, new_head)))),
            Err(Some(actual)) => rewritten_step(AfterRewrite::Return { merged, head }, result)
                == Step::Return(Outcome::Got(Some((merged, head)))),
            Err(None) => rewritten_step(AfterRewrite::Return { merged, head }, result) == Step::<
                P,
            >::Return(Outcome::Got(None)),
        },
{
}

} // verus!
