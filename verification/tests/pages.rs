use pagecache::materializer::Materializer;
use pagecache::page_cache::PageCache;
use pagecache::snapshot::{sort_descending, LogRecord, Replay, SegmentOp, Snapshot};
use pagecache::stack::{
    count_below_residents, fix_up, flush_all, lids_from_stack, locations, CacheEntry,
};
use pagecache::step::{
    AfterRewrite, Cleaning, Cleanup, Committed, Done, Mark, Outcome, Rewrite, Step, WriteKind,
};
use pagecache::types::{Config, HPtr, LogID, LoggedUpdate, Lsn, PageID, Update};
use std::collections::BTreeMap;

struct Concat;

impl Materializer for Concat {
    type PageFrag = String;
    type Recovery = u64;

    fn merge(&self, frags: &[&String]) -> String {
        let mut consolidated = String::new();
        for frag in frags {
            consolidated.push_str(frag);
        }
        consolidated
    }

    fn recover(&self, frag: &String) -> Option<u64> {
        frag.parse().ok()
    }
}

type Cache = PageCache<Concat, String, u64>;

fn config() -> Config {
    Config {
        io_buf_size: 100,
        page_consolidation_threshold: 10,
        cache_fixup_threshold: 1,
        snapshot_after_ops: 1000,
        use_compression: false,
    }
}

/// A log in memory, and what there is to be known of the operations.
struct Store {
    pc: Cache,
    next_lsn: Lsn,
    fragments: BTreeMap<LogID, String>,
    records: Vec<LogRecord<String>>,
    evict: Vec<PageID>,
    clean: Option<PageID>,
    stable: Vec<Lsn>,
    pulled: usize,
    snapshots: usize,
    aborted: usize,
    old_lids: Vec<LogID>,
    /// Whether somebody may still hold a version of a removed page.
    held: bool,
}

fn copy(u: &LoggedUpdate<String>) -> LoggedUpdate<String> {
    let update = match &u.update {
        Update::Append(s) => Update::Append(s.clone()),
        Update::Compact(s) => Update::Compact(s.clone()),
        Update::Free => Update::Free,
        Update::Alloc => Update::Alloc,
    };
    LoggedUpdate { pid: u.pid, update }
}

impl Store {
    fn new(config: Config) -> Store {
        Store {
            pc: PageCache::new(Concat, config),
            next_lsn: 10,
            fragments: BTreeMap::new(),
            records: vec![],
            evict: vec![],
            clean: None,
            stable: vec![],
            pulled: 0,
            snapshots: 0,
            aborted: 0,
            old_lids: vec![],
            held: false,
        }
    }

    fn write(&mut self, update: LoggedUpdate<String>) -> (Lsn, LogID) {
        let lsn = self.next_lsn;
        self.next_lsn += 10;
        if let Some(frag) = copy(&update).page_frag() {
            self.fragments.insert(lsn, frag);
        }
        self.records.push(LogRecord { lsn, lid: lsn, update: Some(update) });
        (lsn, lsn)
    }

    fn run(&mut self, first: Step<String>) -> Outcome<String> {
        let mut step = first;
        loop {
            step = match step {
                Step::Return(outcome) => return outcome,
                Step::Defer(pid, outcome) => {
                    if !self.held {
                        self.pc.release(pid);
                    }
                    return outcome;
                }
                Step::Reserve(w) => {
                    let (lsn, lid) = self.write(copy(&w.update));
                    self.pc.reserved(w, lsn, lid)
                }
                Step::Abort(lsn, _, outcome) => {
                    self.aborted += 1;
                    self.records.retain(|r| r.lsn != lsn);
                    return outcome;
                }
                Step::Mark(m) => {
                    if let Mark::Replace { old_lids, .. } = &m.mark {
                        self.old_lids = old_lids.clone();
                    }
                    let to_clean = match m.cleanup {
                        Cleanup::Skip => None,
                        _ => self.clean.take(),
                    };
                    self.pc.marked(m, to_clean)
                }
                Step::Get(pid, cleaning) => {
                    let page = self.get(pid);
                    self.pc.got(cleaning, page)
                }
                Step::Rewrite(rewrite, after) => {
                    let first = self.pc.rewrite(rewrite);
                    match self.run(first) {
                        Outcome::Written(result) => self.pc.rewritten(after, result),
                        _ => unreachable!(),
                    }
                }
                Step::Complete(c) => self.pc.completed(c),
                Step::Snapshot(outcome) => {
                    self.snapshots += 1;
                    return outcome;
                }
                Step::Pull(p) => {
                    let mut fetched = vec![];
                    for (_, lid) in &p.to_pull {
                        fetched.push(self.fragments[lid].clone());
                    }
                    self.pulled += fetched.len();
                    self.pc.pulled(p, fetched)
                }
                Step::Access(q) => {
                    assert_eq!(q.size, std::mem::size_of::<String>());
                    let to_evict = std::mem::take(&mut self.evict);
                    self.pc.accessed(q, to_evict)
                }
                Step::MakeStable(e) => {
                    self.stable.push(e.lsn);
                    self.pc.stable(e)
                }
            };
        }
    }

    fn allocate(&mut self) -> (PageID, HPtr) {
        assert!(self.pc.can_allocate());
        let (pid, key, update) = self.pc.allocate();
        self.write(update);
        (pid, key)
    }

    fn free(&mut self, pid: PageID) {
        let step = self.pc.free(pid);
        assert!(matches!(self.run(step), Outcome::Freed));
    }

    fn get(&mut self, pid: PageID) -> Option<(String, HPtr)> {
        let step = self.pc.get(pid);
        match self.run(step) {
            Outcome::Got(page) => page,
            _ => unreachable!(),
        }
    }

    fn replace(&mut self, pid: PageID, key: HPtr, new: &str) -> Result<HPtr, Option<HPtr>> {
        let step = self.pc.replace(pid, key, new.to_owned());
        match self.run(step) {
            Outcome::Written(result) => result,
            _ => unreachable!(),
        }
    }

    fn link(&mut self, pid: PageID, key: HPtr, new: &str) -> Result<HPtr, Option<HPtr>> {
        let step = self.pc.link(pid, key, new.to_owned());
        match self.run(step) {
            Outcome::Written(result) => result,
            _ => unreachable!(),
        }
    }

    /// A page with the fragments "a", "b" and "c".
    fn abc(&mut self) -> (PageID, HPtr) {
        let (pid, key) = self.allocate();
        let key = self.replace(pid, key, "a").unwrap();
        let key = self.link(pid, key, "b").unwrap();
        let key = self.link(pid, key, "c").unwrap();
        (pid, key)
    }

    fn advance(&mut self, stop_lsn: Lsn) -> Vec<SegmentOp> {
        let advancing = self.pc.advance_snapshot().unwrap();
        assert!(self.pc.advance_snapshot().is_none());
        for record in &self.records {
            assert!(record.can_replay(100));
        }
        let replay = self.pc.caught_up(advancing, &self.records, stop_lsn);
        self.pc.publish_snapshot(replay.snapshot);
        replay.ops
    }
}

#[test]
fn fragments_are_merged_in_order() {
    let mut store = Store::new(config());
    let (pid, key) = store.allocate();
    assert!(key.is_null());
    let key = store.replace(pid, key, "a").unwrap();
    let key = store.link(pid, key, "b").unwrap();
    let _key = store.link(pid, key, "c").unwrap();
    let (consolidated, _key) = store.get(pid).unwrap();
    assert_eq!(consolidated, "abc".to_owned());
}

#[test]
fn replacing_forgets_what_was_there() {
    let mut store = Store::new(config());
    let (pid, key) = store.abc();
    let key = store.replace(pid, key, "z").unwrap();
    assert_eq!(store.old_lids, vec![40, 30, 20]);
    assert_eq!(store.get(pid).unwrap(), ("z".to_owned(), key));
}

/// A materializer that changes what it is given, even a single fragment.
struct Bracket;

impl Materializer for Bracket {
    type PageFrag = String;
    type Recovery = u64;

    fn merge(&self, frags: &[&String]) -> String {
        let mut merged = "(".to_owned();
        for frag in frags {
            merged.push_str(frag);
        }
        merged.push(')');
        merged
    }

    fn recover(&self, _: &String) -> Option<u64> {
        None
    }
}

#[test]
fn a_replaced_page_is_read_as_it_was_written() {
    let mut pc: PageCache<Bracket, String, u64> = PageCache::new(Bracket, config());
    let (pid, key, _) = pc.allocate();
    let mut head = key;
    for new in ["x", "y"] {
        let w = match pc.replace(pid, head, new.to_owned()) {
            Step::Reserve(w) => w,
            _ => unreachable!(),
        };
        let m = match pc.reserved(w, 10, 10) {
            Step::Mark(m) => m,
            _ => unreachable!(),
        };
        let c = match pc.marked(m, None) {
            Step::Complete(c) => c,
            _ => unreachable!(),
        };
        head = match pc.completed(c) {
            Step::Return(Outcome::Written(Ok(head))) => head,
            _ => unreachable!(),
        };
        let seen = match pc.get(pid) {
            Step::Return(Outcome::Got(Some(found))) => found,
            _ => unreachable!(),
        };
        assert_eq!(seen, (new.to_owned(), head));
    }
}

#[test]
fn a_new_page_is_empty() {
    let mut store = Store::new(config());
    let (pid, _) = store.allocate();
    assert!(store.get(pid).is_none());
    assert!(store.get(pid + 1).is_none());
}

#[test]
fn the_first_link_begins_the_history() {
    let mut store = Store::new(config());
    let (pid, key) = store.allocate();
    let key = store.link(pid, key, "a").unwrap();
    store.link(pid, key, "b").unwrap();
    assert!(matches!(&store.records[1].update, Some(u) if matches!(u.update, Update::Compact(_))));
    assert!(matches!(&store.records[2].update, Some(u) if matches!(u.update, Update::Append(_))));
    assert_eq!(store.get(pid).unwrap().0, "ab");
}

#[test]
fn stale_versions_are_refused() {
    let mut store = Store::new(config());
    let (pid, null) = store.allocate();
    let first = store.replace(pid, null, "a").unwrap();
    let second = store.link(pid, first, "b").unwrap();
    assert_eq!(store.replace(pid, first, "x"), Err(Some(second)));
    assert_eq!(store.link(pid, first, "x"), Err(Some(second)));
    assert_eq!(store.link(pid, null, "x"), Err(Some(second)));
    assert_eq!(store.aborted, 3);
    assert_eq!(store.get(pid).unwrap().0, "ab");
}

#[test]
fn missing_pages_are_reported() {
    let mut store = Store::new(config());
    assert_eq!(store.replace(5, HPtr::null(), "x"), Err(None));
    assert_eq!(store.link(5, HPtr::null(), "x"), Err(None));
    store.free(5);
    assert_eq!(store.aborted, 0);
    assert!(store.records.is_empty());
}

#[test]
fn a_page_may_vanish_between_the_steps_of_a_write() {
    let mut store = Store::new(config());
    let (pid, key) = store.abc();
    let step = store.pc.link(pid, key, "d".to_owned());
    store.free(pid);
    assert!(matches!(store.run(step), Outcome::Written(Err(None))));
    assert_eq!(store.aborted, 1);
}

#[test]
fn freed_identifiers_are_used_again() {
    let mut store = Store::new(config());
    let (p0, _) = store.abc();
    let (p1, _) = store.allocate();
    assert_eq!((p0, p1), (0, 1));
    let step = store.pc.free(p0);
    assert!(store.get(p0).is_none());
    // The removal is not in the log yet.
    assert_eq!(store.allocate().0, 2);
    assert!(matches!(store.run(step), Outcome::Freed));
    assert_eq!(store.old_lids, vec![40, 30, 20]);
    assert_eq!(store.pc.free_pids(), &vec![0]);
    let (again, key) = store.allocate();
    assert_eq!(again, 0);
    assert!(key.is_null());
    assert!(store.get(again).is_none());
    assert_eq!(store.pc.max_pid(), 3);
}

#[test]
fn a_freed_identifier_waits_until_nobody_holds_its_page() {
    let mut store = Store::new(config());
    let (p0, null) = store.allocate();
    store.held = true;
    store.free(p0);
    assert!(store.pc.free_pids().is_empty());
    let (p1, _) = store.allocate();
    assert_eq!(p1, 1);
    // A version of the empty page is of no use in the meantime.
    assert_eq!(store.replace(p0, null, "x"), Err(None));
    store.pc.release(p1);
    assert!(store.pc.free_pids().is_empty());
    store.pc.release(p0);
    assert_eq!(store.pc.free_pids(), &vec![p0]);
    store.pc.release(p0);
    assert_eq!(store.pc.free_pids(), &vec![p0]);
    assert_eq!(store.allocate().0, p0);
}

#[test]
fn a_removal_asks_for_its_identifier_to_be_deferred() {
    let mut store = Store::new(config());
    let (pid, _) = store.abc();
    let committed = Committed { lsn: 50, lid: 50, done: Done::Free(pid) };
    assert!(matches!(store.pc.free(pid), Step::Reserve(_)));
    let step = store.pc.completed(committed);
    assert!(matches!(step, Step::Defer(p, Outcome::Freed) if p == pid));
    assert!(store.pc.free_pids().is_empty());
}

#[test]
fn the_actual_version_admits_one_write() {
    let mut store = Store::new(config());
    let (pid, null) = store.allocate();
    let key = store.link(pid, null, "a").unwrap();
    let actual = store.link(pid, null, "b").unwrap_err().unwrap();
    assert_eq!(actual, key);
    let next = store.link(pid, actual, "b").unwrap();
    assert_eq!(store.link(pid, actual, "c"), Err(Some(next)));
    assert!(store.link(pid, next, "c").is_ok());
    assert_eq!(store.get(pid).unwrap().0, "abc");
}

#[test]
fn a_read_leaves_the_merged_page_at_the_head() {
    let mut store = Store::new(config());
    let (pid, key) = store.abc();
    let (page, head) = store.get(pid).unwrap();
    assert_eq!(page, "abc");
    assert_ne!(head, key);
    // Now nothing is left to merge.
    assert!(matches!(store.pc.get(pid), Step::Return(Outcome::Got(Some(_)))));
    assert_eq!(store.get(pid).unwrap(), ("abc".to_owned(), head));
    let head = store.link(pid, head, "d").unwrap();
    assert!(store.replace(pid, key, "x").is_err());
    assert_eq!(store.get(pid).unwrap().0, "abcd");
    assert_eq!(store.link(pid, head, "x").is_err(), true);
}

#[test]
fn cheap_reads_leave_the_stack_alone() {
    let mut settings = config();
    settings.cache_fixup_threshold = 3;
    let mut store = Store::new(settings);
    let (pid, key) = store.abc();
    assert_eq!(store.get(pid).unwrap(), ("abc".to_owned(), key));
    let key = store.link(pid, key, "d").unwrap();
    let (page, head) = store.get(pid).unwrap();
    assert_eq!(page, "abcd");
    assert_ne!(head, key);
}

#[test]
fn evicted_pages_are_read_from_the_log() {
    let mut store = Store::new(config());
    let (p0, _) = store.abc();
    let (p1, _) = store.abc();
    store.evict = vec![77, p0];
    assert_eq!(store.get(p1).unwrap().0, "abc");
    // The newest of the page's fragments is in the log by then.
    assert_eq!(store.stable, vec![40]);
    assert_eq!(store.pulled, 0);
    let (page, head) = store.get(p0).unwrap();
    assert_eq!(page, "abc");
    assert_eq!(store.pulled, 3);
    // The page is in memory again.
    assert_eq!(store.get(p0).unwrap(), ("abc".to_owned(), head));
    assert_eq!(store.pulled, 3);
}

#[test]
fn what_is_linked_to_an_evicted_page_stays_in_memory() {
    let mut store = Store::new(config());
    let (p0, _) = store.abc();
    let (p1, _) = store.abc();
    store.evict = vec![p0];
    store.get(p1).unwrap();
    let stale = store.get(p0).unwrap().1;
    store.evict = vec![p0];
    let key = store.link(p0, stale, "d").unwrap();
    store.get(p0).unwrap();
    assert!(store.link(p0, key, "x").is_err());
    let step = store.pc.get(p0);
    let key = match &step {
        Step::Pull(p) => {
            assert!(p.resident.is_empty());
            assert_eq!(p.to_pull.len(), 4);
            p.head
        }
        _ => unreachable!(),
    };
    store.link(p0, key, "e").unwrap();
    // A read that began before the link does not see it.
    assert!(matches!(store.run(step), Outcome::Got(Some((page, _))) if page == "abcd"));
    assert_eq!(store.get(p0).unwrap().0, "abcde");
    assert_eq!(store.pulled, 3 + 4 + 4);
}

#[test]
fn an_empty_page_ends_the_round_of_evictions() {
    let mut store = Store::new(config());
    let (p0, _) = store.abc();
    let (empty, _) = store.allocate();
    let (p2, _) = store.abc();
    store.evict = vec![empty, p0];
    store.get(p2).unwrap();
    assert!(store.stable.is_empty());
    store.get(p0).unwrap();
    assert_eq!(store.pulled, 0);
}

#[test]
fn long_pages_are_rewritten() {
    let mut settings = config();
    settings.page_consolidation_threshold = 2;
    let mut store = Store::new(settings);
    let (pid, key) = store.abc();
    let (page, head) = store.get(pid).unwrap();
    assert_eq!(page, "abc");
    assert_ne!(head, key);
    assert_eq!(store.old_lids, vec![40, 30, 20]);
    assert!(
        matches!(&store.records[4].update, Some(LoggedUpdate { update: Update::Compact(s), .. })
            if s == "abc")
    );
    assert_eq!(store.get(pid).unwrap(), ("abc".to_owned(), head));
}

#[test]
fn a_rewrite_may_fail() {
    let store = Store::new(config());
    let after = || AfterRewrite::Return { merged: "abc".to_owned(), head: HPtr { id: 4 } };
    let r = store.pc.rewritten(after(), Ok(HPtr { id: 9 }));
    assert!(matches!(r, Step::Return(Outcome::Got(Some((s, HPtr { id: 9 })))) if s == "abc"));
    let r = store.pc.rewritten(after(), Err(Some(HPtr { id: 9 })));
    assert!(matches!(r, Step::Return(Outcome::Got(Some((s, HPtr { id: 4 })))) if s == "abc"));
    let r = store.pc.rewritten(after(), Err(None));
    assert!(matches!(r, Step::Return(Outcome::Got(None))));
}

#[test]
fn cleaning_moves_another_page() {
    let mut store = Store::new(config());
    let (p0, _) = store.abc();
    let (p1, key) = store.abc();
    store.clean = Some(p0);
    let n = store.records.len();
    store.link(p1, key, "d").unwrap();
    assert_eq!(store.records.len(), n + 2);
    let moved = copy(store.records[n + 1].update.as_ref().unwrap());
    assert_eq!(moved.pid, p0);
    assert_eq!(moved.page_frag(), Some("abc".to_owned()));
    assert_eq!(store.get(p0).unwrap().0, "abc");
    assert_eq!(store.get(p1).unwrap().0, "abcd");
}

#[test]
fn replacing_with_cleaning_changes_one_page_only() {
    let mut store = Store::new(config());
    let (p0, _) = store.abc();
    let (p1, key) = store.abc();
    let (p2, _) = store.abc();
    store.evict = vec![p0];
    store.get(p2).unwrap();
    store.clean = Some(p0);
    let key = store.replace(p1, key, "z").unwrap();
    assert_eq!(store.clean, None);
    assert_eq!(store.pulled, 3);
    assert_eq!(store.get(p1).unwrap(), ("z".to_owned(), key));
    assert_eq!(store.get(p0).unwrap().0, "abc");
    assert_eq!(store.get(p2).unwrap().0, "abc");
    assert!(store.get(p2 + 1).is_none());
}

#[test]
fn cleaning_passes_over_a_page_that_is_gone() {
    let mut store = Store::new(config());
    let (p0, key) = store.abc();
    store.clean = Some(77);
    assert!(store.replace(p0, key, "z").is_ok());
    let committed = Committed { lsn: 1, lid: 1, done: Done::Write(HPtr { id: 1 }) };
    let r = store.pc.got(Cleaning { pid: 77, committed }, None);
    assert!(matches!(r, Step::Complete(c) if c == committed));
}

#[test]
fn replace_asks_for_any_page_but_its_own() {
    let mut store = Store::new(config());
    let (pid, key) = store.allocate();
    let w = match store.pc.replace(pid, key, "a".to_owned()) {
        Step::Reserve(w) => w,
        _ => unreachable!(),
    };
    assert!(matches!(w.kind, WriteKind::Replace { recursed: false }));
    match store.pc.reserved(w, 50, 60) {
        Step::Mark(m) => {
            assert_eq!(m.cleanup, Cleanup::AnyBut(pid));
            assert_eq!(m.committed.done, Done::Write(HPtr { id: 1 }));
            assert_eq!((m.committed.lsn, m.committed.lid), (50, 60));
        }
        _ => unreachable!(),
    }
}

#[test]
fn a_rewrite_asks_for_no_page_to_be_moved() {
    let mut store = Store::new(config());
    let (pid, key) = store.abc();
    let rewrite = Rewrite { pid, key, new: "abc".to_owned() };
    let w = match store.pc.rewrite(rewrite) {
        Step::Reserve(w) => w,
        _ => unreachable!(),
    };
    assert!(matches!(w.kind, WriteKind::Replace { recursed: true }));
    assert!(matches!(&w.update.update, Update::Compact(s) if s == "abc"));
    match store.pc.reserved(w, 50, 60) {
        Step::Mark(m) => assert_eq!(m.cleanup, Cleanup::Skip),
        _ => unreachable!(),
    }
    let gone = Rewrite { pid: 77, key, new: "abc".to_owned() };
    let r = store.pc.rewrite(gone);
    assert!(matches!(r, Step::Return(Outcome::Written(Err(None)))));
}

/// A fragment that counts how often it has been cloned.
struct Counted(u32);

impl Clone for Counted {
    fn clone(&self) -> Counted {
        Counted(self.0 + 1)
    }
}

struct Last;

impl Materializer for Last {
    type PageFrag = Counted;
    type Recovery = u64;

    fn merge(&self, frags: &[&Counted]) -> Counted {
        Counted(frags[frags.len() - 1].0)
    }

    fn recover(&self, _: &Counted) -> Option<u64> {
        None
    }
}

#[test]
fn a_clone_goes_into_the_log() {
    let mut pc: PageCache<Last, Counted, u64> = PageCache::new(Last, config());
    let (pid, key, _) = pc.allocate();
    let w = match pc.link(pid, key, Counted(0)) {
        Step::Reserve(w) => w,
        _ => unreachable!(),
    };
    assert!(matches!(&w.update.update, Update::Compact(Counted(1))));
    assert!(matches!(&w.new, Some(Counted(0))));
    pc.reserved(w, 10, 10);
    assert!(matches!(pc.get(pid), Step::Access(q) if q.merged.0 == 0));
    let w = match pc.replace(pid, HPtr { id: 1 }, Counted(5)) {
        Step::Reserve(w) => w,
        _ => unreachable!(),
    };
    assert!(matches!(&w.update.update, Update::Compact(Counted(6))));
    assert!(matches!(&w.new, Some(Counted(5))));
}

#[test]
fn reading_keeps_the_positions() {
    let mut store = Store::new(config());
    let (p0, _) = store.abc();
    let (p1, _) = store.abc();
    store.evict = vec![p0];
    store.get(p1).unwrap();
    for _ in 0..2 {
        let (_, key) = store.get(p0).unwrap();
        store.link(p0, key, "d").unwrap();
    }
    let (_, key) = store.get(p0).unwrap();
    store.replace(p0, key, "z").unwrap();
    assert_eq!(store.old_lids, vec![100, 90, 40, 30, 20]);
}

#[test]
fn identifiers_are_sorted_in_descending_order() {
    let sorted = |mut ids: Vec<PageID>| {
        sort_descending(&mut ids);
        ids
    };
    assert_eq!(sorted(vec![]), vec![]);
    assert_eq!(sorted(vec![4]), vec![4]);
    assert_eq!(sorted(vec![1, 5, 3, 5, 0]), vec![5, 5, 3, 1, 0]);
    assert_eq!(sorted((0..1000).collect()), (0..1000).rev().collect::<Vec<PageID>>());
}

#[test]
fn a_snapshot_is_due_after_so_many_updates() {
    let mut settings = config();
    settings.snapshot_after_ops = 2;
    let mut store = Store::new(settings);
    let (pid, key) = store.allocate();
    let key = store.replace(pid, key, "a").unwrap();
    assert_eq!(store.snapshots, 0);
    let key = store.link(pid, key, "b").unwrap();
    assert_eq!(store.snapshots, 1);
    assert!(store.link(pid, HPtr::null(), "x").is_err());
    let key = store.link(pid, key, "c").unwrap();
    assert_eq!(store.snapshots, 1);
    store.link(pid, key, "d").unwrap();
    assert_eq!(store.snapshots, 2);
}

#[test]
fn recovery_gives_back_every_page() {
    let mut store = Store::new(config());
    let (p0, _) = store.abc();
    let (p1, key) = store.abc();
    store.replace(p1, key, "41").unwrap();
    let (p2, _) = store.abc();
    let (p3, _) = store.allocate();
    store.free(p2);
    store.advance(0);

    let mut again = Store::new(config());
    again.fragments = store.fragments.clone();
    again.records = std::mem::take(&mut store.records);
    assert!(!again.pc.can_recover());
    again.advance(0);
    assert!(again.pc.can_recover());
    assert_eq!(again.pc.recover(), Some(41));
    assert!(!again.pc.can_recover());
    assert_eq!(again.get(p0).unwrap().0, "abc");
    assert_eq!(again.get(p1).unwrap().0, "41");
    assert!(again.get(p2).is_none());
    assert!(again.get(p3).is_none());
    assert_eq!(again.pc.max_pid(), 4);
    assert_eq!(again.pc.free_pids(), &vec![p2]);
    let (_, key) = again.get(p0).unwrap();
    again.link(p0, key, "d").unwrap();
    assert_eq!(again.get(p0).unwrap().0, "abcd");
}

#[test]
fn catching_up_in_parts_takes_in_every_record_once() {
    let mut store = Store::new(config());
    let (pid, key) = store.allocate();
    let key = store.replace(pid, key, "1").unwrap();
    store.advance(0);
    store.link(pid, key, "2").unwrap();
    let advancing = store.pc.advance_snapshot().unwrap();
    assert_eq!(advancing.start_lsn, 0);
    assert_eq!(advancing.snapshot.max_lsn, 20);
    let replay = store.pc.caught_up(advancing, &store.records, 0);
    assert_eq!(replay.snapshot.pt.get(0).unwrap(), &vec![(20, 20), (30, 30)]);
    assert_eq!(replay.snapshot.recovery, Some(2));
    assert_eq!(replay.ops.len(), 2);
}

#[test]
fn a_snapshot_caught_up_in_parts_is_the_same() {
    let updates = || {
        vec![
            record(10, 10, 0, Update::Alloc),
            record(20, 20, 1, Update::Alloc),
            record(30, 30, 0, Update::Free),
            record(40, 40, 1, Update::Free),
            record(150, 150, 2, Update::Compact("8".to_owned())),
            record(160, 160, 0, Update::Alloc),
        ]
    };
    let mut at_once = Store::new(config());
    at_once.records = updates();
    at_once.advance(0);
    let mut in_parts = Store::new(config());
    in_parts.records = updates();
    in_parts.advance(40);
    in_parts.advance(0);
    let a = at_once.pc.advance_snapshot().unwrap().snapshot;
    let b = in_parts.pc.advance_snapshot().unwrap().snapshot;
    assert_eq!(a.free, vec![1]);
    assert_eq!(a.free, b.free);
    assert_eq!(a.pt.keys(), vec![0, 2]);
    assert_eq!(a.pt.keys(), b.pt.keys());
    assert_eq!((a.max_lsn, a.max_pid, a.recovery), (160, 3, Some(8)));
    assert_eq!((b.max_lsn, b.max_pid, b.recovery), (160, 3, Some(8)));
}

#[test]
fn a_snapshot_that_follows_a_growing_log_is_the_same() {
    let updates = || {
        vec![
            record(10, 10, 0, Update::Alloc),
            record(20, 20, 0, Update::Compact("7".to_owned())),
            record(30, 30, 1, Update::Alloc),
            record(40, 40, 1, Update::Free),
            record(150, 150, 0, Update::Append("8".to_owned())),
            record(160, 160, 2, Update::Alloc),
            record(170, 170, 2, Update::Free),
        ]
    };
    let mut at_once = Store::new(config());
    at_once.records = updates();
    at_once.advance(0);
    let mut growing = Store::new(config());
    growing.records = updates();
    growing.records.truncate(4);
    growing.advance(0);
    growing.records = updates();
    growing.advance(0);
    let a = at_once.pc.advance_snapshot().unwrap().snapshot;
    let b = growing.pc.advance_snapshot().unwrap().snapshot;
    assert_eq!(a.pt.get(0).unwrap(), &vec![(20, 20), (150, 150)]);
    assert_eq!(a.pt.get(0), b.pt.get(0));
    assert_eq!(a.pt.keys(), b.pt.keys());
    assert_eq!(a.free, vec![2, 1]);
    assert_eq!(a.free, b.free);
    assert_eq!((a.max_lsn, a.max_pid, a.recovery, a.segments), (170, 3, Some(8), 2));
    assert_eq!((b.max_lsn, b.max_pid, b.recovery, b.segments), (170, 3, Some(8), 2));
}

#[test]
fn catching_up_again_changes_nothing() {
    let mut store = Store::new(config());
    let (pid, _) = store.abc();
    let (gone, _) = store.allocate();
    store.free(gone);
    assert!(!store.advance(0).is_empty());
    assert!(store.advance(0).is_empty());
    let snapshot = store.pc.advance_snapshot().unwrap().snapshot;
    assert_eq!(snapshot.pt.get(pid).unwrap(), &vec![(20, 20), (30, 30), (40, 40)]);
    assert_eq!(snapshot.pt.keys(), vec![pid]);
    assert_eq!(snapshot.free, vec![gone]);
    assert_eq!((snapshot.max_lsn, snapshot.max_pid), (60, 2));
}

#[test]
fn a_recovered_cache_recovers_again() {
    let mut store = Store::new(config());
    let (p0, stale) = store.abc();
    store.link(p0, stale, "d").unwrap();
    assert!(store.link(p0, stale, "x").is_err());
    let (gone, _) = store.abc();
    store.held = true;
    store.free(gone);

    for round in 0..3 {
        let mut again = Store::new(config());
        again.fragments = store.fragments.clone();
        again.records = std::mem::take(&mut store.records);
        again.next_lsn = store.next_lsn;
        again.advance(0);
        again.pc.recover();
        assert_eq!(again.pc.max_pid(), 2);
        assert_eq!(again.pc.free_pids(), &vec![gone]);
        let (page, key) = again.get(p0).unwrap();
        assert_eq!(page, "abcd".to_owned() + &"e".repeat(round));
        let (pid, null) = again.allocate();
        assert_eq!(pid, gone);
        assert!(again.get(pid).is_none());
        again.replace(pid, null, "y").unwrap();
        again.link(p0, key, "e").unwrap();
        again.free(pid);
        store = again;
    }
}

#[test]
fn records_past_the_stable_end_are_left_out() {
    let mut store = Store::new(config());
    store.abc();
    let advancing = store.pc.advance_snapshot().unwrap();
    let replay = store.pc.caught_up(advancing, &store.records, 20);
    assert_eq!(replay.snapshot.max_lsn, 20);
    assert_eq!(replay.snapshot.pt.get(0).unwrap(), &vec![(20, 20)]);
}

fn record(lsn: Lsn, lid: LogID, pid: PageID, update: Update<String>) -> LogRecord<String> {
    LogRecord { lsn, lid, update: Some(LoggedUpdate { pid, update }) }
}

#[test]
fn pages_move_between_segments() {
    let mut r: Replay<u64> = Replay::new(Snapshot::new());
    r.record(&Concat, 100, &record(110, 210, 4, Update::Alloc));
    r.record(&Concat, 100, &record(120, 220, 4, Update::Compact("7".to_owned())));
    r.record(&Concat, 100, &record(230, 30, 4, Update::Append("x".to_owned())));
    r.record(&Concat, 100, &record(240, 40, 4, Update::Compact("y".to_owned())));
    r.record(&Concat, 100, &record(240, 40, 4, Update::Free));
    assert_eq!(
        r.ops,
        vec![
            SegmentOp::EnsureInitialized { idx: 2, lsn: 100 },
            SegmentOp::InsertPid { idx: 2, pid: 4, lsn: 100 },
            SegmentOp::EnsureInitialized { idx: 2, lsn: 100 },
            SegmentOp::InsertPid { idx: 2, pid: 4, lsn: 100 },
            SegmentOp::EnsureInitialized { idx: 0, lsn: 200 },
            SegmentOp::ActiveToInactive { idx: 2, lsn: 200 },
            SegmentOp::DrainIfEmpty { idx: 2, lsn: 200 },
            SegmentOp::InsertPid { idx: 0, pid: 4, lsn: 200 },
            SegmentOp::EnsureInitialized { idx: 0, lsn: 200 },
            SegmentOp::RemovePid { idx: 2, pid: 4, lsn: 200 },
            SegmentOp::InsertPid { idx: 0, pid: 4, lsn: 200 },
        ]
    );
    assert_eq!(r.snapshot.pt.get(4).unwrap(), &vec![(240, 40)]);
    assert_eq!(r.snapshot.recovery, Some(7));
    assert_eq!((r.snapshot.max_lsn, r.snapshot.max_pid, r.snapshot.segments), (240, 5, 3));
}

#[test]
fn appends_without_a_beginning_are_passed_over() {
    let mut r: Replay<u64> = Replay::new(Snapshot::new());
    r.record(&Concat, 100, &record(10, 10, 4, Update::Append("7".to_owned())));
    assert!(r.snapshot.pt.get(4).is_none());
    assert_eq!(r.snapshot.recovery, None);
    assert_eq!(r.snapshot.max_pid, 5);
    assert_eq!(r.ops, vec![SegmentOp::EnsureInitialized { idx: 0, lsn: 0 }]);
}

#[test]
fn what_cannot_be_understood_is_passed_over() {
    let mut r: Replay<u64> = Replay::new(Snapshot::new());
    r.record(&Concat, 100, &LogRecord { lsn: 10, lid: 310, update: None });
    assert_eq!((r.snapshot.max_lsn, r.snapshot.max_pid, r.snapshot.segments), (10, 0, 4));
    assert!(r.ops.is_empty());
}

#[test]
fn freed_identifiers_come_out_in_descending_order() {
    let mut store = Store::new(config());
    for _ in 0..4 {
        store.allocate();
    }
    store.free(1);
    store.free(3);
    store.free(0);
    store.allocate();
    store.advance(0);
    let advancing = store.pc.advance_snapshot().unwrap();
    assert_eq!(advancing.snapshot.free, vec![3, 1]);

    let mut again = Store::new(config());
    again.pc.publish_snapshot(advancing.snapshot);
    assert_eq!(again.pc.recover(), None);
    assert_eq!(again.allocate().0, 1);
    assert_eq!(again.allocate().0, 3);
    assert_eq!(again.allocate().0, 4);
}

#[test]
fn records_that_cannot_be_counted_are_told_apart() {
    assert!(record(1, 1, 7, Update::Alloc).can_replay(100));
    assert!(!record(1, 1, usize::MAX, Update::Alloc).can_replay(100));
    assert!(!record(1, u64::MAX, 7, Update::Alloc).can_replay(1));
}

#[test]
fn stacks_are_built_from_positions() {
    let at: Vec<(Lsn, LogID)> = vec![(1, 10), (2, 20), (3, 30)];
    let flushed: Vec<CacheEntry<String>> = flush_all(&at);
    assert!(matches!(flushed[0], CacheEntry::Flush(1, 10)));
    assert!(matches!(flushed[1], CacheEntry::PartialFlush(2, 20)));
    assert!(matches!(flushed[2], CacheEntry::PartialFlush(3, 30)));
    assert_eq!(locations(&flushed), at);
    assert_eq!(lids_from_stack(&flushed), vec![30, 20, 10]);
    let mut fixed = fix_up("p".to_owned(), &at);
    assert!(matches!(fixed[0], CacheEntry::Flush(1, 10)));
    assert!(matches!(fixed[1], CacheEntry::PartialFlush(2, 20)));
    assert!(matches!(&fixed[2], CacheEntry::MergedResident(p, 3, 30) if p == "p"));
    assert_eq!(count_below_residents(&fixed), 3);
    fixed.push(CacheEntry::Resident("q".to_owned(), 4, 40));
    assert_eq!(count_below_residents(&fixed), 3);
    let one = fix_up("p".to_owned(), &vec![(5, 50)]);
    assert!(matches!(&one[0], CacheEntry::MergedResident(p, 5, 50) if p == "p"));
}

#[test]
fn a_record_without_a_fragment_gives_none() {
    let u: LoggedUpdate<String> = LoggedUpdate { pid: 1, update: Update::Free };
    assert_eq!(u.page_frag(), None);
    let u = LoggedUpdate { pid: 1, update: Update::Append("a".to_owned()) };
    assert_eq!(u.page_frag(), Some("a".to_owned()));
}
