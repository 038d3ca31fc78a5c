//! Identifiers, log updates and settings shared by the other modules.

use vstd::prelude::*;

verus! {

/// The logical identifier of a page.
pub type PageID = usize;

/// A log sequence number.
pub type Lsn = u64;

/// A position in the log file.
pub type LogID = u64;

/// Names one version of a page's stack.
///
/// Whoever wants to change a page presents the version that it has seen. The
/// version with number zero is that of an empty stack.
#[derive(Clone, Copy, PartialEq, Eq, Structural, Debug)]
pub struct HPtr {
    pub id: u64,
}

impl HPtr {
    /// The version of an empty stack.
    pub fn null() -> (r: HPtr)
        ensures
            r.id == 0,
    {
        HPtr { id: 0 }
    }

    /// Whether this is the version of an empty stack.
    pub fn is_null(&self) -> (r: bool)
        ensures
            r == (self.id == 0),
    {
        self.id == 0
    }
}

/// What a log record does to its page.
pub enum Update<P> {
    /// Adds a fragment to a page.
    Append(P),
    /// Starts the page's history anew with one fragment.
    Compact(P),
    /// Removes the page.
    Free,
    /// Creates an empty page.
    Alloc,
}

/// The payload of a log record.
pub struct LoggedUpdate<P> {
    pub pid: PageID,
    pub update: Update<P>,
}

impl<P> Update<P> {
    /// Whether the update carries a fragment of its page.
    pub open spec fn has_frag(self) -> bool {
        self is Append || self is Compact
    }

    /// The fragment that the update carries.
    pub open spec fn frag(self) -> P
        recommends
            self.has_frag(),
    {
        match self {
            Update::Append(p) => p,
            Update::Compact(p) => p,
            _ => arbitrary(),
        }
    }
}

impl<P> LoggedUpdate<P> {
    /// The fragment that a record read back from the log contributes to its
    /// page, or `None` for a record that carries none.
    pub fn page_frag(self) -> (r: Option<P>)
        ensures
            self.update.has_frag() ==> r == Some(self.update.frag()),
            !self.update.has_frag() ==> r is None,
    {
        match self.update {
            Update::Append(page_frag) => Some(page_frag),
            Update::Compact(page_frag) => Some(page_frag),
            _ => None,
        }
    }
}

/// The settings that the cache's decisions depend on.
#[derive(Clone, Copy, PartialEq, Eq, Structural, Debug)]
pub struct Config {
    /// The size of a log segment, in bytes.
    pub io_buf_size: usize,
    /// A page with more fragments than this is rewritten when it is read.
    pub page_consolidation_threshold: usize,
    /// A read that passes this many fragments above a merged one leaves the
    /// merged page at the head of the stack.
    pub cache_fixup_threshold: usize,
    /// A snapshot is due each time this many updates have been made.
    pub snapshot_after_ops: usize,
    /// Whether snapshot files are compressed.
    pub use_compression: bool,
}

} // verus!
