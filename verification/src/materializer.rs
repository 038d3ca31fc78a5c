//! How the owner of the pages gives meaning to their fragments.

use vstd::prelude::*;

verus! {

/// Merges fragments into pages and picks out what is to be kept for recovery.
///
/// Implemented by the owner of the pages, and free to give whatever it likes.
pub trait Materializer {
    /// A fragment of a page.
    type PageFrag;

    /// What the owner wants back after a restart.
    type Recovery;

    /// Merges the fragments of a page, oldest first.
    fn merge(&self, frags: &[&Self::PageFrag]) -> Self::PageFrag;

    /// Picks out of a fragment what is to be returned by recovery.
    fn recover(&self, frag: &Self::PageFrag) -> Option<Self::Recovery>;
}

/// `page` is what the materializer may make of `frags`, oldest first.
pub open spec fn merges<PM: Materializer>(
    m: PM,
    frags: Seq<PM::PageFrag>,
    page: PM::PageFrag,
) -> bool {
    exists|slice: &[&PM::PageFrag]|
        slice@.unref() == frags && #[trigger] call_ensures(PM::merge, (&m, slice), page)
}

/// `found` is what the materializer may recover from `frag`.
pub open spec fn recovers<PM: Materializer>(
    m: PM,
    frag: PM::PageFrag,
    found: Option<PM::Recovery>,
) -> bool {
    call_ensures(PM::recover, (&m, &frag), found)
}

} // verus!
