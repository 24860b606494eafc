//! Watch mode: a refetch that a newer one overtook is thrown away.
use vstd::prelude::*;

verus! {

/// Numbers the refetches of watch mode, so that only the result of the
/// latest one is applied.
pub struct RefetchTracker {
    latest: u64,
}

impl RefetchTracker {
    /// The number of the latest refetch (0 before the first).
    pub closed spec fn latest_view(&self) -> int {
        self.latest as int
    }

    /// No refetch yet.
    pub fn new() -> (r: RefetchTracker)
        ensures
            r.latest_view() == 0,
    {
        RefetchTracker { latest: 0 }
    }

    /// Starts a refetch and returns its number, one above the last; at the
    /// largest number the count stays there.
    pub fn begin(&mut self) -> (r: u64)
        ensures
            old(self).latest_view() < u64::MAX ==> r == old(self).latest_view() + 1,
            old(self).latest_view() == u64::MAX ==> r == u64::MAX,
            final(self).latest_view() == r,
    {
        self.latest = self.latest.saturating_add(1);
        self.latest
    }

    /// Whether the result of refetch `generation` is to be applied: only
    /// that of the latest one is.
    pub fn is_current(&self, generation: u64) -> (r: bool)
        ensures
            r == (generation as int == self.latest_view()),
    {
        generation == self.latest
    }
}

} // verus!
