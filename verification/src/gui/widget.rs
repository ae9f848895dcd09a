//! Counting the widgets created, so that each gets a tag of its own.
use vstd::prelude::*;

verus! {

/// The number of widgets created so far.
#[derive(Debug)]
pub struct WidgetCounter(pub u128);

impl Default for WidgetCounter {
    /// No widget created yet.
    fn default() -> (r: Self)
        ensures
            r.0 == 0,
    {
        WidgetCounter(0)
    }
}

impl WidgetCounter {
    /// Counts one more widget.
    pub fn incr(&mut self)
        requires
            old(self).0 < u128::MAX,
        ensures
            final(self).0 == old(self).0 + 1,
    {
        self.0 = self.0 + 1;
    }

    /// The number of widgets counted.
    pub fn inner(&self) -> (r: u128)
        ensures
            r == self.0,
    {
        self.0
    }
}

} // verus!
