//! The count of rendered frames.

use vstd::prelude::*;

verus! {

/// Keeps a count of rendered frames since the start. The count wraps to 0
/// when it has reached the largest value.
#[derive(Default, Clone, Copy, Debug, PartialEq, Eq)]
pub struct FrameCount(pub u32);

impl FrameCount {
    /// The count one frame later.
    pub open spec fn next(self) -> FrameCount {
        if self.0 == u32::MAX {
            FrameCount(0)
        } else {
            FrameCount((self.0 + 1) as u32)
        }
    }

    /// Counts one more frame.
    pub fn advance(&mut self)
        ensures
            *final(self) == old(self).next(),
    {
        self.0 = self.0.wrapping_add(1);
    }
}

} // verus!
