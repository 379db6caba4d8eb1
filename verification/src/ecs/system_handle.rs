//! Handles of registered systems.
use vstd::prelude::*;

verus! {

/// Handle assigned to each registered system: its registration index.
#[derive(Copy, Clone, Debug, PartialEq, Eq, Structural, Hash)]
pub struct SystemHandle(u32);

impl SystemHandle {
    pub closed spec fn spec_index(&self) -> u32 {
        self.0
    }

    pub(crate) fn new(index: u32) -> (h: Self)
        ensures
            h.spec_index() == index,
    {
        SystemHandle(index)
    }

    /// The raw index backing this handle.
    pub fn index(self) -> (i: u32)
        ensures
            i == self.spec_index(),
    {
        self.0
    }
}

} // verus!
