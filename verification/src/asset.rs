//! Asset handles and the registry that hands them out.
use vstd::prelude::*;

verus! {

/// Opaque asset identifier.
#[derive(Debug, Copy, Clone, PartialEq, Eq, Hash)]
pub struct AssetHandle(pub u64);

/// Hands out asset handles with increasing identifiers, starting at 1.
pub struct AssetRegistry {
    next_id: u64,
}

impl AssetRegistry {
    /// The identifier that the next call of `register` hands out.
    pub closed spec fn next_id(&self) -> u64 {
        self.next_id
    }

    pub fn new() -> (r: Self)
        ensures
            r.next_id() == 1,
    {
        AssetRegistry { next_id: 1 }
    }

    /// Hand out a fresh handle; the counter must not be exhausted.
    pub fn register(&mut self) -> (h: AssetHandle)
        requires
            old(self).next_id() < u64::MAX,
        ensures
            h.0 == old(self).next_id(),
            final(self).next_id() == old(self).next_id() + 1,
    {
        let handle = AssetHandle(self.next_id);
        self.next_id = self.next_id + 1;
        handle
    }
}

} // verus!
