//! A page of default-initialised slots handed out through a free list.
use vstd::prelude::*;

verus! {

/// Slots of a page and the indices of the free ones; the next slot handed
/// out is the last free index.
pub struct Page<T: Default> {
    storage: Vec<T>,
    free: Vec<usize>,
}

/// Slot capacity of [`Page::new`].
pub const DEFAULT_CAPACITY: usize = 64;

impl<T: Default> Page<T> {
    pub closed spec fn spec_capacity(&self) -> nat {
        self.storage@.len()
    }

    /// Free slot indices, the next one handed out last.
    pub closed spec fn free_view(&self) -> Seq<usize> {
        self.free@
    }

    /// A page of [`DEFAULT_CAPACITY`] slots, all free.
    pub fn new() -> (p: Self)
        ensures
            p.spec_capacity() == DEFAULT_CAPACITY,
            p.free_view() == Seq::new(DEFAULT_CAPACITY as nat, |i: int| (DEFAULT_CAPACITY - 1 - i) as usize),
    {
        Self::with_capacity(DEFAULT_CAPACITY)
    }

    /// A page of `n` default slots, all free; slot 0 is handed out first.
    pub fn with_capacity(n: usize) -> (p: Self)
        ensures
            p.spec_capacity() == n,
            p.free_view() == Seq::new(n as nat, |i: int| (n - 1 - i) as usize),
    {
        let mut storage: Vec<T> = Vec::new();
        let mut free: Vec<usize> = Vec::new();
        let mut i: usize = 0;
        while i < n
            invariant
                i <= n,
                storage@.len() == i,
                free@ == Seq::new(i as nat, |k: int| (n - 1 - k) as usize),
            decreases n - i,
        {
            storage.push(T::default());
            free.push(n - 1 - i);
            i = i + 1;
            assert(free@ =~= Seq::new(i as nat, |k: int| (n - 1 - k) as usize));
        }
        Page { storage, free }
    }

    /// Return slot `idx` to the free list.
    pub fn free(&mut self, idx: usize)
        ensures
            final(self).free_view() == old(self).free_view().push(idx),
            final(self).spec_capacity() == old(self).spec_capacity(),
    {
        self.free.push(idx);
    }

    /// No slot is free.
    pub fn empty(&self) -> (b: bool)
        ensures
            b == (self.free_view().len() == 0),
    {
        self.free.len() == 0
    }
}

} // verus!
