//! Which slot holds the accelerator of each relation type: at most one per
//! type, in registration order.
use vstd::prelude::*;

verus! {

/// Relation types in the order their accelerators were registered; an
/// accelerator's slot is the position of its type.
pub struct AcceleratorSlots {
    types: Vec<u16>,
}

impl AcceleratorSlots {
    /// The registered types, slot by slot.
    pub closed spec fn types(&self) -> Seq<u16> {
        self.types@
    }

    /// Each type is registered once.
    pub open spec fn wf(&self) -> bool {
        self.types().no_duplicates()
    }

    pub fn new() -> (s: Self)
        ensures
            s.wf(),
            s.types() == Seq::<u16>::empty(),
    {
        AcceleratorSlots { types: Vec::new() }
    }

    /// Slot of the accelerator of type `ty`, if one is registered.
    pub fn slot_of(&self, ty: u16) -> (r: Option<usize>)
        requires
            self.wf(),
        ensures
            match r {
                Some(i) => i < self.types().len() && self.types()[i as int] == ty,
                None => !self.types().contains(ty),
            },
    {
        let mut i: usize = 0;
        while i < self.types.len()
            invariant
                i <= self.types@.len(),
                forall|j: int| 0 <= j < i ==> self.types@[j] != ty,
            decreases self.types@.len() - i,
        {
            if self.types[i] == ty {
                return Some(i);
            }
            i = i + 1;
        }
        None
    }

    /// Give type `ty` the next slot. None, with nothing changed, when `ty`
    /// already has one.
    pub fn register(&mut self, ty: u16) -> (r: Option<usize>)
        requires
            old(self).wf(),
        ensures
            final(self).wf(),
            old(self).types().contains(ty) ==> r is None && final(self).types() == old(self).types(),
            !old(self).types().contains(ty) ==> r == Some(old(self).types().len() as usize) && final(self).types()
                == old(self).types().push(ty),
    {
        match self.slot_of(ty) {
            Some(_) => None,
            None => {
                let n = self.types.len();
                self.types.push(ty);
                proof {
                    assert forall|a: int, b: int| 0 <= a < b < self.types@.len() implies self.types@[a] != self.types@[b] by {
                        if b == n as int {
                            assert(old(self).types()[a] == self.types@[a]);
                        }
                    }
                }
                Some(n)
            },
        }
    }
}

} // verus!
