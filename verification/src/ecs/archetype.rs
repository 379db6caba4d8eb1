//! Archetype identification.
//!
//! An archetype is the set of component ids an entity carries. Its layout
//! keeps the ids sorted without duplicates, and its 64-bit id is a hash of
//! that list, so the same set gives the same id whatever order it came in.
use vstd::prelude::*;
use crate::ecs::component::ComponentId;
use std::hash::{Hash, Hasher};
use crate::ecs::ids::{is_sorted_set_of, sorted_contains, sorted_unique, strictly_sorted};

verus! {

pub type ArchetypeId = u64;

/// The hash that identifies the archetype of a sorted id list.
pub uninterp spec fn archetype_hash(ids: Seq<u32>) -> u64;

/// Hash the component ids in order with std's `DefaultHasher` (created by
/// `DefaultHasher::new`, each id fed through `Hash::hash`, then `finish`).
/// Claimed: the result is a function of the id list alone.
#[verifier::external_body]
pub(crate) fn hash_components(components: &[ComponentId]) -> (h: ArchetypeId)
    ensures
        h == archetype_hash(components@),
{
    let mut hasher = std::collections::hash_map::DefaultHasher::new();
    components.iter().for_each(|c| c.hash(&mut hasher));
    hasher.finish()
}

/// Sorted component set of an archetype together with its id.
#[derive(Debug, Clone, PartialEq, Eq)]
pub struct ArchetypeLayout {
    id: ArchetypeId,
    components: Vec<ComponentId>,
}

impl ArchetypeLayout {
    pub closed spec fn spec_id(&self) -> ArchetypeId {
        self.id
    }

    pub closed spec fn spec_components(&self) -> Seq<ComponentId> {
        self.components@
    }

    pub open spec fn wf(&self) -> bool {
        strictly_sorted(self.spec_components()) && self.spec_id() == archetype_hash(self.spec_components())
    }

    /// Layout of the set of `components` (any order, duplicates allowed).
    pub fn new(components: Vec<ComponentId>) -> (l: Self)
        ensures
            l.wf(),
            is_sorted_set_of(l.spec_components(), components@),
    {
        let sorted = sorted_unique(components.as_slice());
        let id = hash_components(sorted.as_slice());
        ArchetypeLayout { id, components: sorted }
    }

    pub fn id(&self) -> (id: ArchetypeId)
        ensures
            id == self.spec_id(),
    {
        self.id
    }

    pub fn components(&self) -> (c: &[ComponentId])
        ensures
            c@ == self.spec_components(),
    {
        self.components.as_slice()
    }

    pub fn contains(&self, id: ComponentId) -> (b: bool)
        requires
            self.wf(),
        ensures
            b == self.spec_components().contains(id),
    {
        sorted_contains(self.components.as_slice(), id)
    }

    /// A copy of this layout.
    pub fn duplicate(&self) -> (l: Self)
        ensures
            l.spec_id() == self.spec_id(),
            l.spec_components() == self.spec_components(),
    {
        let mut comps: Vec<ComponentId> = Vec::new();
        let mut i: usize = 0;
        while i < self.components.len()
            invariant
                i <= self.components@.len(),
                comps@ == self.components@.take(i as int),
            decreases self.components@.len() - i,
        {
            comps.push(self.components[i]);
            i = i + 1;
            assert(comps@ =~= self.components@.take(i as int));
        }
        assert(comps@ =~= self.components@);
        ArchetypeLayout { id: self.id, components: comps }
    }
}

/// Layouts built from inputs with the same set of ids are identical:
/// same component list, same archetype id.
pub proof fn law_layout_order_independent(a: &ArchetypeLayout, b: &ArchetypeLayout, ia: Seq<u32>, ib: Seq<u32>)
    requires
        a.wf(),
        b.wf(),
        is_sorted_set_of(a.spec_components(), ia),
        is_sorted_set_of(b.spec_components(), ib),
        ia.to_set() == ib.to_set(),
    ensures
        a.spec_components() == b.spec_components(),
        a.spec_id() == b.spec_id(),
{
    crate::ecs::ids::lemma_sorted_set_unique(a.spec_components(), b.spec_components());
}

} // verus!
