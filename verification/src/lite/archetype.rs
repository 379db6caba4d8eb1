//! Archetypes as sorted component sets.
use vstd::prelude::*;
use crate::ecs::archetype::{archetype_hash, hash_components};
use crate::ecs::ids::{is_sorted_set_of, sorted_contains, sorted_unique, strictly_sorted};
use crate::lite::component::ComponentId;

verus! {

/// Identifier of an archetype: the hash of its sorted component list.
pub type ArchetypeId = u64;

/// An archetype as a plain record: its id and its sorted component set.
/// The fields are public, so a value built by hand need not be
/// consistent; [`Archetype::from_components`] builds consistent ones.
#[derive(Clone, Debug, PartialEq, Eq)]
pub struct Archetype {
    pub id: ArchetypeId,
    pub components: Vec<ComponentId>,
}

impl Archetype {
    /// Id and component list agree: the list is strictly ascending and the
    /// id is its hash.
    pub open spec fn wf(&self) -> bool {
        strictly_sorted(self.components@) && self.id == archetype_hash(self.components@)
    }

    /// The archetype of the set of `comps` (any order, duplicates allowed).
    pub fn from_components(comps: Vec<ComponentId>) -> (a: Self)
        ensures
            a.wf(),
            is_sorted_set_of(a.components@, comps@),
    {
        let sorted = sorted_unique(comps.as_slice());
        let id = hash_components(sorted.as_slice());
        Archetype { id, components: sorted }
    }

    /// The archetype holds component `id`.
    pub fn contains(&self, id: ComponentId) -> (b: bool)
        requires
            strictly_sorted(self.components@),
        ensures
            b == self.components@.contains(id),
    {
        sorted_contains(self.components.as_slice(), id)
    }
}

} // verus!
