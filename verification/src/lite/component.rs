//! Component layouts keyed by id.
use vstd::prelude::*;
use std::collections::HashMap;

verus! {

broadcast use vstd::std_specs::hash::group_hash_axioms;

pub type ComponentId = u32;

/// Layout of a plain-data component.
#[derive(Clone, Debug)]
pub struct ComponentMeta {
    pub id: ComponentId,
    pub name: String,
    pub size: usize,
    pub align: usize,
}

/// Component layouts by id.
pub struct ComponentTable {
    by_id: HashMap<ComponentId, ComponentMeta>,
}

impl ComponentTable {
    /// Recorded layouts by id: the id stored with it, name, size, alignment.
    pub closed spec fn records(&self) -> Map<ComponentId, (ComponentId, Seq<char>, usize, usize)> {
        self.by_id@.map_values(|m: ComponentMeta| (m.id, m.name@, m.size, m.align))
    }

    /// An empty table.
    pub fn new() -> (t: Self)
        ensures
            t.records() == Map::<ComponentId, (ComponentId, Seq<char>, usize, usize)>::empty(),
    {
        let t = ComponentTable { by_id: HashMap::new() };
        assert(t.records() =~= Map::<ComponentId, (ComponentId, Seq<char>, usize, usize)>::empty());
        t
    }

    /// Record `meta` under its id, replacing an earlier record, which must
    /// have the same size and alignment.
    pub fn register_component(&mut self, meta: ComponentMeta)
        requires
            old(self).records().contains_key(meta.id) ==> old(self).records()[meta.id].2 == meta.size
                && old(self).records()[meta.id].3 == meta.align,
        ensures
            final(self).records() == old(self).records().insert(meta.id, (meta.id, meta.name@, meta.size, meta.align)),
    {
        let id = meta.id;
        let ghost rec = (meta.id, meta.name@, meta.size, meta.align);
        self.by_id.insert(id, meta);
        assert(self.records() =~= old(self).records().insert(id, rec));
    }

    /// The layout recorded for `id`.
    pub fn meta_of(&self, id: ComponentId) -> (r: Option<ComponentMeta>)
        ensures
            match r {
                Some(m) => self.records().contains_key(id) && self.records()[id] == (m.id, m.name@, m.size, m.align),
                None => !self.records().contains_key(id),
            },
    {
        match self.by_id.get(&id) {
            Some(m) => Some(ComponentMeta { id: m.id, name: m.name.clone(), size: m.size, align: m.align }),
            None => None,
        }
    }
}

} // verus!
