//! Building entities from component bytes before they are spawned.
use vstd::prelude::*;
use crate::ecs::archetype::ArchetypeLayout;
use crate::ecs::component::{ComponentId, ComponentMeta, ComponentRegistry};
use crate::ecs::ids::{is_sorted_set_of, strictly_sorted};

verus! {

/// Owned bytes of one component instance.
#[derive(Debug)]
pub struct ComponentBytes {
    component_id: ComponentId,
    bytes: Vec<u8>,
}

impl ComponentBytes {
    pub closed spec fn spec_component_id(&self) -> ComponentId {
        self.component_id
    }

    pub closed spec fn spec_bytes(&self) -> Seq<u8> {
        self.bytes@
    }

    pub fn component_id(&self) -> (id: ComponentId)
        ensures
            id == self.spec_component_id(),
    {
        self.component_id
    }

    pub fn bytes(&self) -> (b: &[u8])
        ensures
            b@ == self.spec_bytes(),
    {
        self.bytes.as_slice()
    }
}

/// An entity ready to spawn: its archetype layout and the bytes of each
/// component, in ascending component order.
#[derive(Debug)]
pub struct EntityBlueprint {
    layout: ArchetypeLayout,
    components: Vec<ComponentBytes>,
}

impl EntityBlueprint {
    pub closed spec fn spec_layout(&self) -> &ArchetypeLayout {
        &self.layout
    }

    pub closed spec fn spec_components(&self) -> Seq<ComponentBytes> {
        self.components@
    }

    pub fn layout(&self) -> (l: &ArchetypeLayout)
        ensures
            l == self.spec_layout(),
    {
        &self.layout
    }

    pub fn components(&self) -> (c: &[ComponentBytes])
        ensures
            c@ == self.spec_components(),
    {
        self.components.as_slice()
    }
}

/// Why a builder could not be completed.
#[derive(Debug, PartialEq, Eq, Structural)]
pub enum EntityBuilderError {
    ComponentNotRegistered { component_id: ComponentId },
    StrideMismatch { component_id: ComponentId, expected: usize, actual: usize },
}

/// Ids of `cs`, in order.
pub open spec fn ids_of(cs: Seq<ComponentBytes>) -> Seq<u32> {
    cs.map_values(|c: ComponentBytes| c.spec_component_id())
}

/// The error, if any, of component `c` against the registered `metas`.
pub open spec fn component_error(metas: Seq<ComponentMeta>, c: ComponentBytes) -> Option<EntityBuilderError> {
    let id = c.spec_component_id();
    if id >= metas.len() {
        Some(EntityBuilderError::ComponentNotRegistered { component_id: id })
    } else if c.spec_bytes().len() != metas[id as int].stride {
        Some(
            EntityBuilderError::StrideMismatch {
                component_id: id,
                expected: metas[id as int].stride,
                actual: c.spec_bytes().len() as usize,
            },
        )
    } else {
        None
    }
}

/// The first error among `cs`, in order.
pub open spec fn first_error(metas: Seq<ComponentMeta>, cs: Seq<ComponentBytes>) -> Option<EntityBuilderError>
    decreases cs.len(),
{
    if cs.len() == 0 {
        None
    } else {
        match first_error(metas, cs.drop_last()) {
            Some(e) => Some(e),
            None => component_error(metas, cs.last()),
        }
    }
}

/// Component bytes gathered before spawning, at most one entry per
/// component, kept in ascending component order.
pub struct EntityBuilder {
    components: Vec<ComponentBytes>,
}

impl EntityBuilder {
    /// The entries, in ascending component order.
    pub closed spec fn entries(&self) -> Seq<ComponentBytes> {
        self.components@
    }

    pub open spec fn wf(&self) -> bool {
        strictly_sorted(ids_of(self.entries()))
    }

    /// An empty builder.
    pub fn new() -> (b: Self)
        ensures
            b.wf(),
            b.entries() == Seq::<ComponentBytes>::empty(),
    {
        let b = EntityBuilder { components: Vec::new() };
        assert(ids_of(b.entries()) =~= Seq::<u32>::empty());
        b
    }

    /// Set the bytes of component `component_id`, replacing earlier ones.
    /// Nothing is checked here; [`build`](Self::build) checks.
    pub fn with_bytes(self, component_id: ComponentId, bytes: Vec<u8>) -> (b: Self)
        requires
            self.wf(),
        ensures
            b.wf(),
            ids_of(b.entries()).to_set() == ids_of(self.entries()).to_set().insert(component_id),
            exists|k: int| 0 <= k < b.entries().len() && (#[trigger] b.entries()[k]).spec_component_id() == component_id
                && b.entries()[k].spec_bytes() == bytes@,
            forall|k: int| 0 <= k < self.entries().len() && (#[trigger] self.entries()[k]).spec_component_id() != component_id
                ==> b.entries().contains(self.entries()[k]),
            forall|k: int| 0 <= k < b.entries().len() && (#[trigger] b.entries()[k]).spec_component_id() != component_id
                ==> self.entries().contains(b.entries()[k]),
    {
        let mut b = self;
        let ghost old_entries = b.components@;
        let n = b.components.len();
        let mut pos: usize = 0;
        while pos < n && b.components[pos].component_id < component_id
            invariant
                pos <= n,
                n == b.components@.len(),
                b.components@ == old_entries,
                strictly_sorted(ids_of(old_entries)),
                forall|k: int| 0 <= k < pos ==> (#[trigger] old_entries[k]).spec_component_id() < component_id,
            decreases n - pos,
        {
            pos = pos + 1;
        }
        let ghost bytes_view = bytes@;
        let entry = ComponentBytes { component_id, bytes };
        assert(entry.spec_bytes() == bytes_view);
        let ghost ids0 = ids_of(old_entries);
        if pos < n && b.components[pos].component_id == component_id {
            b.components.set(pos, entry);
            proof {
                let nb = b.components@;
                assert(ids_of(nb) =~= ids0);
                assert(ids0[pos as int] == component_id);
                assert(ids_of(nb).to_set() =~= ids0.to_set().insert(component_id));
                assert(nb[pos as int].spec_component_id() == component_id);
                assert(nb[pos as int].spec_bytes() == bytes_view);
                assert forall|k: int| 0 <= k < old_entries.len() && (#[trigger] old_entries[k]).spec_component_id()
                    != component_id implies nb.contains(old_entries[k]) by {
                    assert(nb[k] == old_entries[k]);
                }
                assert forall|k: int| 0 <= k < nb.len() && (#[trigger] nb[k]).spec_component_id() != component_id
                    implies old_entries.contains(nb[k]) by {
                    assert(nb[k] == old_entries[k]);
                }
            }
        } else {
            b.components.insert(pos, entry);
            proof {
                let nb = b.components@;
                let p = pos as int;
                assert(nb =~= old_entries.take(p).push(entry) + old_entries.skip(p));
                assert(ids_of(nb) =~= ids0.take(p).push(component_id) + ids0.skip(p));
                assert forall|i: int, j: int| 0 <= i < j < ids_of(nb).len() implies ids_of(nb)[i] < ids_of(nb)[j] by {
                    if j < p {
                    } else if i < p && j == p {
                    } else if i < p {
                        assert(ids_of(nb)[j] == ids0[j - 1]);
                    } else if i == p {
                        assert(ids_of(nb)[j] == ids0[j - 1]);
                        assert(ids0[p] > component_id || p == n);
                        if j - 1 > p {
                            assert(ids0[p] < ids0[j - 1]);
                        }
                    } else {
                        assert(ids_of(nb)[i] == ids0[i - 1]);
                        assert(ids_of(nb)[j] == ids0[j - 1]);
                    }
                }
                assert(ids_of(nb).to_set() =~= ids0.to_set().insert(component_id)) by {
                    assert forall|x: u32| ids_of(nb).to_set().contains(x) implies ids0.to_set().insert(component_id).contains(x) by {
                        let i = choose|i: int| 0 <= i < ids_of(nb).len() && ids_of(nb)[i] == x;
                        if i < p {
                            assert(ids0[i] == x);
                        } else if i > p {
                            assert(ids0[i - 1] == x);
                        }
                    }
                    assert forall|x: u32| ids0.to_set().insert(component_id).contains(x) implies ids_of(nb).to_set().contains(x) by {
                        if x == component_id {
                            assert(ids_of(nb)[p] == x);
                        } else {
                            let i = choose|i: int| 0 <= i < ids0.len() && ids0[i] == x;
                            if i < p {
                                assert(ids_of(nb)[i] == x);
                            } else {
                                assert(ids_of(nb)[i + 1] == x);
                            }
                        }
                    }
                }
                assert(nb[p].spec_component_id() == component_id);
                assert(nb[p].spec_bytes() == bytes_view);
                assert forall|k: int| 0 <= k < old_entries.len() && (#[trigger] old_entries[k]).spec_component_id()
                    != component_id implies nb.contains(old_entries[k]) by {
                    if k < p {
                        assert(nb[k] == old_entries[k]);
                    } else {
                        assert(nb[k + 1] == old_entries[k]);
                    }
                }
                assert forall|k: int| 0 <= k < nb.len() && (#[trigger] nb[k]).spec_component_id() != component_id
                    implies old_entries.contains(nb[k]) by {
                    if k < p {
                        assert(nb[k] == old_entries[k]);
                    } else if k > p {
                        assert(nb[k] == old_entries[k - 1]);
                    }
                }
            }
        }
        b
    }

    /// Set the bytes of component `component_id` after checking that it is
    /// registered and that `bytes` has its stride.
    pub fn with_raw_bytes(self, registry: &ComponentRegistry, component_id: ComponentId, bytes: Vec<u8>) -> (r: Result<
        Self,
        EntityBuilderError,
    >)
        requires
            self.wf(),
            registry.wf(),
        ensures
            (component_id as int) >= registry.entries().len() ==> r == Err::<Self, EntityBuilderError>(
                EntityBuilderError::ComponentNotRegistered { component_id },
            ),
            (component_id as int) < registry.entries().len() && bytes@.len() != registry.entries()[component_id as int].stride
                ==> r == Err::<Self, EntityBuilderError>(
                EntityBuilderError::StrideMismatch {
                    component_id,
                    expected: registry.entries()[component_id as int].stride,
                    actual: bytes@.len() as usize,
                },
            ),
            (component_id as int) < registry.entries().len() && bytes@.len() == registry.entries()[component_id as int].stride
                ==> r is Ok && ({
                let b = r->Ok_0;
                &&& b.wf()
                &&& ids_of(b.entries()).to_set() == ids_of(self.entries()).to_set().insert(component_id)
                &&& exists|k: int| 0 <= k < b.entries().len() && (#[trigger] b.entries()[k]).spec_component_id() == component_id
                    && b.entries()[k].spec_bytes() == bytes@
                &&& forall|k: int| 0 <= k < self.entries().len() && (#[trigger] self.entries()[k]).spec_component_id()
                    != component_id ==> b.entries().contains(self.entries()[k])
                &&& forall|k: int| 0 <= k < b.entries().len() && (#[trigger] b.entries()[k]).spec_component_id()
                    != component_id ==> self.entries().contains(b.entries()[k])
            }),
    {
        let meta = match registry.meta_of(component_id) {
            Some(m) => m,
            None => {
                return Err(EntityBuilderError::ComponentNotRegistered { component_id });
            },
        };
        if bytes.len() != meta.stride {
            return Err(EntityBuilderError::StrideMismatch { component_id, expected: meta.stride, actual: bytes.len() });
        }
        let ghost bv = bytes@;
        let ghost e0 = self.entries();
        let b = self.with_bytes(component_id, bytes);
        assert(exists|k: int| 0 <= k < b.entries().len() && (#[trigger] b.entries()[k]).spec_component_id() == component_id
            && b.entries()[k].spec_bytes() == bv);
        assert(ids_of(b.entries()).to_set() == ids_of(e0).to_set().insert(component_id));
        Ok(b)
    }

    /// Check every component against `registry`, in ascending component
    /// order, and produce the blueprint: the layout of the components and
    /// their bytes. The first component that is not registered or whose
    /// bytes do not match its stride is reported.
    pub fn build(self, registry: &ComponentRegistry) -> (r: Result<EntityBlueprint, EntityBuilderError>)
        requires
            self.wf(),
            registry.wf(),
        ensures
            match first_error(registry.entries(), self.entries()) {
                Some(e) => r == Err::<EntityBlueprint, EntityBuilderError>(e),
                None => r is Ok && ({
                    let bp = r->Ok_0;
                    &&& bp.spec_layout().wf()
                    &&& bp.spec_layout().spec_components() == ids_of(self.entries())
                    &&& bp.spec_components() == self.entries()
                }),
            },
    {
        let n = self.components.len();
        let mut ids: Vec<ComponentId> = Vec::new();
        let mut i: usize = 0;
        while i < n
            invariant
                i <= n,
                n == self.components@.len(),
                registry.wf(),
                ids@ == ids_of(self.components@.take(i as int)),
                first_error(registry.entries(), self.components@.take(i as int)) is None,
            decreases n - i,
        {
            let c = &self.components[i];
            proof {
                assert(self.components@.take(i + 1).drop_last() =~= self.components@.take(i as int));
                assert(self.components@.take(i + 1).last() == self.components@[i as int]);
            }
            let meta = match registry.meta_of(c.component_id) {
                Some(m) => m,
                None => {
                    proof {
                        lemma_first_error_sticks(registry.entries(), self.components@, i + 1);
                    }
                    return Err(EntityBuilderError::ComponentNotRegistered { component_id: c.component_id });
                },
            };
            if c.bytes.len() != meta.stride {
                proof {
                    lemma_first_error_sticks(registry.entries(), self.components@, i + 1);
                }
                return Err(
                    EntityBuilderError::StrideMismatch {
                        component_id: c.component_id,
                        expected: meta.stride,
                        actual: c.bytes.len(),
                    },
                );
            }
            ids.push(c.component_id);
            i = i + 1;
            proof {
                assert(ids@ =~= ids_of(self.components@.take(i as int)));
            }
        }
        proof {
            assert(self.components@.take(n as int) =~= self.components@);
        }
        let layout = ArchetypeLayout::new(ids);
        proof {
            crate::ecs::ids::lemma_sorted_set_unique(layout.spec_components(), ids_of(self.components@));
        }
        Ok(EntityBlueprint { layout, components: self.components })
    }
}

proof fn lemma_first_error_sticks(metas: Seq<ComponentMeta>, cs: Seq<ComponentBytes>, k: int)
    requires
        0 <= k <= cs.len(),
        first_error(metas, cs.take(k)) is Some,
    ensures
        first_error(metas, cs) == first_error(metas, cs.take(k)),
    decreases cs.len() - k,
{
    if k < cs.len() {
        assert(cs.take(k + 1).drop_last() =~= cs.take(k));
        lemma_first_error_sticks(metas, cs, k + 1);
    } else {
        assert(cs.take(k) =~= cs);
    }
}

} // verus!
