//! Registry of systems: unique names, at most one writer per component.
use vstd::prelude::*;
use crate::ecs::component::ComponentId;
use crate::ecs::ids::copy_ids;
use crate::ecs::system_descriptor::SystemDescriptor;
use crate::ecs::system_handle::SystemHandle;
use crate::ecs::system_registration_error::SystemRegistrationError;
use std::collections::HashMap;

verus! {

broadcast use vstd::std_specs::hash::group_hash_axioms;

/// Some registered system is named `name`.
pub open spec fn name_taken(descs: Seq<SystemDescriptor>, name: Seq<char>) -> bool {
    exists|i: int| 0 <= i < descs.len() && (#[trigger] descs[i]).spec_name() == name
}

/// Some registered system writes component `c`.
pub open spec fn has_writer(descs: Seq<SystemDescriptor>, c: u32) -> bool {
    exists|i: int| 0 <= i < descs.len() && (#[trigger] descs[i]).spec_writes().contains(c)
}

/// No two registered systems share a name.
pub open spec fn names_unique(descs: Seq<SystemDescriptor>) -> bool {
    forall|i: int, j: int| 0 <= i < j < descs.len() ==> (#[trigger] descs[i]).spec_name() != (#[trigger] descs[j]).spec_name()
}

/// No component is written by two registered systems.
pub open spec fn single_writer(descs: Seq<SystemDescriptor>) -> bool {
    forall|i: int, j: int, c: u32|
        #![trigger descs[i].spec_writes().contains(c), descs[j].spec_writes().contains(c)]
        0 <= i < j < descs.len() && descs[i].spec_writes().contains(c) ==> !descs[j].spec_writes().contains(c)
}

/// The outcome of registering `d` into a registry holding `descs`.
pub open spec fn registration_result(
    descs: Seq<SystemDescriptor>,
    d: SystemDescriptor,
    r: Result<SystemHandle, SystemRegistrationError>,
) -> bool {
    let ws = d.spec_writes();
    if d.spec_components().len() == 0 {
        r matches Err(SystemRegistrationError::EmptyAccess { name }) && name@ == d.spec_name()
    } else if name_taken(descs, d.spec_name()) {
        r matches Err(SystemRegistrationError::DuplicateName { name }) && name@ == d.spec_name()
    } else if exists|k: int| 0 <= k < ws.len() && has_writer(descs, #[trigger] ws[k]) {
        exists|k: int, i: int|
            #![trigger ws[k], descs[i]]
            0 <= k < ws.len() && 0 <= i < descs.len() && descs[i].spec_writes().contains(ws[k])
                && (forall|m: int| 0 <= m < k ==> !has_writer(descs, #[trigger] ws[m]))
                && (r matches Err(SystemRegistrationError::ComponentWriteConflict { component, existing, requested, existing_handle })
                && component == ws[k] && existing@ == descs[i].spec_name() && requested@ == d.spec_name()
                && existing_handle.spec_index() == i as u32)
    } else {
        r matches Ok(h) && h.spec_index() == descs.len() as u32
    }
}

struct RegisteredSystem {
    handle: SystemHandle,
    descriptor: SystemDescriptor,
    components: Vec<ComponentId>,
}

/// The registered systems, in registration order; a system's handle is its
/// position. `writers` maps each written component to the position of its
/// writer.
pub struct SystemRegistry {
    systems: Vec<RegisteredSystem>,
    writers: HashMap<ComponentId, usize>,
}

impl SystemRegistry {
    /// Descriptors of the registered systems, in registration order.
    pub closed spec fn descs(&self) -> Seq<SystemDescriptor> {
        self.systems@.map_values(|s: RegisteredSystem| s.descriptor)
    }

    pub closed spec fn entries_wf(&self) -> bool {
        forall|i: int| 0 <= i < self.systems@.len() ==> {
            let s = #[trigger] self.systems@[i];
            &&& s.handle.spec_index() == i as u32
            &&& s.descriptor.wf()
            &&& s.components@ == s.descriptor.spec_components()
        }
    }

    /// The writer map holds exactly the written components, each with the
    /// handle of a system that writes it.
    pub closed spec fn writers_wf(&self) -> bool {
        &&& forall|c: u32| #[trigger] self.writers@.contains_key(c) <==> has_writer(self.descs(), c)
        &&& forall|c: u32| #[trigger] self.writers@.contains_key(c) ==> {
            let h = self.writers@[c] as int;
            &&& h < self.descs().len()
            &&& self.descs()[h].spec_writes().contains(c)
        }
    }

    /// Every descriptor is well formed, names are unique and each component
    /// has at most one writer.
    pub open spec fn wf(&self) -> bool {
        &&& self.entries_wf()
        &&& self.writers_wf()
        &&& names_unique(self.descs())
        &&& single_writer(self.descs())
    }

    proof fn lemma_descs(&self)
        requires
            self.entries_wf(),
        ensures
            self.descs().len() == self.systems@.len(),
            forall|i: int| 0 <= i < self.systems@.len() ==> (#[trigger] self.descs()[i]) == self.systems@[i].descriptor
                && self.descs()[i].wf(),
    {
        assert forall|i: int| 0 <= i < self.systems@.len() implies (#[trigger] self.descs()[i]) == self.systems@[i].descriptor
            && self.descs()[i].wf() by {
            assert(self.systems@[i].descriptor.wf());
        }
    }

    /// An empty registry.
    pub fn new() -> (r: Self)
        ensures
            r.wf(),
            r.descs() == Seq::<SystemDescriptor>::empty(),
    {
        let r = SystemRegistry { systems: Vec::new(), writers: HashMap::new() };
        assert(r.descs() =~= Seq::<SystemDescriptor>::empty());
        r
    }

    /// Register `descriptor`. It is refused when it touches no component,
    /// when its name is taken, or when another system already writes one of
    /// its written components (the smallest such component is reported).
    /// Otherwise its handle is the number of systems registered before it.
    pub fn register(&mut self, descriptor: SystemDescriptor) -> (r: Result<SystemHandle, SystemRegistrationError>)
        requires
            old(self).wf(),
            descriptor.wf(),
        ensures
            final(self).wf(),
            registration_result(old(self).descs(), descriptor, r),
            r is Ok ==> final(self).descs() == old(self).descs().push(descriptor),
            r is Err ==> final(self).descs() == old(self).descs(),
    {
        proof {
            self.lemma_descs();
        }
        let ghost descs = self.descs();
        if descriptor.is_empty() {
            return Err(SystemRegistrationError::EmptyAccess { name: descriptor.name().to_owned() });
        }
        let name_key: String = descriptor.name().to_owned();
        let n = self.systems.len();
        let mut i: usize = 0;
        while i < n
            invariant
                n == self.systems@.len(),
                n == descs.len(),
                self.wf(),
                self.descs() == descs,
                descs == old(self).descs(),
                descriptor.wf(),
                descriptor.spec_components().len() != 0,
                i <= n,
                name_key@ == descriptor.spec_name(),
                forall|k: int| 0 <= k < n ==> (#[trigger] descs[k]) == self.systems@[k].descriptor,
                forall|k: int| 0 <= k < i ==> (#[trigger] descs[k]).spec_name() != descriptor.spec_name(),
            decreases n - i,
        {
            let taken = self.systems[i].descriptor.name().to_owned() == name_key;
            if taken {
                assert(descs[i as int].spec_name() == descriptor.spec_name());
                return Err(SystemRegistrationError::DuplicateName { name: name_key });
            }
            i = i + 1;
        }
        let writes = descriptor.write_components();
        let mut k: usize = 0;
        while k < writes.len()
            invariant
                n == self.systems@.len(),
                n == descs.len(),
                self.wf(),
                self.descs() == descs,
                descs == old(self).descs(),
                descriptor.wf(),
                descriptor.spec_components().len() != 0,
                k <= writes@.len(),
                writes@ == descriptor.spec_writes(),
                name_key@ == descriptor.spec_name(),
                forall|m: int| 0 <= m < n ==> (#[trigger] descs[m]) == self.systems@[m].descriptor && descs[m].wf(),
                forall|m: int| 0 <= m < n ==> (#[trigger] self.systems@[m]).handle.spec_index() == m as u32,
                forall|m: int| 0 <= m < k ==> !has_writer(descs, #[trigger] writes@[m]),
                forall|m: int| 0 <= m < descs.len() ==> (#[trigger] descs[m]).spec_name() != descriptor.spec_name(),
            decreases writes@.len() - k,
        {
            let c = writes[k];
            match self.writers.get(&c) {
                Some(h) => {
                    let jj = *h;
                    let existing_handle = self.systems[jj].handle;
                    proof {
                        assert(self.writers@.contains_key(c));
                        assert(descs[jj as int].spec_writes().contains(writes@[k as int]));
                        assert(has_writer(descs, writes@[k as int]));
                    }
                    let existing: String = self.systems[jj].descriptor.name().to_owned();
                    return Err(SystemRegistrationError::ComponentWriteConflict {
                        component: c,
                        existing,
                        requested: name_key,
                        existing_handle,
                    });
                },
                None => {
                    assert(!self.writers@.contains_key(c));
                },
            }
            proof {
                assert forall|m: int| 0 <= m <= k implies !has_writer(descs, #[trigger] writes@[m]) by {
                    if m == k {
                        assert(!self.writers@.contains_key(writes@[m]));
                    }
                }
            }
            k = k + 1;
        }
        let handle = SystemHandle::new(n as u32);
        let ghost w0 = self.writers@;
        let mut q: usize = 0;
        while q < writes.len()
            invariant
                q <= writes@.len(),
                writes@ == descriptor.spec_writes(),
                self.systems@ == old(self).systems@,
                w0 == old(self).writers@,
                forall|c: u32| #[trigger] self.writers@.contains_key(c) <==> (w0.contains_key(c) || writes@.subrange(
                    0,
                    q as int,
                ).contains(c)),
                forall|c: u32| #[trigger] self.writers@.contains_key(c) ==> self.writers@[c] == (if writes@.subrange(
                    0,
                    q as int,
                ).contains(c) {
                    n
                } else {
                    w0[c]
                }),
            decreases writes@.len() - q,
        {
            let c = writes[q];
            self.writers.insert(c, n);
            proof {
                assert forall|x: u32| writes@.subrange(0, q + 1).contains(x) <==> (writes@.subrange(0, q as int).contains(x)
                    || x == c) by {
                    if writes@.subrange(0, q + 1).contains(x) {
                        let t = choose|t: int| 0 <= t < q + 1 && #[trigger] writes@.subrange(0, q + 1)[t] == x;
                        if t < q {
                            assert(writes@.subrange(0, q as int)[t] == x);
                        }
                    }
                    if writes@.subrange(0, q as int).contains(x) {
                        let t = choose|t: int| 0 <= t < q && #[trigger] writes@.subrange(0, q as int)[t] == x;
                        assert(writes@.subrange(0, q + 1)[t] == x);
                    }
                    if x == c {
                        assert(writes@.subrange(0, q + 1)[q as int] == x);
                    }
                }
            }
            q = q + 1;
        }
        let components = copy_ids(descriptor.all_components());
        self.systems.push(RegisteredSystem { handle, descriptor, components });
        proof {
            assert(writes@.subrange(0, writes@.len() as int) =~= writes@);
            assert(self.descs() =~= descs.push(descriptor));
            assert forall|c: u32| #[trigger] self.writers@.contains_key(c) <==> has_writer(self.descs(), c) by {
                if self.writers@.contains_key(c) {
                    if writes@.contains(c) {
                        assert(self.descs()[n as int].spec_writes().contains(c));
                    } else {
                        assert(w0.contains_key(c));
                        let w = choose|w: int| 0 <= w < descs.len() && (#[trigger] descs[w]).spec_writes().contains(c);
                        assert(self.descs()[w] == descs[w]);
                    }
                }
                if has_writer(self.descs(), c) {
                    let w = choose|w: int| 0 <= w < self.descs().len() && (#[trigger] self.descs()[w]).spec_writes().contains(c);
                    if w < n {
                        assert(descs[w] == self.descs()[w]);
                        assert(has_writer(descs, c));
                        assert(w0.contains_key(c));
                    } else {
                        assert(writes@.contains(c));
                    }
                }
            }
            assert forall|c: u32| #[trigger] self.writers@.contains_key(c) implies {
                let h = self.writers@[c] as int;
                &&& h < self.descs().len()
                &&& self.descs()[h].spec_writes().contains(c)
            } by {
                if writes@.contains(c) {
                    assert(self.writers@[c] == n);
                    assert(self.descs()[n as int].spec_writes().contains(c));
                } else {
                    assert(w0.contains_key(c));
                    assert(self.writers@[c] == w0[c]);
                    assert(old(self).writers@.contains_key(c));
                    let h = w0[c] as int;
                    assert(h < descs.len() && descs[h].spec_writes().contains(c));
                    assert(self.descs()[h] == descs[h]);
                }
            }
            assert forall|a: int, b: int, c: u32|
                #![trigger self.descs()[a].spec_writes().contains(c), self.descs()[b].spec_writes().contains(c)]
                0 <= a < b < self.descs().len() && self.descs()[a].spec_writes().contains(c)
                    implies !self.descs()[b].spec_writes().contains(c) by {
                if b == descs.len() {
                    if self.descs()[b].spec_writes().contains(c) {
                        let kk = choose|kk: int| 0 <= kk < writes@.len() && writes@[kk] == c;
                        assert(!has_writer(descs, writes@[kk]));
                        assert(descs[a].spec_writes().contains(c));
                    }
                }
            }
        }
        Ok(handle)
    }

    /// Descriptor of the system with `handle`.
    pub fn descriptor(&self, handle: SystemHandle) -> (r: Option<&SystemDescriptor>)
        requires
            self.wf(),
        ensures
            (handle.spec_index() as int) < self.descs().len() ==> r == Some(&self.descs()[handle.spec_index() as int]),
            (handle.spec_index() as int) >= self.descs().len() ==> r is None,
    {
        proof {
            self.lemma_descs();
        }
        let idx = handle.index() as usize;
        if idx < self.systems.len() {
            Some(&self.systems[idx].descriptor)
        } else {
            None
        }
    }

    /// Components touched by the system with `handle`.
    pub fn component_filter(&self, handle: SystemHandle) -> (r: Option<&[ComponentId]>)
        requires
            self.wf(),
        ensures
            (handle.spec_index() as int) < self.descs().len() ==> (r matches Some(c)
                && c@ == self.descs()[handle.spec_index() as int].spec_components()),
            (handle.spec_index() as int) >= self.descs().len() ==> r is None,
    {
        proof {
            self.lemma_descs();
        }
        let idx = handle.index() as usize;
        if idx < self.systems.len() {
            assert(self.systems@[idx as int].components@ == self.systems@[idx as int].descriptor.spec_components());
            Some(self.systems[idx].components.as_slice())
        } else {
            None
        }
    }

    /// Read set of the system with `handle`.
    pub fn read_components(&self, handle: SystemHandle) -> (r: Option<&[ComponentId]>)
        requires
            self.wf(),
        ensures
            (handle.spec_index() as int) < self.descs().len() ==> (r matches Some(c)
                && c@ == self.descs()[handle.spec_index() as int].spec_reads()),
            (handle.spec_index() as int) >= self.descs().len() ==> r is None,
    {
        match self.descriptor(handle) {
            Some(d) => Some(d.read_components()),
            None => None,
        }
    }

    /// Write set of the system with `handle`.
    pub fn write_components(&self, handle: SystemHandle) -> (r: Option<&[ComponentId]>)
        requires
            self.wf(),
        ensures
            (handle.spec_index() as int) < self.descs().len() ==> (r matches Some(c)
                && c@ == self.descs()[handle.spec_index() as int].spec_writes()),
            (handle.spec_index() as int) >= self.descs().len() ==> r is None,
    {
        match self.descriptor(handle) {
            Some(d) => Some(d.write_components()),
            None => None,
        }
    }

    /// Handles and descriptors of all systems, in registration order.
    pub fn iter(&self) -> (v: Vec<(SystemHandle, &SystemDescriptor)>)
        requires
            self.wf(),
        ensures
            v@.len() == self.descs().len(),
            forall|i: int| 0 <= i < v@.len() ==> (#[trigger] v@[i]).0.spec_index() == i as u32
                && v@[i].1 == &self.descs()[i],
    {
        proof {
            self.lemma_descs();
        }
        let mut v: Vec<(SystemHandle, &SystemDescriptor)> = Vec::new();
        let mut i: usize = 0;
        while i < self.systems.len()
            invariant
                i <= self.systems@.len(),
                self.entries_wf(),
                self.descs().len() == self.systems@.len(),
                forall|k: int| 0 <= k < self.systems@.len() ==> (#[trigger] self.descs()[k]) == self.systems@[k].descriptor,
                v@.len() == i,
                forall|k: int| 0 <= k < i ==> (#[trigger] v@[k]).0.spec_index() == k as u32 && v@[k].1 == &self.descs()[k],
            decreases self.systems@.len() - i,
        {
            let s = &self.systems[i];
            assert(self.systems@[i as int].handle.spec_index() == i as u32);
            v.push((s.handle, &s.descriptor));
            i = i + 1;
        }
        v
    }
}

} // verus!
