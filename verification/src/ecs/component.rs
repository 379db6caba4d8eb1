//! Component metadata and the registry that assigns component ids.
//!
//! Ids are handed out in registration order starting at 0; registering a
//! name a second time returns the handle it already has.
use vstd::prelude::*;

verus! {

/// Unique identifier assigned to each registered component.
pub type ComponentId = u32;

/// Metadata for a single field inside a component layout.
#[derive(Debug)]
pub struct FieldMeta {
    pub name: String,
    pub offset: usize,
    pub size: usize,
}

/// Two field descriptions agree.
pub open spec fn field_eq(a: FieldMeta, b: FieldMeta) -> bool {
    a.name@ == b.name@ && a.offset == b.offset && a.size == b.size
}

/// Two field lists agree element by element.
pub open spec fn fields_eq(a: Seq<FieldMeta>, b: Seq<FieldMeta>) -> bool {
    a.len() == b.len() && forall|i: int| 0 <= i < a.len() ==> field_eq(#[trigger] a[i], b[i])
}

impl FieldMeta {
    pub fn new(name: &str, offset: usize, size: usize) -> (f: Self)
        ensures
            f.name@ == name@,
            f.offset == offset,
            f.size == size,
    {
        FieldMeta { name: name.to_owned(), offset, size }
    }

    /// A copy of this field description.
    pub fn duplicate(&self) -> (f: Self)
        ensures
            field_eq(f, *self),
    {
        FieldMeta { name: self.name.clone(), offset: self.offset, size: self.size }
    }
}

/// Copy a list of field descriptions.
pub fn duplicate_fields(fields: &Vec<FieldMeta>) -> (out: Vec<FieldMeta>)
    ensures
        fields_eq(out@, fields@),
{
    let mut out: Vec<FieldMeta> = Vec::new();
    let mut i: usize = 0;
    while i < fields.len()
        invariant
            i <= fields@.len(),
            out@.len() == i,
            forall|k: int| 0 <= k < i ==> field_eq(#[trigger] out@[k], fields@[k]),
        decreases fields@.len() - i,
    {
        out.push(fields[i].duplicate());
        i = i + 1;
    }
    out
}

/// Full runtime metadata for a component.
#[derive(Debug)]
pub struct ComponentMeta {
    pub id: ComponentId,
    pub name: String,
    pub size: usize,
    pub align: usize,
    pub stride: usize,
    pub pod: bool,
    pub fields: Vec<FieldMeta>,
}

/// Two metadata records agree in every field.
pub open spec fn meta_eq(a: ComponentMeta, b: ComponentMeta) -> bool {
    &&& a.id == b.id
    &&& a.name@ == b.name@
    &&& a.size == b.size
    &&& a.align == b.align
    &&& a.stride == b.stride
    &&& a.pod == b.pod
    &&& fields_eq(a.fields@, b.fields@)
}

/// Lightweight handle cached by systems once registration succeeds.
#[derive(Copy, Clone, Debug, PartialEq, Eq, Structural)]
pub struct ComponentHandle {
    pub id: ComponentId,
    pub size: usize,
    pub align: usize,
    pub stride: usize,
    pub pod: bool,
}

/// The handle that summarises `m`.
pub open spec fn handle_of(m: ComponentMeta) -> ComponentHandle {
    ComponentHandle { id: m.id, size: m.size, align: m.align, stride: m.stride, pod: m.pod }
}

impl ComponentMeta {
    fn handle(&self) -> (h: ComponentHandle)
        ensures
            h == handle_of(*self),
    {
        ComponentHandle {
            id: self.id,
            size: self.size,
            align: self.align,
            stride: self.stride,
            pod: self.pod,
        }
    }

    /// A copy of this record.
    pub fn duplicate(&self) -> (m: Self)
        ensures
            meta_eq(m, *self),
    {
        ComponentMeta {
            id: self.id,
            name: self.name.clone(),
            size: self.size,
            align: self.align,
            stride: self.stride,
            pod: self.pod,
            fields: duplicate_fields(&self.fields),
        }
    }
}

impl ComponentHandle {
    pub fn bytes_per_element(&self) -> (n: usize)
        ensures
            n == self.stride,
    {
        self.stride
    }
}

pub use crate::pool::paged_pool::is_power_of_two;

/// The layout checks the registry enforces on every registration.
pub open spec fn valid_layout(size: usize, align: usize, stride: usize) -> bool {
    is_power_of_two(align as nat) && stride >= size && stride % align == 0
}

/// Registry of component layouts, keyed by id and by name.
pub struct ComponentRegistry {
    metas: Vec<ComponentMeta>,
}

impl ComponentRegistry {
    /// Registered records; the record at position `i` has id `i`.
    pub closed spec fn entries(&self) -> Seq<ComponentMeta> {
        self.metas@
    }

    pub open spec fn wf(&self) -> bool {
        &&& self.entries().len() <= u32::MAX
        &&& forall|i: int| 0 <= i < self.entries().len() ==> (#[trigger] self.entries()[i]).id == i
        &&& forall|i: int, j: int|
            0 <= i < j < self.entries().len() ==> (#[trigger] self.entries()[i]).name@
                != (#[trigger] self.entries()[j]).name@
    }

    /// Position of the record named `name`, if any.
    pub open spec fn index_of_name(&self, name: Seq<char>) -> Option<int> {
        if exists|i: int| 0 <= i < self.entries().len() && (#[trigger] self.entries()[i]).name@ == name {
            Some(choose|i: int| 0 <= i < self.entries().len() && (#[trigger] self.entries()[i]).name@ == name)
        } else {
            None
        }
    }

    pub fn new() -> (r: Self)
        ensures
            r.wf(),
            r.entries().len() == 0,
    {
        ComponentRegistry { metas: Vec::new() }
    }

    /// Look up the record named `name`.
    fn find_name(&self, name: &str) -> (r: Option<usize>)
        requires
            self.wf(),
        ensures
            match r {
                Some(i) => i < self.entries().len() && self.entries()[i as int].name@ == name@,
                None => forall|i: int| 0 <= i < self.entries().len() ==> (#[trigger] self.entries()[i]).name@ != name@,
            },
            r is Some <==> self.index_of_name(name@) is Some,
            r is Some ==> self.index_of_name(name@) == Some(r->0 as int),
    {
        let key = name.to_owned();
        let mut i: usize = 0;
        while i < self.metas.len()
            invariant
                i <= self.metas@.len(),
                self.wf(),
                key@ == name@,
                forall|k: int| 0 <= k < i ==> (#[trigger] self.metas@[k]).name@ != name@,
            decreases self.metas@.len() - i,
        {
            if self.metas[i].name == key {
                proof {
                    assert(self.entries()[i as int].name@ == name@);
                    let c = choose|j: int| 0 <= j < self.entries().len() && (#[trigger] self.entries()[j]).name@ == name@;
                    if c != i as int {
                        if c < i {
                        } else {
                            assert(self.entries()[i as int].name@ != self.entries()[c].name@);
                        }
                    }
                }
                return Some(i);
            }
            i = i + 1;
        }
        None
    }

    /// Metadata of component `id`.
    pub fn meta_of(&self, id: ComponentId) -> (r: Option<ComponentMeta>)
        requires
            self.wf(),
        ensures
            (id as int) < self.entries().len() ==> r is Some && meta_eq(r->0, self.entries()[id as int]),
            (id as int) >= self.entries().len() ==> r is None,
    {
        if (id as usize) < self.metas.len() {
            Some(self.metas[id as usize].duplicate())
        } else {
            None
        }
    }

    /// Metadata of the component named `name`.
    pub fn meta_of_name(&self, name: &str) -> (r: Option<ComponentMeta>)
        requires
            self.wf(),
        ensures
            match self.index_of_name(name@) {
                Some(i) => r is Some && meta_eq(r->0, self.entries()[i]),
                None => r is None,
            },
    {
        match self.find_name(name) {
            Some(i) => Some(self.metas[i].duplicate()),
            None => None,
        }
    }

    /// Handle of the component named `name`, which must be registered.
    pub fn handle_of_name(&self, name: &str) -> (h: ComponentHandle)
        requires
            self.wf(),
            self.index_of_name(name@) is Some,
        ensures
            h == handle_of(self.entries()[self.index_of_name(name@)->0]),
    {
        match self.find_name(name) {
            Some(i) => self.metas[i].handle(),
            None => {
                assert(false);
                ComponentHandle { id: 0, size: 0, align: 1, stride: 0, pod: true }
            },
        }
    }

    /// `true` when the registered record `existing` has exactly this layout.
    pub fn layout_matches(
        existing: &ComponentMeta,
        size: usize,
        align: usize,
        stride: usize,
        pod: bool,
        fields: &Vec<FieldMeta>,
    ) -> (b: bool)
        ensures
            b == (existing.size == size && existing.align == align && existing.stride == stride
                && existing.pod == pod && fields_eq(existing.fields@, fields@)),
    {
        if existing.size != size || existing.align != align || existing.stride != stride || existing.pod
            != pod || existing.fields.len() != fields.len() {
            return false;
        }
        let mut i: usize = 0;
        while i < fields.len()
            invariant
                i <= fields@.len(),
                existing.fields@.len() == fields@.len(),
                forall|k: int| 0 <= k < i ==> field_eq(#[trigger] existing.fields@[k], fields@[k]),
            decreases fields@.len() - i,
        {
            let a = &existing.fields[i];
            let b = &fields[i];
            if !(a.name == b.name) || a.offset != b.offset || a.size != b.size {
                return false;
            }
            i = i + 1;
        }
        true
    }

    /// Register a layout under `name`, or return the handle that `name`
    /// already has. A second registration must repeat the layout; the id
    /// counter must not be exhausted.
    fn register_internal(
        &mut self,
        name: &str,
        size: usize,
        align: usize,
        stride: usize,
        pod: bool,
        fields: Vec<FieldMeta>,
    ) -> (h: ComponentHandle)
        requires
            old(self).wf(),
            valid_layout(size, align, stride),
            old(self).index_of_name(name@) is None ==> old(self).entries().len() < u32::MAX,
            old(self).index_of_name(name@) matches Some(i) ==> ({
                let m = old(self).entries()[i];
                m.size == size && m.align == align && m.stride == stride && m.pod == pod
                    && fields_eq(m.fields@, fields@)
            }),
        ensures
            final(self).wf(),
            match old(self).index_of_name(name@) {
                Some(i) => final(self).entries() == old(self).entries() && h == handle_of(old(self).entries()[i]),
                None => {
                    &&& final(self).entries().len() == old(self).entries().len() + 1
                    &&& final(self).entries().subrange(0, old(self).entries().len() as int) == old(self).entries()
                    &&& h == ComponentHandle { id: old(self).entries().len() as u32, size, align, stride, pod }
                    &&& h == handle_of(final(self).entries().last())
                    &&& final(self).entries().last().name@ == name@
                    &&& fields_eq(final(self).entries().last().fields@, fields@)
                },
            },
    {
        match self.find_name(name) {
            Some(i) => {
                return self.metas[i].handle();
            },
            None => {},
        }
        let id = self.metas.len() as u32;
        let meta = ComponentMeta { id, name: name.to_owned(), size, align, stride, pod, fields };
        let h = meta.handle();
        let ghost old_entries = self.metas@;
        self.metas.push(meta);
        proof {
            assert(self.entries().subrange(0, old_entries.len() as int) =~= old_entries);
            assert(forall|k: int| 0 <= k < old_entries.len() ==> (#[trigger] old_entries[k]).name@ != name@);
            assert forall|a: int, b: int| 0 <= a < b < self.entries().len() implies (#[trigger] self.entries()[a]).name@
                != (#[trigger] self.entries()[b]).name@ by {
                if b == old_entries.len() {
                    assert(self.entries()[a] == old_entries[a]);
                }
            }
        }
        h
    }
}

/// Register a Rust-side component layout.
pub fn register_component(
    registry: &mut ComponentRegistry,
    name: &str,
    size: usize,
    align: usize,
    stride: usize,
    pod: bool,
    fields: Vec<FieldMeta>,
) -> (h: ComponentHandle)
    requires
        old(registry).wf(),
        valid_layout(size, align, stride),
        old(registry).index_of_name(name@) is None ==> old(registry).entries().len() < u32::MAX,
        old(registry).index_of_name(name@) matches Some(i) ==> ({
            let m = old(registry).entries()[i];
            m.size == size && m.align == align && m.stride == stride && m.pod == pod
                && fields_eq(m.fields@, fields@)
        }),
    ensures
        final(registry).wf(),
        match old(registry).index_of_name(name@) {
            Some(i) => final(registry).entries() == old(registry).entries() && h == handle_of(old(registry).entries()[i]),
            None => {
                &&& final(registry).entries().len() == old(registry).entries().len() + 1
                &&& final(registry).entries().subrange(0, old(registry).entries().len() as int) == old(registry).entries()
                &&& h == ComponentHandle { id: old(registry).entries().len() as u32, size, align, stride, pod }
                &&& h == handle_of(final(registry).entries().last())
                &&& final(registry).entries().last().name@ == name@
                &&& fields_eq(final(registry).entries().last().fields@, fields@)
            },
        },
{
    registry.register_internal(name, size, align, stride, pod, fields)
}

/// Register an externally-described component (scripting, tooling). The
/// same as [`register_component`] with the arguments in another order.
pub fn register_external_component_with_fields(
    registry: &mut ComponentRegistry,
    name: &str,
    size: usize,
    align: usize,
    stride: usize,
    fields: Vec<FieldMeta>,
    pod: bool,
) -> (h: ComponentHandle)
    requires
        old(registry).wf(),
        valid_layout(size, align, stride),
        old(registry).index_of_name(name@) is None ==> old(registry).entries().len() < u32::MAX,
        old(registry).index_of_name(name@) matches Some(i) ==> ({
            let m = old(registry).entries()[i];
            m.size == size && m.align == align && m.stride == stride && m.pod == pod
                && fields_eq(m.fields@, fields@)
        }),
    ensures
        final(registry).wf(),
        match old(registry).index_of_name(name@) {
            Some(i) => final(registry).entries() == old(registry).entries() && h == handle_of(old(registry).entries()[i]),
            None => {
                &&& final(registry).entries().len() == old(registry).entries().len() + 1
                &&& final(registry).entries().subrange(0, old(registry).entries().len() as int) == old(registry).entries()
                &&& h == ComponentHandle { id: old(registry).entries().len() as u32, size, align, stride, pod }
                &&& h == handle_of(final(registry).entries().last())
                &&& final(registry).entries().last().name@ == name@
                &&& fields_eq(final(registry).entries().last().fields@, fields@)
            },
        },
{
    registry.register_internal(name, size, align, stride, pod, fields)
}

/// Whether `n` is a power of two.
pub fn power_of_two(n: usize) -> (b: bool)
    ensures
        b == is_power_of_two(n as nat),
{
    let mut m = n;
    while m > 1 && m % 2 == 0
        invariant
            is_power_of_two(m as nat) == is_power_of_two(n as nat),
        decreases m,
    {
        m = m / 2;
    }
    m == 1
}

/// Why a layout could not be registered.
#[derive(Debug, Clone, Copy, PartialEq, Eq, Structural)]
pub enum RegisterError {
    /// The alignment is not a power of two.
    AlignmentNotPowerOfTwo,
    /// The stride is smaller than the size.
    StrideBelowSize,
    /// The stride is not a multiple of the alignment.
    StrideNotMultipleOfAlign,
    /// The name is registered with another layout.
    ConflictingLayout,
    /// Every component id is taken.
    IdOverflow,
}

/// Register a component layout, refusing what [`register_component`] must
/// not be given: an invalid layout, a name already registered with another
/// layout, or a new name when every id is taken. Nothing changes on a
/// refusal.
pub fn try_register_component(
    registry: &mut ComponentRegistry,
    name: &str,
    size: usize,
    align: usize,
    stride: usize,
    pod: bool,
    fields: Vec<FieldMeta>,
) -> (r: Result<ComponentHandle, RegisterError>)
    requires
        old(registry).wf(),
    ensures
        final(registry).wf(),
        !is_power_of_two(align as nat) ==> r == Err::<ComponentHandle, RegisterError>(RegisterError::AlignmentNotPowerOfTwo),
        is_power_of_two(align as nat) && stride < size ==> r == Err::<ComponentHandle, RegisterError>(
            RegisterError::StrideBelowSize,
        ),
        is_power_of_two(align as nat) && stride >= size && stride % align != 0 ==> r == Err::<ComponentHandle, RegisterError>(
            RegisterError::StrideNotMultipleOfAlign,
        ),
        valid_layout(size, align, stride) ==> match old(registry).index_of_name(name@) {
            Some(i) => {
                let m = old(registry).entries()[i];
                if m.size == size && m.align == align && m.stride == stride && m.pod == pod && fields_eq(m.fields@, fields@) {
                    r == Ok::<ComponentHandle, RegisterError>(handle_of(m))
                } else {
                    r == Err::<ComponentHandle, RegisterError>(RegisterError::ConflictingLayout)
                }
            },
            None => if old(registry).entries().len() >= u32::MAX {
                r == Err::<ComponentHandle, RegisterError>(RegisterError::IdOverflow)
            } else {
                &&& r == Ok::<ComponentHandle, RegisterError>(
                    ComponentHandle { id: old(registry).entries().len() as u32, size, align, stride, pod },
                )
                &&& final(registry).entries().len() == old(registry).entries().len() + 1
                &&& final(registry).entries().subrange(0, old(registry).entries().len() as int) == old(registry).entries()
                &&& handle_of(final(registry).entries().last()) == ComponentHandle {
                    id: old(registry).entries().len() as u32,
                    size,
                    align,
                    stride,
                    pod,
                }
                &&& final(registry).entries().last().name@ == name@
                &&& fields_eq(final(registry).entries().last().fields@, fields@)
            },
        },
        r is Err || old(registry).index_of_name(name@) is Some ==> final(registry).entries() == old(registry).entries(),
{
    if !power_of_two(align) {
        return Err(RegisterError::AlignmentNotPowerOfTwo);
    }
    if stride < size {
        return Err(RegisterError::StrideBelowSize);
    }
    if stride % align != 0 {
        return Err(RegisterError::StrideNotMultipleOfAlign);
    }
    match registry.find_name(name) {
        Some(i) => {
            if !ComponentRegistry::layout_matches(&registry.metas[i], size, align, stride, pod, &fields) {
                return Err(RegisterError::ConflictingLayout);
            }
        },
        None => {
            if registry.metas.len() >= 0xffff_ffffusize {
                return Err(RegisterError::IdOverflow);
            }
        },
    }
    Ok(register_component(registry, name, size, align, stride, pod, fields))
}

/// Metadata of component `id`.
pub fn meta_of(registry: &ComponentRegistry, id: ComponentId) -> (r: Option<ComponentMeta>)
    requires
        registry.wf(),
    ensures
        (id as int) < registry.entries().len() ==> r is Some && meta_eq(r->0, registry.entries()[id as int]),
        (id as int) >= registry.entries().len() ==> r is None,
{
    registry.meta_of(id)
}

/// Metadata of the component named `name`.
pub fn meta_of_name(registry: &ComponentRegistry, name: &str) -> (r: Option<ComponentMeta>)
    requires
        registry.wf(),
    ensures
        match registry.index_of_name(name@) {
            Some(i) => r is Some && meta_eq(r->0, registry.entries()[i]),
            None => r is None,
        },
{
    registry.meta_of_name(name)
}

/// Handle of the component named `name`, which must be registered.
pub fn handle_of_name(registry: &ComponentRegistry, name: &str) -> (h: ComponentHandle)
    requires
        registry.wf(),
        registry.index_of_name(name@) is Some,
    ensures
        h == handle_of(registry.entries()[registry.index_of_name(name@)->0]),
{
    registry.handle_of_name(name)
}

} // verus!
