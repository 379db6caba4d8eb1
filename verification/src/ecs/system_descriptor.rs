//! How a system reads and writes components.
use vstd::prelude::*;
use crate::ecs::component::ComponentId;
use crate::ecs::ids::{is_sorted_set_of, lemma_sorted_set_unique, sorted_unique, strictly_sorted};

verus! {

/// Metadata describing how a system interacts with the world: its name and
/// the sorted, duplicate-free sets of components it reads and writes.
#[derive(Clone, Debug, PartialEq, Eq)]
pub struct SystemDescriptor {
    name: String,
    reads: Vec<ComponentId>,
    writes: Vec<ComponentId>,
    components: Vec<ComponentId>,
}

impl SystemDescriptor {
    pub closed spec fn spec_name(&self) -> Seq<char> {
        self.name@
    }

    pub closed spec fn spec_reads(&self) -> Seq<u32> {
        self.reads@
    }

    pub closed spec fn spec_writes(&self) -> Seq<u32> {
        self.writes@
    }

    pub closed spec fn spec_components(&self) -> Seq<u32> {
        self.components@
    }

    /// Reads and writes are sorted sets and the components are their union.
    pub open spec fn wf(&self) -> bool {
        &&& strictly_sorted(self.spec_reads())
        &&& strictly_sorted(self.spec_writes())
        &&& is_sorted_set_of(self.spec_components(), self.spec_reads() + self.spec_writes())
    }

    /// A descriptor named `name` that touches no component.
    pub fn new(name: &str) -> (d: Self)
        ensures
            d.wf(),
            d.spec_name() == name@,
            d.spec_reads() == Seq::<u32>::empty(),
            d.spec_writes() == Seq::<u32>::empty(),
            d.spec_components() == Seq::<u32>::empty(),
    {
        let d = SystemDescriptor { name: name.to_owned(), reads: Vec::new(), writes: Vec::new(), components: Vec::new() };
        assert(d.components@.to_set() =~= (d.reads@ + d.writes@).to_set());
        d
    }

    /// Replace the read set by `components`, sorted and deduplicated.
    pub fn reads(self, components: &[ComponentId]) -> (d: Self)
        requires
            self.wf(),
        ensures
            d.wf(),
            d.spec_name() == self.spec_name(),
            is_sorted_set_of(d.spec_reads(), components@),
            d.spec_writes() == self.spec_writes(),
    {
        let ghost w0 = self.writes@;
        let mut d = self;
        d.reads = sorted_unique(components);
        d.rebuild_components();
        proof {
            lemma_sorted_set_unique(d.writes@, w0);
        }
        d
    }

    /// Replace the write set by `components`, sorted and deduplicated.
    pub fn writes(self, components: &[ComponentId]) -> (d: Self)
        requires
            self.wf(),
        ensures
            d.wf(),
            d.spec_name() == self.spec_name(),
            d.spec_reads() == self.spec_reads(),
            is_sorted_set_of(d.spec_writes(), components@),
    {
        let ghost r0 = self.reads@;
        let mut d = self;
        d.writes = sorted_unique(components);
        d.rebuild_components();
        proof {
            lemma_sorted_set_unique(d.reads@, r0);
        }
        d
    }

    /// Add `component` to the read set.
    pub fn add_read(&mut self, component: ComponentId)
        requires
            old(self).wf(),
        ensures
            final(self).wf(),
            final(self).spec_name() == old(self).spec_name(),
            is_sorted_set_of(final(self).spec_reads(), old(self).spec_reads().push(component)),
            final(self).spec_writes() == old(self).spec_writes(),
    {
        self.reads.push(component);
        self.rebuild_components();
        proof {
            lemma_sorted_set_unique(self.writes@, old(self).writes@);
        }
    }

    /// Add `component` to the write set.
    pub fn add_write(&mut self, component: ComponentId)
        requires
            old(self).wf(),
        ensures
            final(self).wf(),
            final(self).spec_name() == old(self).spec_name(),
            final(self).spec_reads() == old(self).spec_reads(),
            is_sorted_set_of(final(self).spec_writes(), old(self).spec_writes().push(component)),
    {
        self.writes.push(component);
        self.rebuild_components();
        proof {
            lemma_sorted_set_unique(self.reads@, old(self).reads@);
        }
    }

    /// The system's name.
    pub fn name(&self) -> (n: &str)
        ensures
            n@ == self.spec_name(),
    {
        self.name.as_str()
    }

    /// The read set.
    pub fn read_components(&self) -> (c: &[ComponentId])
        ensures
            c@ == self.spec_reads(),
    {
        self.reads.as_slice()
    }

    /// The write set.
    pub fn write_components(&self) -> (c: &[ComponentId])
        ensures
            c@ == self.spec_writes(),
    {
        self.writes.as_slice()
    }

    /// Union of the read and write sets, sorted.
    pub fn all_components(&self) -> (c: &[ComponentId])
        ensures
            c@ == self.spec_components(),
    {
        self.components.as_slice()
    }

    /// Whether the descriptor touches no component at all.
    pub fn is_empty(&self) -> (b: bool)
        requires
            self.wf(),
        ensures
            b == (self.spec_reads().len() == 0 && self.spec_writes().len() == 0),
            b == (self.spec_components().len() == 0),
    {
        proof {
            let s = self.spec_reads() + self.spec_writes();
            if s.len() > 0 {
                assert(s.to_set().contains(s[0]));
                assert(self.spec_components().to_set().contains(s[0]));
            }
            if self.spec_components().len() > 0 {
                assert(self.spec_components().to_set().contains(self.spec_components()[0]));
                assert(s.to_set().contains(self.spec_components()[0]));
            }
        }
        self.components.len() == 0
    }

    /// Normalise both sets and recompute their union.
    fn rebuild_components(&mut self)
        ensures
            final(self).wf(),
            final(self).name == old(self).name,
            is_sorted_set_of(final(self).reads@, old(self).reads@),
            is_sorted_set_of(final(self).writes@, old(self).writes@),
    {
        self.reads = sorted_unique(self.reads.as_slice());
        self.writes = sorted_unique(self.writes.as_slice());
        let mut all: Vec<ComponentId> = Vec::new();
        let mut i: usize = 0;
        while i < self.reads.len()
            invariant
                i <= self.reads@.len(),
                all@ == self.reads@.take(i as int),
            decreases self.reads@.len() - i,
        {
            all.push(self.reads[i]);
            i = i + 1;
            assert(all@ =~= self.reads@.take(i as int));
        }
        let mut j: usize = 0;
        while j < self.writes.len()
            invariant
                j <= self.writes@.len(),
                all@ == self.reads@ + self.writes@.take(j as int),
            decreases self.writes@.len() - j,
        {
            all.push(self.writes[j]);
            j = j + 1;
            assert(all@ =~= self.reads@ + self.writes@.take(j as int));
        }
        assert(self.reads@.take(self.reads@.len() as int) =~= self.reads@);
        assert(self.writes@.take(self.writes@.len() as int) =~= self.writes@);
        self.components = sorted_unique(all.as_slice());
    }
}

} // verus!
