//! A world of byte-column storages, one per archetype. Each storage keeps
//! its freed rows in a pool and hands them out again before it grows.
use vstd::prelude::*;
use crate::ecs::archetype::archetype_hash;
use crate::ecs::ids::{is_sorted_set_of, lemma_sorted_set_unique, strictly_sorted};
use crate::lite::archetype::{Archetype, ArchetypeId};
use crate::lite::component::{ComponentId, ComponentMeta, ComponentTable};
use crate::lite::entity::{Entity, EntityBuilder, entry_bytes, entry_ids, entry_index, lemma_entry_index};

verus! {

/// Position of the last `x` in `s`, or `-1`.
pub open spec fn pos_in<A>(s: Seq<A>, x: A) -> int
    decreases s.len(),
{
    if s.len() == 0 {
        -1
    } else if s.last() == x {
        s.len() - 1
    } else {
        pos_in(s.drop_last(), x)
    }
}

proof fn lemma_pos_in<A>(s: Seq<A>, x: A, c: int)
    requires
        s.no_duplicates(),
    ensures
        0 <= c < s.len() && s[c] == x ==> pos_in(s, x) == c,
        !s.contains(x) ==> pos_in(s, x) == -1,
        s.contains(x) ==> 0 <= pos_in(s, x) < s.len() && s[pos_in(s, x)] == x,
    decreases s.len(),
{
    if s.len() > 0 {
        let d = s.drop_last();
        assert(d.no_duplicates()) by {
            assert forall|i: int, j: int| 0 <= i < j < d.len() implies d[i] != d[j] by {
                assert(d[i] == s[i] && d[j] == s[j]);
            }
        }
        lemma_pos_in(d, x, c);
        if 0 <= c < s.len() - 1 {
            assert(d[c] == s[c]);
        }
        if s.contains(x) && s.last() != x {
            let k = choose|k: int| 0 <= k < s.len() && s[k] == x;
            assert(d[k] == x);
        }
        if !s.contains(x) && d.contains(x) {
            let k = choose|k: int| 0 <= k < d.len() && d[k] == x;
            assert(s[k] == x);
        }
    }
}

/// `bytes` with the `size` bytes of row `row` replaced by `v`.
pub open spec fn with_row(bytes: Seq<u8>, size: nat, row: nat, v: Seq<u8>) -> Seq<u8> {
    bytes.subrange(0, (row * size) as int) + v + bytes.subrange((row * size + size) as int, bytes.len() as int)
}

/// The `size` bytes of row `row` of `bytes`.
pub open spec fn row_of(bytes: Seq<u8>, size: nat, row: nat) -> Seq<u8> {
    bytes.subrange((row * size) as int, (row * size + size) as int)
}

proof fn lemma_row_fits(rows: nat, size: nat, row: nat)
    requires
        row < rows,
    ensures
        row * size + size <= rows * size,
{
    assert(row * size + size == (row + 1) * size) by (nonlinear_arith);
    assert((row + 1) * size <= rows * size) by (nonlinear_arith)
        requires row + 1 <= rows;
}

/// Packed rows of one component.
struct Column {
    elem_size: usize,
    elem_align: usize,
    bytes: Vec<u8>,
}

impl Column {
    fn new(meta: &ComponentMeta) -> (c: Self)
        ensures
            c.elem_size == meta.size,
            c.bytes@ == Seq::<u8>::empty(),
    {
        Column { elem_size: meta.size, elem_align: meta.align, bytes: Vec::new() }
    }

    /// One more row of zero bytes.
    fn grow_one(&mut self)
        requires
            old(self).bytes@.len() + old(self).elem_size <= usize::MAX,
        ensures
            final(self).elem_size == old(self).elem_size,
            final(self).bytes@ == old(self).bytes@ + Seq::new(old(self).elem_size as nat, |i: int| 0u8),
    {
        let ghost b0 = self.bytes@;
        let mut k: usize = 0;
        while k < self.elem_size
            invariant
                k <= self.elem_size,
                self.elem_size == old(self).elem_size,
                b0 == old(self).bytes@,
                b0.len() + self.elem_size <= usize::MAX,
                self.bytes@ == b0 + Seq::new(k as nat, |i: int| 0u8),
            decreases self.elem_size - k,
        {
            self.bytes.push(0u8);
            k = k + 1;
            assert(self.bytes@ =~= b0 + Seq::new(k as nat, |i: int| 0u8));
        }
    }

    /// Overwrite row `row` with `src`, exactly `elem_size` bytes.
    fn write_row(&mut self, row: usize, src: &[u8])
        requires
            row * old(self).elem_size + old(self).elem_size <= old(self).bytes@.len(),
            src@.len() == old(self).elem_size,
        ensures
            final(self).elem_size == old(self).elem_size,
            final(self).bytes@ == with_row(old(self).bytes@, old(self).elem_size as nat, row as nat, src@),
    {
        let size = self.elem_size;
        let blen = self.bytes.len();
        assert(row * size <= blen);
        let start = row * size;
        let ghost b0 = self.bytes@;
        let mut k: usize = 0;
        while k < size
            invariant
                k <= size,
                size == self.elem_size,
                start == row * size,
                start + size <= b0.len(),
                b0.len() <= usize::MAX,
                src@.len() == size,
                self.bytes@.len() == b0.len(),
                forall|i: int| 0 <= i < b0.len() ==> #[trigger] self.bytes@[i] == if start <= i < start + k {
                    src@[i - start]
                } else {
                    b0[i]
                },
            decreases size - k,
        {
            self.bytes.set(start + k, src[k]);
            k = k + 1;
        }
        assert(self.bytes@ =~= with_row(b0, size as nat, row as nat, src@));
    }
}

/// The rows of one archetype: a byte column per component, the id of the
/// entity in each row, and the rows freed for reuse.
pub struct ArchetypeStorage {
    pub archetype: Archetype,
    columns: Vec<(ComponentId, Column)>,
    len: usize,
    free: Vec<usize>,
    entity_ids: Vec<Option<u64>>,
}

impl ArchetypeStorage {
    /// The archetype whose rows the storage holds.
    pub closed spec fn spec_archetype(&self) -> Archetype {
        self.archetype
    }

    /// Component of each column, in column order.
    pub closed spec fn col_ids(&self) -> Seq<ComponentId> {
        self.columns@.map_values(|c: (ComponentId, Column)| c.0)
    }

    /// Bytes per row of each column.
    pub closed spec fn col_sizes(&self) -> Seq<usize> {
        self.columns@.map_values(|c: (ComponentId, Column)| c.1.elem_size)
    }

    /// Contents of each column.
    pub closed spec fn col_bytes(&self) -> Seq<Seq<u8>> {
        self.columns@.map_values(|c: (ComponentId, Column)| c.1.bytes@)
    }

    /// Rows ever allocated, freed ones included.
    pub closed spec fn rows(&self) -> nat {
        self.len as nat
    }

    /// Freed rows, the next one to reuse last.
    pub closed spec fn free_rows(&self) -> Seq<usize> {
        self.free@
    }

    /// The entity id recorded in each row.
    pub closed spec fn owners(&self) -> Seq<Option<u64>> {
        self.entity_ids@
    }

    pub open spec fn wf(&self) -> bool {
        &&& self.col_sizes().len() == self.col_ids().len()
        &&& self.col_bytes().len() == self.col_ids().len()
        &&& self.owners().len() == self.rows()
        &&& self.col_ids().no_duplicates()
        &&& forall|k: int| 0 <= k < self.col_ids().len() ==> (#[trigger] self.col_bytes()[k]).len() == self.rows()
            * self.col_sizes()[k]
        &&& forall|i: int| 0 <= i < self.free_rows().len() ==> (#[trigger] self.free_rows()[i]) < self.rows()
    }

    /// One more row fits in every column.
    pub open spec fn has_room(&self) -> bool {
        &&& self.rows() < usize::MAX
        &&& forall|k: int| 0 <= k < self.col_ids().len() ==> (self.rows() + 1) * (#[trigger] self.col_sizes()[k])
            <= usize::MAX
    }

    proof fn lemma_views(&self)
        ensures
            self.col_ids().len() == self.columns@.len(),
            self.col_sizes().len() == self.columns@.len(),
            self.col_bytes().len() == self.columns@.len(),
            forall|k: int| 0 <= k < self.columns@.len() ==> #[trigger] self.col_ids()[k] == self.columns@[k].0
                && self.col_sizes()[k] == self.columns@[k].1.elem_size && self.col_bytes()[k]
                == self.columns@[k].1.bytes@,
    {
    }

    fn new(archetype: Archetype) -> (s: Self)
        ensures
            s.wf(),
            s.spec_archetype() == archetype,
            s.col_ids() == Seq::<ComponentId>::empty(),
            s.rows() == 0,
            s.free_rows() == Seq::<usize>::empty(),
    {
        let s = ArchetypeStorage { archetype, columns: Vec::new(), len: 0, free: Vec::new(), entity_ids: Vec::new() };
        proof {
            s.lemma_views();
        }
        assert(s.col_ids() =~= Seq::<ComponentId>::empty());
        s
    }

    fn find_column(&self, cid: ComponentId) -> (r: Option<usize>)
        requires
            self.wf(),
        ensures
            match r {
                Some(k) => k < self.col_ids().len() && k == pos_in(self.col_ids(), cid) && self.col_ids()[k as int] == cid
                    && self.col_ids().contains(cid),
                None => !self.col_ids().contains(cid) && pos_in(self.col_ids(), cid) == -1,
            },
    {
        proof {
            self.lemma_views();
        }
        let mut k: usize = 0;
        while k < self.columns.len()
            invariant
                k <= self.columns@.len(),
                self.wf(),
                self.col_ids().len() == self.columns@.len(),
                forall|j: int| 0 <= j < k ==> #[trigger] self.col_ids()[j] != cid,
            decreases self.columns@.len() - k,
        {
            if self.columns[k].0 == cid {
                proof {
                    self.lemma_views();
                    lemma_pos_in(self.col_ids(), cid, k as int);
                }
                return Some(k);
            }
            proof {
                self.lemma_views();
            }
            k = k + 1;
        }
        proof {
            if self.col_ids().contains(cid) {
                let j = choose|j: int| 0 <= j < self.col_ids().len() && self.col_ids()[j] == cid;
                assert(self.col_ids()[j] != cid);
            }
            lemma_pos_in(self.col_ids(), cid, 0);
        }
        None
    }
}

/// Column contents after allocating a row: either unchanged (a freed row
/// is reused) or each grown by a row of zero bytes.
pub open spec fn grown(bytes: Seq<Seq<u8>>, sizes: Seq<usize>, reuse: bool) -> Seq<Seq<u8>> {
    if reuse {
        bytes
    } else {
        Seq::new(bytes.len(), |k: int| bytes[k] + Seq::new(sizes[k] as nat, |i: int| 0u8))
    }
}

impl ArchetypeStorage {
    /// Add a column for `meta`'s component unless there is one. A column is
    /// only ever added while the storage has no rows.
    fn ensure_column(&mut self, cid: ComponentId, meta: &ComponentMeta)
        requires
            old(self).wf(),
            old(self).col_ids().contains(cid) || old(self).rows() == 0,
        ensures
            final(self).wf(),
            final(self).spec_archetype() == old(self).spec_archetype(),
            final(self).rows() == old(self).rows(),
            final(self).free_rows() == old(self).free_rows(),
            final(self).owners() == old(self).owners(),
            old(self).col_ids().contains(cid) ==> *final(self) == *old(self),
            !old(self).col_ids().contains(cid) ==> {
                &&& final(self).col_ids() == old(self).col_ids().push(cid)
                &&& final(self).col_sizes() == old(self).col_sizes().push(meta.size)
                &&& final(self).col_bytes() == old(self).col_bytes().push(Seq::empty())
            },
    {
        match self.find_column(cid) {
            Some(_) => {},
            None => {
                let ghost before = *self;
                self.columns.push((cid, Column::new(meta)));
                proof {
                    before.lemma_views();
                    self.lemma_views();
                    assert(self.free_rows() == before.free_rows());
                    assert(self.owners() == before.owners());
                    assert(self.rows() == before.rows());
                    assert(self.col_ids() =~= before.col_ids().push(cid));
                    assert(self.col_sizes() =~= before.col_sizes().push(meta.size));
                    assert(self.col_bytes() =~= before.col_bytes().push(Seq::empty()));
                    assert forall|i: int, j: int| 0 <= i < j < self.col_ids().len() implies self.col_ids()[i]
                        != self.col_ids()[j] by {
                        if j == before.col_ids().len() {
                            assert(before.col_ids()[i] != cid);
                        }
                    }
                    assert forall|k: int| 0 <= k < self.col_ids().len() implies (#[trigger] self.col_bytes()[k]).len()
                        == self.rows() * self.col_sizes()[k] by {
                        if k == before.col_ids().len() {
                            assert(self.rows() == 0);
                            assert(0 * self.col_sizes()[k] == 0) by (nonlinear_arith);
                        }
                    }
                }
            },
        }
    }

    /// A row for a new entity: the last freed row when there is one, else a
    /// new row of zero bytes in every column. The row's entity id is unset.
    fn alloc_row(&mut self) -> (idx: usize)
        requires
            old(self).wf(),
            old(self).has_room(),
        ensures
            final(self).wf(),
            final(self).spec_archetype() == old(self).spec_archetype(),
            final(self).col_ids() == old(self).col_ids(),
            final(self).col_sizes() == old(self).col_sizes(),
            ({
                let reuse = old(self).free_rows().len() > 0;
                &&& final(self).col_bytes() == grown(old(self).col_bytes(), old(self).col_sizes(), reuse)
                &&& if reuse {
                    &&& idx == old(self).free_rows().last()
                    &&& final(self).free_rows() == old(self).free_rows().drop_last()
                    &&& final(self).rows() == old(self).rows()
                    &&& final(self).owners() == old(self).owners().update(idx as int, None)
                } else {
                    &&& idx == old(self).rows()
                    &&& final(self).free_rows() == old(self).free_rows()
                    &&& final(self).rows() == old(self).rows() + 1
                    &&& final(self).owners() == old(self).owners().push(None)
                }
            }),
    {
        proof {
            self.lemma_views();
        }
        if self.free.len() > 0 {
            let idx = self.free.pop().unwrap();
            self.entity_ids.set(idx, None);
            proof {
                assert(self.col_bytes() == grown(old(self).col_bytes(), old(self).col_sizes(), true));
            }
            return idx;
        }
        let row = self.len;
        let ghost before = *self;
        let n = self.columns.len();
        let mut k: usize = 0;
        while k < n
            invariant
                k <= n,
                n == self.columns@.len(),
                n == before.columns@.len(),
                self.len == before.len,
                self.archetype == before.archetype,
                self.free@ == before.free@,
                self.entity_ids@ == before.entity_ids@,
                self.len < usize::MAX,
                before.wf(),
                before.has_room(),
                forall|j: int| 0 <= j < n ==> (#[trigger] self.columns@[j]).0 == before.columns@[j].0
                    && self.columns@[j].1.elem_size == before.columns@[j].1.elem_size,
                forall|j: int| 0 <= j < n ==> #[trigger] self.columns@[j].1.bytes@ == if j < k {
                    before.columns@[j].1.bytes@ + Seq::new(before.columns@[j].1.elem_size as nat, |i: int| 0u8)
                } else {
                    before.columns@[j].1.bytes@
                },
            decreases n - k,
        {
            proof {
                before.lemma_views();
                assert(before.col_bytes()[k as int].len() == before.len * before.col_sizes()[k as int]);
                assert((before.len + 1) * before.col_sizes()[k as int] <= usize::MAX);
                assert(before.len * before.col_sizes()[k as int] + before.col_sizes()[k as int] == (before.len + 1)
                    * before.col_sizes()[k as int]) by (nonlinear_arith);
            }
            self.columns[k].1.grow_one();
            k = k + 1;
        }
        self.entity_ids.push(None);
        self.len = row + 1;
        proof {
            before.lemma_views();
            self.lemma_views();
            assert(self.col_ids() =~= before.col_ids());
            assert(self.col_sizes() =~= before.col_sizes());
            assert(self.col_bytes() =~= grown(before.col_bytes(), before.col_sizes(), false));
            assert forall|k: int| 0 <= k < self.col_ids().len() implies (#[trigger] self.col_bytes()[k]).len()
                == self.rows() * self.col_sizes()[k] by {
                let sz = before.col_sizes()[k];
                assert(before.col_bytes()[k].len() == before.len * sz);
                assert(before.len * sz + sz == (before.len + 1) * sz) by (nonlinear_arith);
            }
        }
        row
    }

    /// Return row `idx`, which must exist, to the pool and clear its entity
    /// id.
    fn free_row(&mut self, idx: usize)
        requires
            old(self).wf(),
            idx < old(self).rows(),
        ensures
            final(self).wf(),
            final(self).spec_archetype() == old(self).spec_archetype(),
            final(self).col_ids() == old(self).col_ids(),
            final(self).col_sizes() == old(self).col_sizes(),
            final(self).col_bytes() == old(self).col_bytes(),
            final(self).rows() == old(self).rows(),
            final(self).free_rows() == old(self).free_rows().push(idx),
            final(self).owners() == old(self).owners().update(idx as int, None),
    {
        self.entity_ids.set(idx, None);
        self.free.push(idx);
        proof {
            assert forall|i: int| 0 <= i < self.free_rows().len() implies (#[trigger] self.free_rows()[i]) < self.rows() by {
                if i < old(self).free_rows().len() {
                    assert(self.free_rows()[i] == old(self).free_rows()[i]);
                }
            }
        }
    }

    /// Write `bytes` into row `row` of the column of `cid`.
    fn write_component(&mut self, row: usize, cid: ComponentId, bytes: &[u8])
        requires
            old(self).wf(),
            row < old(self).rows(),
            old(self).col_ids().contains(cid),
            bytes@.len() == old(self).col_sizes()[pos_in(old(self).col_ids(), cid)],
        ensures
            final(self).wf(),
            final(self).spec_archetype() == old(self).spec_archetype(),
            final(self).col_ids() == old(self).col_ids(),
            final(self).col_sizes() == old(self).col_sizes(),
            final(self).rows() == old(self).rows(),
            final(self).free_rows() == old(self).free_rows(),
            final(self).owners() == old(self).owners(),
            ({
                let k = pos_in(old(self).col_ids(), cid);
                final(self).col_bytes() == old(self).col_bytes().update(
                    k,
                    with_row(old(self).col_bytes()[k], old(self).col_sizes()[k] as nat, row as nat, bytes@),
                )
            }),
    {
        proof {
            self.lemma_views();
        }
        let k = match self.find_column(cid) {
            Some(k) => k,
            None => {
                assert(false);
                0
            },
        };
        let ghost before = *self;
        proof {
            lemma_row_fits(self.rows(), self.col_sizes()[k as int] as nat, row as nat);
        }
        self.columns[k].1.write_row(row, bytes);
        proof {
            before.lemma_views();
            self.lemma_views();
            let sz = before.col_sizes()[k as int];
            assert(self.free_rows() == before.free_rows());
            assert(self.owners() == before.owners());
            assert(self.col_ids() =~= before.col_ids());
            assert(self.col_sizes() =~= before.col_sizes());
            assert(self.col_bytes() =~= before.col_bytes().update(
                k as int,
                with_row(before.col_bytes()[k as int], sz as nat, row as nat, bytes@),
            ));
        }
    }

    /// Record `eid` as the entity of row `row`.
    fn set_entity(&mut self, row: usize, eid: u64)
        requires
            old(self).wf(),
            row < old(self).rows(),
        ensures
            final(self).wf(),
            final(self).spec_archetype() == old(self).spec_archetype(),
            final(self).col_ids() == old(self).col_ids(),
            final(self).col_sizes() == old(self).col_sizes(),
            final(self).col_bytes() == old(self).col_bytes(),
            final(self).rows() == old(self).rows(),
            final(self).free_rows() == old(self).free_rows(),
            final(self).owners() == old(self).owners().update(row as int, Some(eid)),
    {
        self.entity_ids.set(row, Some(eid));
        assert(self.free_rows() == old(self).free_rows());
    }

    /// The entity id recorded in row `row`, if any.
    pub fn entity_at(&self, row: usize) -> (r: Option<u64>)
        requires
            self.wf(),
        ensures
            r == (if row < self.rows() { self.owners()[row as int] } else { None }),
    {
        if row < self.entity_ids.len() {
            self.entity_ids[row]
        } else {
            None
        }
    }

    /// The bytes of row `row` in the column of `cid`; `None` when the
    /// storage has no such column. In an existing column the row must
    /// exist.
    pub fn row_bytes(&self, cid: ComponentId, row: usize) -> (r: Option<&[u8]>)
        requires
            self.wf(),
            self.col_ids().contains(cid) ==> row < self.rows(),
        ensures
            match r {
                Some(s) => {
                    let k = pos_in(self.col_ids(), cid);
                    &&& self.col_ids().contains(cid)
                    &&& s@ == row_of(self.col_bytes()[k], self.col_sizes()[k] as nat, row as nat)
                },
                None => !self.col_ids().contains(cid),
            },
    {
        proof {
            self.lemma_views();
        }
        match self.find_column(cid) {
            Some(k) => {
                let col = &self.columns[k].1;
                let size = col.elem_size;
                proof {
                    lemma_row_fits(self.rows(), size as nat, row as nat);
                    assert(col.bytes@.len() <= usize::MAX) by {
                        assert(col.bytes@.len() == col.bytes.len());
                    }
                }
                let start = row * size;
                Some(vstd::slice::slice_subrange(col.bytes.as_slice(), start, start + size))
            },
            None => None,
        }
    }

    /// Every row of the column of `cid`, one after another; `None` when the
    /// storage has no such column.
    pub fn column_as_slice(&self, cid: ComponentId) -> (r: Option<&[u8]>)
        requires
            self.wf(),
        ensures
            match r {
                Some(s) => self.col_ids().contains(cid) && s@ == self.col_bytes()[pos_in(self.col_ids(), cid)],
                None => !self.col_ids().contains(cid),
            },
    {
        proof {
            self.lemma_views();
        }
        match self.find_column(cid) {
            Some(k) => Some(self.columns[k].1.bytes.as_slice()),
            None => None,
        }
    }

    /// Rows in use: allocated rows less freed ones. The pool must not hold
    /// more freed rows than were allocated (as after freeing a row twice).
    pub fn len(&self) -> (n: usize)
        requires
            self.wf(),
            self.free_rows().len() <= self.rows(),
        ensures
            n == self.rows() - self.free_rows().len(),
    {
        self.len - self.free.len()
    }
}

/// Raw bytes of one component of an entity.
pub struct ComponentRef<'a> {
    pub cid: ComponentId,
    pub bytes: &'a [u8],
}

/// Archetype ids, among `ids` paired with `stores`, whose archetype holds
/// component `cid`, in order.
pub open spec fn ids_with(ids: Seq<ArchetypeId>, stores: Seq<ArchetypeStorage>, cid: ComponentId) -> Seq<ArchetypeId>
    decreases ids.len(),
{
    if ids.len() == 0 || stores.len() == 0 {
        Seq::empty()
    } else {
        let rest = ids_with(ids.drop_last(), stores.drop_last(), cid);
        if stores.last().spec_archetype().components@.contains(cid) {
            rest.push(ids.last())
        } else {
            rest
        }
    }
}

/// Archetype storages keyed by archetype id, and the next entity id.
pub struct World {
    next_entity_id: u64,
    storages: Vec<(ArchetypeId, ArchetypeStorage)>,
}

impl World {
    pub closed spec fn next_id(&self) -> u64 {
        self.next_entity_id
    }

    /// Archetype ids of the storages, in creation order.
    pub closed spec fn arch_ids(&self) -> Seq<ArchetypeId> {
        self.storages@.map_values(|e: (ArchetypeId, ArchetypeStorage)| e.0)
    }

    /// The storages, in creation order.
    pub closed spec fn stores(&self) -> Seq<ArchetypeStorage> {
        self.storages@.map_values(|e: (ArchetypeId, ArchetypeStorage)| e.1)
    }

    /// Each storage is keyed by the id of its archetype, once, and holds a
    /// column for each component of its archetype, in order.
    pub open spec fn wf(&self) -> bool {
        &&& self.arch_ids().len() == self.stores().len()
        &&& self.arch_ids().no_duplicates()
        &&& forall|k: int| 0 <= k < self.stores().len() ==> {
            let s = #[trigger] self.stores()[k];
            &&& s.wf()
            &&& s.spec_archetype().wf()
            &&& s.spec_archetype().id == self.arch_ids()[k]
            &&& s.col_ids() == s.spec_archetype().components@
        }
    }

    proof fn lemma_views(&self)
        ensures
            self.arch_ids().len() == self.storages@.len(),
            self.stores().len() == self.storages@.len(),
            forall|k: int| 0 <= k < self.storages@.len() ==> #[trigger] self.arch_ids()[k] == self.storages@[k].0
                && self.stores()[k] == self.storages@[k].1,
    {
    }

    /// An empty world whose first entity gets id 1.
    pub fn new() -> (w: Self)
        ensures
            w.wf(),
            w.next_id() == 1,
            w.arch_ids() == Seq::<ArchetypeId>::empty(),
    {
        let w = World { next_entity_id: 1, storages: Vec::new() };
        assert(w.arch_ids() =~= Seq::<ArchetypeId>::empty());
        assert(w.stores() =~= Seq::<ArchetypeStorage>::empty());
        w
    }

    fn find_storage(&self, aid: ArchetypeId) -> (r: Option<usize>)
        requires
            self.wf(),
        ensures
            match r {
                Some(k) => k < self.arch_ids().len() && self.arch_ids()[k as int] == aid && pos_in(self.arch_ids(), aid)
                    == k,
                None => !self.arch_ids().contains(aid) && pos_in(self.arch_ids(), aid) == -1,
            },
    {
        proof {
            self.lemma_views();
        }
        let mut k: usize = 0;
        while k < self.storages.len()
            invariant
                k <= self.storages@.len(),
                self.wf(),
                self.arch_ids().len() == self.storages@.len(),
                forall|j: int| 0 <= j < k ==> #[trigger] self.arch_ids()[j] != aid,
            decreases self.storages@.len() - k,
        {
            proof {
                self.lemma_views();
            }
            if self.storages[k].0 == aid {
                proof {
                    lemma_pos_in(self.arch_ids(), aid, k as int);
                }
                return Some(k);
            }
            k = k + 1;
        }
        proof {
            if self.arch_ids().contains(aid) {
                let j = choose|j: int| 0 <= j < self.arch_ids().len() && self.arch_ids()[j] == aid;
                assert(self.arch_ids()[j] != aid);
            }
            lemma_pos_in(self.arch_ids(), aid, 0);
        }
        None
    }

    /// Ids of the archetypes that hold component `cid`, in creation order.
    pub fn archetypes_with(&self, cid: ComponentId) -> (v: Vec<ArchetypeId>)
        requires
            self.wf(),
        ensures
            v@ == ids_with(self.arch_ids(), self.stores(), cid),
    {
        proof {
            self.lemma_views();
        }
        let mut v: Vec<ArchetypeId> = Vec::new();
        let mut k: usize = 0;
        while k < self.storages.len()
            invariant
                k <= self.storages@.len(),
                self.wf(),
                self.arch_ids().len() == self.storages@.len(),
                self.stores().len() == self.storages@.len(),
                v@ == ids_with(self.arch_ids().take(k as int), self.stores().take(k as int), cid),
            decreases self.storages@.len() - k,
        {
            proof {
                self.lemma_views();
                assert(self.arch_ids().take(k + 1).drop_last() =~= self.arch_ids().take(k as int));
                assert(self.stores().take(k + 1).drop_last() =~= self.stores().take(k as int));
                assert(self.stores().take(k + 1).last() == self.stores()[k as int]);
                assert(self.arch_ids().take(k + 1).last() == self.arch_ids()[k as int]);
            }
            let st = &self.storages[k];
            if st.1.archetype.contains(cid) {
                v.push(st.0);
            }
            k = k + 1;
        }
        proof {
            assert(self.arch_ids().take(k as int) =~= self.arch_ids());
            assert(self.stores().take(k as int) =~= self.stores());
        }
        v
    }

    /// All storages, in creation order.
    pub fn archetypes(&self) -> (v: Vec<&ArchetypeStorage>)
        ensures
            v@.len() == self.stores().len(),
            forall|k: int| 0 <= k < v@.len() ==> *v@[k] == self.stores()[k],
    {
        proof {
            self.lemma_views();
        }
        let mut v: Vec<&ArchetypeStorage> = Vec::new();
        let mut k: usize = 0;
        while k < self.storages.len()
            invariant
                k <= self.storages@.len(),
                self.stores().len() == self.storages@.len(),
                v@.len() == k,
                forall|j: int| 0 <= j < k ==> *v@[j] == self.stores()[j],
            decreases self.storages@.len() - k,
        {
            proof {
                self.lemma_views();
            }
            v.push(&self.storages[k].1);
            k = k + 1;
        }
        v
    }
}

/// `s1` is `s0` with row `idx` returned to the pool and its entity id
/// cleared.
pub open spec fn freed(s0: ArchetypeStorage, s1: ArchetypeStorage, idx: usize) -> bool {
    &&& s1.spec_archetype() == s0.spec_archetype()
    &&& s1.col_ids() == s0.col_ids()
    &&& s1.col_sizes() == s0.col_sizes()
    &&& s1.col_bytes() == s0.col_bytes()
    &&& s1.rows() == s0.rows()
    &&& s1.free_rows() == s0.free_rows().push(idx)
    &&& s1.owners() == s0.owners().update(idx as int, None)
}

impl World {
    /// Return the row of `e` to its storage's pool. An entity whose
    /// archetype has no storage is ignored. The row must exist in the
    /// storage; freeing a row twice is not checked.
    pub fn despawn(&mut self, e: Entity)
        requires
            old(self).wf(),
            pos_in(old(self).arch_ids(), e.archetype) >= 0 ==> e.index < old(self).stores()[pos_in(
                old(self).arch_ids(),
                e.archetype,
            )].rows(),
        ensures
            final(self).wf(),
            final(self).next_id() == old(self).next_id(),
            final(self).arch_ids() == old(self).arch_ids(),
            ({
                let k = pos_in(old(self).arch_ids(), e.archetype);
                if k >= 0 {
                    &&& final(self).stores().len() == old(self).stores().len()
                    &&& forall|j: int| 0 <= j < old(self).stores().len() && j != k ==> #[trigger] final(self).stores()[j]
                        == old(self).stores()[j]
                    &&& freed(old(self).stores()[k], final(self).stores()[k], e.index)
                } else {
                    final(self).stores() == old(self).stores()
                }
            }),
    {
        proof {
            self.lemma_views();
        }
        match self.find_storage(e.archetype) {
            Some(k) => {
                let ghost before = *self;
                let (aid, mut st) = self.storages.remove(k);
                st.free_row(e.index);
                self.storages.insert(k, (aid, st));
                proof {
                    before.lemma_views();
                    self.lemma_views();
                    assert(self.storages@ == before.storages@.update(k as int, (aid, st)));
                    assert(self.arch_ids() =~= before.arch_ids());
                    assert(self.stores() =~= before.stores().update(k as int, st));
                    assert forall|j: int| 0 <= j < self.stores().len() implies {
                        let s = #[trigger] self.stores()[j];
                        &&& s.wf()
                        &&& s.spec_archetype().wf()
                        &&& s.spec_archetype().id == self.arch_ids()[j]
                        &&& s.col_ids() == s.spec_archetype().components@
                    } by {
                        if j != k {
                            assert(self.stores()[j] == before.stores()[j]);
                        }
                    }
                }
            },
            None => {},
        }
    }

    /// Raw bytes of each component of `e`, in the archetype's component
    /// order; empty when the archetype has no storage. The row must exist in
    /// the storage.
    pub fn components_of_entity_raw(&self, e: Entity) -> (v: Vec<ComponentRef<'_>>)
        requires
            self.wf(),
            pos_in(self.arch_ids(), e.archetype) >= 0 ==> e.index < self.stores()[pos_in(
                self.arch_ids(),
                e.archetype,
            )].rows(),
        ensures
            ({
                let k = pos_in(self.arch_ids(), e.archetype);
                if k >= 0 {
                    let s = self.stores()[k];
                    &&& v@.len() == s.col_ids().len()
                    &&& forall|i: int| 0 <= i < v@.len() ==> (#[trigger] v@[i]).cid == s.col_ids()[i] && v@[i].bytes@
                        == row_of(s.col_bytes()[i], s.col_sizes()[i] as nat, e.index as nat)
                } else {
                    v@.len() == 0
                }
            }),
    {
        proof {
            self.lemma_views();
        }
        let mut v: Vec<ComponentRef<'_>> = Vec::new();
        let k = match self.find_storage(e.archetype) {
            Some(k) => k,
            None => {
                return v;
            },
        };
        let s = &self.storages[k].1;
        proof {
            assert(*s == self.stores()[k as int]);
        }
        let comps = &s.archetype.components;
        let mut i: usize = 0;
        while i < comps.len()
            invariant
                i <= comps@.len(),
                s.wf(),
                comps@ == s.col_ids(),
                e.index < s.rows(),
                v@.len() == i,
                forall|j: int| 0 <= j < i ==> (#[trigger] v@[j]).cid == s.col_ids()[j] && v@[j].bytes@ == row_of(
                    s.col_bytes()[j],
                    s.col_sizes()[j] as nat,
                    e.index as nat,
                ),
            decreases comps@.len() - i,
        {
            let cid = comps[i];
            proof {
                lemma_pos_in(s.col_ids(), cid, i as int);
                assert(s.col_ids().contains(cid));
            }
            match s.row_bytes(cid, e.index) {
                Some(b) => {
                    v.push(ComponentRef { cid, bytes: b });
                },
                None => {
                    assert(false);
                },
            }
            i = i + 1;
        }
        v
    }
}

impl World {
    /// Every row of the column of `cid` in the storage of archetype `a`;
    /// `None` when there is no such storage or column.
    pub fn column(&self, a: ArchetypeId, cid: ComponentId) -> (r: Option<&[u8]>)
        requires
            self.wf(),
        ensures
            ({
                let k = pos_in(self.arch_ids(), a);
                if k >= 0 && self.stores()[k].col_ids().contains(cid) {
                    let s = self.stores()[k];
                    r matches Some(b) && b@ == s.col_bytes()[pos_in(s.col_ids(), cid)]
                } else {
                    r is None
                }
            }),
    {
        proof {
            self.lemma_views();
        }
        match self.find_storage(a) {
            Some(k) => {
                proof {
                    assert(self.stores()[k as int].wf());
                }
                self.storages[k].1.column_as_slice(cid)
            },
            None => None,
        }
    }

    /// The bytes of component `cid` of entity `e`; `None` when its
    /// archetype has no storage or no such column. The row must exist.
    pub fn get_component(&self, e: Entity, cid: ComponentId) -> (r: Option<&[u8]>)
        requires
            self.wf(),
            pos_in(self.arch_ids(), e.archetype) >= 0 ==> e.index < self.stores()[pos_in(
                self.arch_ids(),
                e.archetype,
            )].rows(),
        ensures
            ({
                let k = pos_in(self.arch_ids(), e.archetype);
                if k >= 0 && self.stores()[k].col_ids().contains(cid) {
                    let s = self.stores()[k];
                    let c = pos_in(s.col_ids(), cid);
                    r matches Some(b) && b@ == row_of(s.col_bytes()[c], s.col_sizes()[c] as nat, e.index as nat)
                } else {
                    r is None
                }
            }),
    {
        proof {
            self.lemma_views();
        }
        match self.find_storage(e.archetype) {
            Some(k) => {
                proof {
                    assert(self.stores()[k as int].wf());
                }
                self.storages[k].1.row_bytes(cid, e.index)
            },
            None => None,
        }
    }
}

impl Default for World {
    /// An empty world whose first entity gets id 0.
    fn default() -> (w: Self)
        ensures
            w.wf(),
            w.next_id() == 0,
            w.arch_ids() == Seq::<ArchetypeId>::empty(),
    {
        let w = World { next_entity_id: 0, storages: Vec::new() };
        assert(w.arch_ids() =~= Seq::<ArchetypeId>::empty());
        assert(w.stores() =~= Seq::<ArchetypeStorage>::empty());
        w
    }
}

/// The sorted, duplicate-free component ids of builder entries `es`.
pub open spec fn sorted_ids(es: Seq<(ComponentId, Seq<u8>)>) -> Seq<ComponentId> {
    choose|s: Seq<ComponentId>| is_sorted_set_of(s, entry_ids(es))
}

proof fn lemma_sorted_ids(es: Seq<(ComponentId, Seq<u8>)>, s: Seq<ComponentId>)
    requires
        is_sorted_set_of(s, entry_ids(es)),
    ensures
        sorted_ids(es) == s,
{
    let t = sorted_ids(es);
    assert(is_sorted_set_of(t, entry_ids(es)));
    lemma_sorted_set_unique(s, t);
}

/// Each entry of component `id` that `es` lists has bytes of length
/// `size(id)`.
proof fn lemma_entry_len(es: Seq<(ComponentId, Seq<u8>)>, id: ComponentId)
    requires
        entry_ids(es).no_duplicates(),
        entry_ids(es).contains(id),
    ensures
        0 <= entry_index(es, id) < es.len(),
        es[entry_index(es, id)].0 == id,
        entry_bytes(es, id) == es[entry_index(es, id)].1,
{
    let j = choose|j: int| 0 <= j < entry_ids(es).len() && entry_ids(es)[j] == id;
    lemma_entry_index(es, id, j);
}

/// Spawning into the existing storage `s0` left `s1`: row `row` (the last
/// freed row, else a new one) holds entity `eid` and, in each column, the
/// bytes that `es` gives for the column's component.
pub open spec fn spawned_into(
    s0: ArchetypeStorage,
    s1: ArchetypeStorage,
    row: usize,
    eid: u64,
    es: Seq<(ComponentId, Seq<u8>)>,
) -> bool {
    let reuse = s0.free_rows().len() > 0;
    let g = grown(s0.col_bytes(), s0.col_sizes(), reuse);
    &&& s1.spec_archetype() == s0.spec_archetype()
    &&& s1.col_ids() == s0.col_ids()
    &&& s1.col_sizes() == s0.col_sizes()
    &&& if reuse {
        &&& row == s0.free_rows().last()
        &&& s1.free_rows() == s0.free_rows().drop_last()
        &&& s1.rows() == s0.rows()
        &&& s1.owners() == s0.owners().update(row as int, Some(eid))
    } else {
        &&& row == s0.rows()
        &&& s1.free_rows() == s0.free_rows()
        &&& s1.rows() == s0.rows() + 1
        &&& s1.owners() == s0.owners().push(Some(eid))
    }
    &&& s1.col_bytes().len() == s0.col_bytes().len()
    &&& forall|c: int| 0 <= c < s0.col_ids().len() ==> #[trigger] s1.col_bytes()[c] == with_row(
        g[c],
        s0.col_sizes()[c] as nat,
        row as nat,
        entry_bytes(es, s0.col_ids()[c]),
    )
}

/// `s1` is a new storage for the components `ids`, with layouts from
/// `recs`, whose one row `0` holds entity `eid` and the bytes of `es`.
pub open spec fn spawned_fresh(
    s1: ArchetypeStorage,
    ids: Seq<ComponentId>,
    recs: Map<ComponentId, (ComponentId, Seq<char>, usize, usize)>,
    row: usize,
    eid: u64,
    es: Seq<(ComponentId, Seq<u8>)>,
) -> bool {
    &&& s1.spec_archetype().components@ == ids
    &&& s1.spec_archetype().id == archetype_hash(ids)
    &&& s1.col_ids() == ids
    &&& s1.col_sizes().len() == ids.len()
    &&& forall|c: int| 0 <= c < ids.len() ==> #[trigger] s1.col_sizes()[c] == recs[ids[c]].2
    &&& row == 0
    &&& s1.rows() == 1
    &&& s1.free_rows() == Seq::<usize>::empty()
    &&& s1.owners() == seq![Some(eid)]
    &&& s1.col_bytes().len() == ids.len()
    &&& forall|c: int| 0 <= c < ids.len() ==> #[trigger] s1.col_bytes()[c] == entry_bytes(es, ids[c])
}

impl World {
    /// What `spawn` needs to run through: a fresh entity id, every component
    /// registered, and either a new archetype whose entries have their
    /// registered sizes, or the storage of the archetype, holding exactly
    /// these components, with room for a row and columns of the entries'
    /// sizes.
    pub open spec fn spawn_admits(
        &self,
        recs: Map<ComponentId, (ComponentId, Seq<char>, usize, usize)>,
        es: Seq<(ComponentId, Seq<u8>)>,
    ) -> bool {
        let ids = sorted_ids(es);
        let k = pos_in(self.arch_ids(), archetype_hash(ids));
        &&& self.next_id() < u64::MAX
        &&& forall|i: int| 0 <= i < ids.len() ==> recs.contains_key(#[trigger] ids[i])
        &&& if k >= 0 {
            let s = self.stores()[k];
            &&& s.spec_archetype().components@ == ids
            &&& s.has_room()
            &&& forall|j: int| 0 <= j < es.len() ==> (#[trigger] es[j]).1.len() == s.col_sizes()[pos_in(s.col_ids(), es[j].0)]
        } else {
            forall|j: int| 0 <= j < es.len() ==> (#[trigger] es[j]).1.len() == recs[es[j].0].2
        }
    }
}

/// `new` is `old` after spawning entity `e` from builder entries `es`,
/// with layouts from `recs`.
pub open spec fn spawn_outcome(
    old: World,
    new: World,
    recs: Map<ComponentId, (ComponentId, Seq<char>, usize, usize)>,
    es: Seq<(ComponentId, Seq<u8>)>,
    e: Entity,
) -> bool {
    let ids = sorted_ids(es);
    let aid = archetype_hash(ids);
    let k = pos_in(old.arch_ids(), aid);
    &&& e.id == old.next_id()
    &&& new.next_id() == old.next_id() + 1
    &&& e.archetype == aid
    &&& if k >= 0 {
        &&& new.arch_ids() == old.arch_ids()
        &&& new.stores().len() == old.stores().len()
        &&& forall|j: int| 0 <= j < old.stores().len() && j != k ==> #[trigger] new.stores()[j] == old.stores()[j]
        &&& spawned_into(old.stores()[k], new.stores()[k], e.index, e.id, es)
    } else {
        &&& new.arch_ids() == old.arch_ids().push(aid)
        &&& new.stores().drop_last() == old.stores()
        &&& spawned_fresh(new.stores().last(), ids, recs, e.index, e.id, es)
    }
}

impl World {
    /// Spawn an entity from `builder`: a new entity id, and a row in the
    /// storage of the builder's archetype (created on first use, with a
    /// column per component laid out as `registry` records it) holding the
    /// builder's bytes. Every component must be registered, the bytes must
    /// have the column's size, and no storage of another component set may
    /// sit under the same archetype id
    /// (see [`try_spawn`](Self::try_spawn)).
    #[verifier::rlimit(40)]
    pub fn spawn(&mut self, registry: &ComponentTable, builder: EntityBuilder) -> (e: Entity)
        requires
            old(self).wf(),
            builder.wf(),
            old(self).spawn_admits(registry.records(), builder.entries()),
        ensures
            final(self).wf(),
            spawn_outcome(*old(self), *final(self), registry.records(), builder.entries(), e),
    {
        let ghost es = builder.entries();
        let ghost recs = registry.records();
        let archetype = builder.archetype();
        let aid = archetype.id;
        proof {
            lemma_sorted_ids(es, archetype.components@);
            self.lemma_views();
        }
        let ghost ids = archetype.components@;
        let found = self.find_storage(aid);
        let ghost before = *self;
        let mut st = match found {
            Some(k) => {
                let (_, s) = self.storages.remove(k);
                proof {
                    assert(s == before.stores()[k as int]);
                }
                s
            },
            None => ArchetypeStorage::new(archetype),
        };
        let ghost s0 = st;
        proof {
            if found is Some {
                assert(st.col_ids() == ids);
            }
        }
        let n = st.archetype.components.len();
        let mut i: usize = 0;
        while i < n
            invariant
                i <= n,
                n == ids.len(),
                st.wf(),
                st.archetype.components@ == ids,
                st.archetype == s0.archetype,
                strictly_sorted(ids),
                forall|c: int| 0 <= c < ids.len() ==> recs.contains_key(#[trigger] ids[c]),
                recs == registry.records(),
                found is Some ==> st == s0 && st.col_ids() == ids,
                found is None ==> {
                    &&& st.col_ids() == ids.take(i as int)
                    &&& forall|c: int| 0 <= c < i ==> #[trigger] st.col_sizes()[c] == recs[ids[c]].2
                    &&& forall|c: int| 0 <= c < i ==> #[trigger] st.col_bytes()[c] == Seq::<u8>::empty()
                    &&& st.rows() == 0
                    &&& st.free_rows() == Seq::<usize>::empty()
                    &&& st.owners() == Seq::<Option<u64>>::empty()
                },
            decreases n - i,
        {
            let cid = st.archetype.components[i];
            let meta = match registry.meta_of(cid) {
                Some(m) => m,
                None => {
                    assert(recs.contains_key(ids[i as int]));
                    assert(false);
                    return Entity { id: 0, archetype: 0, index: 0 };
                },
            };
            proof {
                if found is Some {
                    assert(st.col_ids()[i as int] == cid);
                }
                if found is None {
                    if st.col_ids().contains(cid) {
                        let c = choose|c: int| 0 <= c < st.col_ids().len() && st.col_ids()[c] == cid;
                        assert(ids[c] == ids[i as int]);
                    }
                }
            }
            let ghost sb = st;
            st.ensure_column(cid, &meta);
            proof {
                if found is None {
                    assert(st.col_ids() =~= ids.take(i + 1));
                    assert forall|c: int| 0 <= c < i + 1 implies #[trigger] st.col_sizes()[c] == recs[ids[c]].2 by {
                        if c < i {
                            assert(st.col_sizes()[c] == sb.col_sizes()[c]);
                        }
                    }
                    assert forall|c: int| 0 <= c < i + 1 implies #[trigger] st.col_bytes()[c] == Seq::<u8>::empty() by {
                        if c < i {
                            assert(st.col_bytes()[c] == sb.col_bytes()[c]);
                        }
                    }
                }
            }
            i = i + 1;
        }
        proof {
            if found is None {
                assert(ids.take(n as int) =~= ids);
                assert forall|k: int| 0 <= k < st.col_ids().len() implies (st.rows() + 1) * (#[trigger] st.col_sizes()[k])
                    <= usize::MAX by {
                    assert((0 + 1) * st.col_sizes()[k] == st.col_sizes()[k]) by (nonlinear_arith);
                }
            }
        }
        let ghost s1 = st;
        let id = self.next_entity_id;
        self.next_entity_id = id + 1;
        let row = st.alloc_row();
        let ghost s2 = st;
        let out = builder.into_components();
        proof {
            lemma_sorted_set_unique(out@.map_values(|e: (ComponentId, Vec<u8>)| e.0), ids);
            assert forall|c: int| 0 <= c < ids.len() implies (#[trigger] entry_bytes(es, ids[c])).len() == st.col_sizes()[c] by {
                assert(ids.to_set().contains(ids[c]));
                assert(entry_ids(es).to_set().contains(ids[c]));
                lemma_entry_len(es, ids[c]);
                let j = entry_index(es, ids[c]);
                if found is Some {
                    let s = before.stores()[pos_in(before.arch_ids(), aid)];
                    assert(es[j].1.len() == s.col_sizes()[pos_in(s.col_ids(), es[j].0)]);
                    lemma_pos_in(s.col_ids(), ids[c], c);
                } else {
                    assert(es[j].1.len() == recs[es[j].0].2);
                }
            }
        }
        let m = out.len();
        let mut i: usize = 0;
        while i < m
            invariant
                i <= m,
                m == out@.len(),
                m == ids.len(),
                st.wf(),
                row < st.rows(),
                st.archetype == s2.archetype,
                st.col_ids() == ids,
                st.col_ids() == s2.col_ids(),
                st.col_sizes() == s2.col_sizes(),
                st.rows() == s2.rows(),
                st.free_rows() == s2.free_rows(),
                st.owners() == s2.owners(),
                ids.no_duplicates(),
                forall|c: int| 0 <= c < m ==> (#[trigger] out@[c]).0 == ids[c] && out@[c].1@ == entry_bytes(es, ids[c]),
                forall|c: int| 0 <= c < ids.len() ==> (#[trigger] entry_bytes(es, ids[c])).len() == st.col_sizes()[c],
                forall|c: int| 0 <= c < m ==> #[trigger] st.col_bytes()[c] == if c < i {
                    with_row(s2.col_bytes()[c], s2.col_sizes()[c] as nat, row as nat, entry_bytes(es, ids[c]))
                } else {
                    s2.col_bytes()[c]
                },
                st.col_bytes().len() == m,
            decreases m - i,
        {
            let ghost sb = st;
            proof {
                assert(out@[i as int].0 == ids[i as int]);
                lemma_pos_in(st.col_ids(), ids[i as int], i as int);
                assert(st.col_ids().contains(ids[i as int]));
            }
            st.write_component(row, out[i].0, out[i].1.as_slice());
            proof {
                assert forall|c: int| 0 <= c < m implies #[trigger] st.col_bytes()[c] == if c < i + 1 {
                    with_row(s2.col_bytes()[c], s2.col_sizes()[c] as nat, row as nat, entry_bytes(es, ids[c]))
                } else {
                    s2.col_bytes()[c]
                } by {
                    if c != i as int {
                        assert(st.col_bytes()[c] == sb.col_bytes()[c]);
                    }
                }
            }
            i = i + 1;
        }
        st.set_entity(row, id);
        proof {
            let reuse = s1.free_rows().len() > 0;
            assert(s2.col_bytes() == grown(s1.col_bytes(), s1.col_sizes(), reuse));
            if reuse {
                assert(st.owners() =~= s1.owners().update(row as int, Some(id)));
            } else {
                assert(st.owners() =~= s1.owners().push(Some(id)));
            }
            if found is None {
                assert forall|c: int| 0 <= c < ids.len() implies #[trigger] st.col_bytes()[c] == entry_bytes(es, ids[c]) by {
                    let sz = s1.col_sizes()[c];
                    let g = s2.col_bytes()[c];
                    assert(g =~= Seq::new(sz as nat, |i: int| 0u8));
                    assert(0 * (sz as nat) == 0) by (nonlinear_arith);
                    assert(with_row(g, sz as nat, 0, entry_bytes(es, ids[c])) =~= entry_bytes(es, ids[c]));
                }
                assert(st.owners() =~= seq![Some(id)]);
            }
        }
        match found {
            Some(k) => {
                self.storages.insert(k, (aid, st));
                proof {
                    before.lemma_views();
                    self.lemma_views();
                    assert(self.storages@ =~= before.storages@.update(k as int, (aid, st)));
                    assert(self.arch_ids() =~= before.arch_ids());
                    assert(self.stores() =~= before.stores().update(k as int, st));
                    assert forall|j: int| 0 <= j < self.stores().len() implies {
                        let s = #[trigger] self.stores()[j];
                        &&& s.wf()
                        &&& s.spec_archetype().wf()
                        &&& s.spec_archetype().id == self.arch_ids()[j]
                        &&& s.col_ids() == s.spec_archetype().components@
                    } by {
                        if j != k {
                            assert(self.stores()[j] == before.stores()[j]);
                        }
                    }
                }
            },
            None => {
                self.storages.push((aid, st));
                proof {
                    before.lemma_views();
                    self.lemma_views();
                    assert(self.arch_ids() =~= before.arch_ids().push(aid));
                    assert(self.stores() =~= before.stores().push(st));
                    assert(self.stores().drop_last() =~= before.stores());
                    assert forall|a: int, b: int| 0 <= a < b < self.arch_ids().len() implies self.arch_ids()[a]
                        != self.arch_ids()[b] by {
                        if b == before.arch_ids().len() {
                            assert(before.arch_ids()[a] != aid);
                        }
                    }
                    assert forall|j: int| 0 <= j < self.stores().len() implies {
                        let s = #[trigger] self.stores()[j];
                        &&& s.wf()
                        &&& s.spec_archetype().wf()
                        &&& s.spec_archetype().id == self.arch_ids()[j]
                        &&& s.col_ids() == s.spec_archetype().components@
                    } by {
                        if j < before.stores().len() {
                            assert(self.stores()[j] == before.stores()[j]);
                        }
                    }
                }
            },
        }
        Entity { id, archetype: aid, index: row }
    }
}

/// `a` and `b` hold the same ids in the same order.
fn same_ids(a: &[ComponentId], b: &[ComponentId]) -> (r: bool)
    ensures
        r == (a@ == b@),
{
    if a.len() != b.len() {
        return false;
    }
    let mut i: usize = 0;
    while i < a.len()
        invariant
            i <= a@.len(),
            a@.len() == b@.len(),
            forall|j: int| 0 <= j < i ==> a@[j] == b@[j],
        decreases a@.len() - i,
    {
        if a[i] != b[i] {
            return false;
        }
        i = i + 1;
    }
    assert(a@ =~= b@);
    true
}

impl ArchetypeStorage {
    /// Whether one more row fits in every column.
    fn has_room_exec(&self) -> (b: bool)
        requires
            self.wf(),
        ensures
            b == self.has_room(),
    {
        proof {
            self.lemma_views();
        }
        if self.len == usize::MAX {
            return false;
        }
        let n1 = self.len + 1;
        let mut k: usize = 0;
        while k < self.columns.len()
            invariant
                k <= self.columns@.len(),
                self.col_sizes().len() == self.columns@.len(),
                self.col_ids().len() == self.columns@.len(),
                n1 == self.rows() + 1,
                forall|j: int| 0 <= j < k ==> (self.rows() + 1) * (#[trigger] self.col_sizes()[j]) <= usize::MAX,
            decreases self.columns@.len() - k,
        {
            proof {
                self.lemma_views();
            }
            match n1.checked_mul(self.columns[k].1.elem_size) {
                Some(_) => {},
                None => {
                    proof {
                        assert((self.rows() + 1) * self.col_sizes()[k as int] > usize::MAX);
                    }
                    return false;
                },
            }
            k = k + 1;
        }
        true
    }

    /// Bytes per row of the column of `cid`, if there is one.
    fn column_size(&self, cid: ComponentId) -> (r: Option<usize>)
        requires
            self.wf(),
        ensures
            match r {
                Some(z) => self.col_ids().contains(cid) && z == self.col_sizes()[pos_in(self.col_ids(), cid)],
                None => !self.col_ids().contains(cid),
            },
    {
        proof {
            self.lemma_views();
        }
        match self.find_column(cid) {
            Some(k) => Some(self.columns[k].1.elem_size),
            None => None,
        }
    }
}

impl World {
    /// Spawn an entity from `builder` when [`spawn`](Self::spawn) can run
    /// through; otherwise change nothing and return `None`.
    pub fn try_spawn(&mut self, registry: &ComponentTable, builder: EntityBuilder) -> (r: Option<Entity>)
        requires
            old(self).wf(),
            builder.wf(),
        ensures
            final(self).wf(),
            r is Some <==> old(self).spawn_admits(registry.records(), builder.entries()),
            r matches Some(e) ==> spawn_outcome(*old(self), *final(self), registry.records(), builder.entries(), e),
            r is None ==> *final(self) == *old(self),
    {
        let ghost es = builder.entries();
        let ghost recs = registry.records();
        if self.next_entity_id == u64::MAX {
            return None;
        }
        let archetype = builder.archetype();
        proof {
            lemma_sorted_ids(es, archetype.components@);
            self.lemma_views();
        }
        let ghost ids = archetype.components@;
        let mut i: usize = 0;
        while i < archetype.components.len()
            invariant
                i <= ids.len(),
                ids == archetype.components@,
                ids == sorted_ids(es),
                es == builder.entries(),
                self.wf(),
                *self == *old(self),
                recs == registry.records(),
                forall|c: int| 0 <= c < i ==> recs.contains_key(#[trigger] ids[c]),
            decreases ids.len() - i,
        {
            if registry.meta_of(archetype.components[i]).is_none() {
                return None;
            }
            i = i + 1;
        }
        let lens = builder.entry_lens();
        match self.find_storage(archetype.id) {
            Some(k) => {
                let st = &self.storages[k].1;
                proof {
                    assert(*st == self.stores()[k as int]);
                }
                if !same_ids(st.archetype.components.as_slice(), archetype.components.as_slice()) {
                    return None;
                }
                if !st.has_room_exec() {
                    return None;
                }
                let mut j: usize = 0;
                while j < lens.len()
                    invariant
                        j <= lens@.len(),
                        lens@.len() == es.len(),
                        forall|q: int| 0 <= q < lens@.len() ==> (#[trigger] lens@[q]).0 == es[q].0 && lens@[q].1 == es[q].1.len(),
                        st.wf(),
                        st.col_ids() == ids,
                        self.wf(),
                        *self == *old(self),
                        es == builder.entries(),
                        pos_in(old(self).arch_ids(), archetype_hash(ids)) == k,
                        k < old(self).stores().len(),
                        ids == sorted_ids(es),
                        *st == old(self).stores()[pos_in(old(self).arch_ids(), archetype_hash(ids))],
                        is_sorted_set_of(ids, entry_ids(es)),
                        forall|q: int| 0 <= q < j ==> (#[trigger] es[q]).1.len() == st.col_sizes()[pos_in(st.col_ids(), es[q].0)],
                    decreases lens@.len() - j,
                {
                    proof {
                        assert(entry_ids(es)[j as int] == es[j as int].0);
                        assert(entry_ids(es).to_set().contains(es[j as int].0));
                        assert(ids.to_set().contains(es[j as int].0));
                    }
                    match st.column_size(lens[j].0) {
                        Some(z) => {
                            if z != lens[j].1 {
                                proof {
                                    assert(es[j as int].1.len() != st.col_sizes()[pos_in(st.col_ids(), es[j as int].0)]);
                                }
                                return None;
                            }
                        },
                        None => {
                            return None;
                        },
                    }
                    j = j + 1;
                }
            },
            None => {
                let mut j: usize = 0;
                while j < lens.len()
                    invariant
                        j <= lens@.len(),
                        lens@.len() == es.len(),
                        forall|q: int| 0 <= q < lens@.len() ==> (#[trigger] lens@[q]).0 == es[q].0 && lens@[q].1 == es[q].1.len(),
                        recs == registry.records(),
                        self.wf(),
                        *self == *old(self),
                        es == builder.entries(),
                        ids == sorted_ids(es),
                        pos_in(old(self).arch_ids(), archetype_hash(ids)) == -1,
                        is_sorted_set_of(ids, entry_ids(es)),
                        forall|c: int| 0 <= c < ids.len() ==> recs.contains_key(#[trigger] ids[c]),
                        forall|q: int| 0 <= q < j ==> (#[trigger] es[q]).1.len() == recs[es[q].0].2,
                    decreases lens@.len() - j,
                {
                    match registry.meta_of(lens[j].0) {
                        Some(m) => {
                            if m.size != lens[j].1 {
                                proof {
                                    assert(es[j as int].1.len() != recs[es[j as int].0].2);
                                }
                                return None;
                            }
                        },
                        None => {
                            proof {
                                assert(entry_ids(es)[j as int] == es[j as int].0);
                                assert(entry_ids(es).to_set().contains(es[j as int].0));
                                assert(ids.to_set().contains(es[j as int].0));
                                let c = choose|c: int| 0 <= c < ids.len() && ids[c] == es[j as int].0;
                                assert(recs.contains_key(ids[c]));
                            }
                            return None;
                        },
                    }
                    j = j + 1;
                }
            },
        }
        Some(self.spawn(registry, builder))
    }
}

} // verus!
