//! Storage of all entities of one archetype.
//!
//! Holds a paged pool of entity ids and one [`ComponentColumn`] per
//! component of the archetype, all with the plan's rows per page.
use vstd::prelude::*;
use core::ops::Range;
use crate::ecs::component::{ComponentId, meta_eq, is_power_of_two};
use crate::ecs::entity::EntityId;
use crate::ecs::storage::column::{ColumnError, ComponentColumn, bulk_row_moves, bulk_rows, next_range_written, pages_for, remove_row, write_row, zero_page};
use crate::ecs::storage::plan::{ArchetypePlan, ColumnPlan};
use crate::pool::{PagedPool, PoolError};
use crate::pool::paged_pool::{alloc_target, bulk_free_outcome, with_target_page, pages_written, lemma_bulk_free_written, lemma_swap_remove_written, pool_swap_remove, total_len};
use crate::pool::sort::{index_set, sort_dedup_pairs, sorted_usize, strictly_sorted_pairs, strictly_sorted_usize};

verus! {

/// Errors of [`ArchetypeStorage`].
#[derive(Debug, PartialEq, Eq, Structural)]
pub enum StorageError {
    ColumnMissing { component_id: ComponentId },
    Column(ColumnError),
    EntityPool(PoolError),
    IndexOutOfBounds { index: usize, len: usize },
    NotEnoughEntities { expected: usize, got: usize },
}

/// Column `new` is column `old` after `alloc_one`.
pub open spec fn col_grew_one(old: ComponentColumn, new: ComponentColumn) -> bool {
    let z = zero_page(old.spec_rows_per_page() * old.spec_stride());
    &&& new.wf()
    &&& new.spec_len() == old.spec_len() + 1
    &&& new.spec_rows_per_page() == old.spec_rows_per_page()
    &&& new.spec_stride() == old.spec_stride()
    &&& new.spec_plan() == old.spec_plan()
    &&& if old.spec_len() % old.spec_rows_per_page() == 0 {
        new.cur_bufs() == old.cur_bufs().push(z) && new.nxt_bufs() == old.nxt_bufs().push(z)
    } else {
        new.cur_bufs() == old.cur_bufs() && new.nxt_bufs() == old.nxt_bufs()
    }
}

/// Column `new` is column `old` grown by `count` rows at the end, new pages
/// zeroed.
pub open spec fn col_grew_by(old: ComponentColumn, new: ComponentColumn, count: nat) -> bool {
    let rpp = old.spec_rows_per_page();
    let extra = pages_for(new.spec_len(), rpp) - pages_for(old.spec_len(), rpp);
    let z = zero_page(rpp * old.spec_stride());
    &&& new.wf()
    &&& new.spec_len() == old.spec_len() + count
    &&& new.spec_rows_per_page() == rpp
    &&& new.spec_stride() == old.spec_stride()
    &&& new.spec_plan() == old.spec_plan()
    &&& new.cur_bufs() == old.cur_bufs() + Seq::new(extra as nat, |i: int| z)
    &&& new.nxt_bufs() == old.nxt_bufs() + Seq::new(extra as nat, |i: int| z)
}

/// The rows of `spans`, span after span.
pub open spec fn span_rows(spans: Seq<Range<usize>>) -> Seq<usize>
    decreases spans.len(),
{
    if spans.len() == 0 {
        Seq::empty()
    } else {
        let s = spans.last();
        span_rows(spans.drop_last()) + Seq::new((s.end - s.start) as nat, |i: int| (s.start + i) as usize)
    }
}

/// Each span is non-empty and lies in one page of `rpp` rows.
pub open spec fn spans_in_pages(spans: Seq<Range<usize>>, rpp: int) -> bool {
    forall|k: int| 0 <= k < spans.len() ==> (#[trigger] spans[k]).start < spans[k].end && spans[k].start as int / rpp == (
    spans[k].end - 1) / rpp
}

/// Column `new` is column `old` with its buffers exchanged.
pub open spec fn col_swapped(old: ComponentColumn, new: ComponentColumn) -> bool {
    &&& new.wf()
    &&& new.spec_len() == old.spec_len()
    &&& new.spec_rows_per_page() == old.spec_rows_per_page()
    &&& new.spec_stride() == old.spec_stride()
    &&& new.spec_plan() == old.spec_plan()
    &&& new.cur_bufs() == old.nxt_bufs()
    &&& new.nxt_bufs() == old.cur_bufs()
}

/// Column `new` is column `old` after removing row `g` (`g < len`).
pub open spec fn col_removed(old: ComponentColumn, new: ComponentColumn, g: int) -> bool {
    let len = old.spec_len();
    let rpp = old.spec_rows_per_page();
    let st = old.spec_stride();
    &&& new.wf()
    &&& new.spec_len() == len - 1
    &&& new.spec_rows_per_page() == rpp
    &&& new.spec_stride() == st
    &&& new.spec_plan() == old.spec_plan()
    &&& new.cur_bufs() == remove_row(old.cur_bufs(), len, g, rpp, st)
    &&& new.nxt_bufs() == remove_row(old.nxt_bufs(), len, g, rpp, st)
}


/// Removing the rows `gidxs` (not empty) from column `old`, whose length is
/// above all of them, gave column `new` and the moves `m`.
pub open spec fn col_bulk_removed(old: ComponentColumn, new: ComponentColumn, gidxs: Seq<usize>, m: Seq<(usize, usize)>) -> bool {
    let u = index_set(gidxs);
    let len = old.spec_len();
    let rpp = old.spec_rows_per_page();
    let st = old.spec_stride();
    &&& new.wf()
    &&& new.spec_rows_per_page() == rpp
    &&& new.spec_stride() == st
    &&& new.spec_plan() == old.spec_plan()
    &&& m == bulk_row_moves(len, u).reverse()
    &&& new.spec_len() == len - u.len()
    &&& new.cur_bufs() == bulk_rows(old.cur_bufs(), len, u, rpp, st)
    &&& new.nxt_bufs() == bulk_rows(old.nxt_bufs(), len, u, rpp, st)
}

/// What removing the rows `gidxs` (not empty) from `old` gives: `new` and
/// the result `r`, where the id pool processed the sorted indices `sg`,
/// reporting the moves `pm` and the result `rp`.
pub open spec fn bulk_remove_result(
    old: ArchetypeStorage,
    new: ArchetypeStorage,
    gidxs: Seq<usize>,
    r: Result<Vec<(usize, usize)>, StorageError>,
    sg: Seq<usize>,
    pm: Seq<(usize, usize)>,
    rp: Result<(), PoolError>,
    ms: Seq<Seq<(usize, usize)>>,
) -> bool {
    sorted_usize(sg) && sg.to_multiset() == gidxs.to_multiset() && bulk_free_outcome(
                    old.ids().pages_view(),
                    old.ids().spec_rows_per_page() as nat,
                    sg,
                    Seq::empty(),
                    pm,
                    new.ids().pages_view(),
                    rp,
                ) && match rp {
                    Err(e) => r == Err::<Vec<(usize, usize)>, StorageError>(StorageError::EntityPool(e))
                        && new.cols() == old.cols() && new.spec_len() == old.spec_len(),
                    Ok(_) => {
                        let cols = old.cols();
                        let g = index_set(gidxs).last();
                        let f = first_too_short(cols, g as int);
                        &&& forall|i: int| f <= i < cols.len() ==> #[trigger] new.cols()[i] == cols[i]
                        &&& ms.len() == (if f < cols.len() { f } else { cols.len() as int })
                        &&& forall|i: int| 0 <= i < ms.len() ==> col_bulk_removed(cols[i], #[trigger] new.cols()[i], gidxs, ms[i])
                        &&& if f < cols.len() {
                            &&& r == Err::<Vec<(usize, usize)>, StorageError>(
                                StorageError::Column(ColumnError::IndexOutOfBounds { index: g, len: cols[f].spec_len() as usize }),
                            )
                            &&& new.spec_len() == old.spec_len()
                        } else {
                            &&& r is Ok
                            &&& strictly_sorted_pairs(r->Ok_0@)
                            &&& r->Ok_0@.to_set() == (pm + concat_all(ms)).to_set()
                            &&& new.spec_len() == new.ids().spec_len()
                        }
                    },
                }
}

/// The move lists `ms`, one after the other.
pub open spec fn concat_all(ms: Seq<Seq<(usize, usize)>>) -> Seq<(usize, usize)>
    decreases ms.len(),
{
    if ms.len() == 0 {
        Seq::empty()
    } else {
        concat_all(ms.drop_last()) + ms.last()
    }
}

/// Index of the first column too short for row `g`, or the column count.
pub open spec fn first_too_short(cols: Seq<ComponentColumn>, g: int) -> int
    decreases cols.len(),
{
    if cols.len() == 0 {
        0
    } else {
        let f = first_too_short(cols.drop_last(), g);
        if f < cols.len() - 1 { f } else if g >= cols.last().spec_len() { cols.len() - 1 } else { cols.len() as int }
    }
}

/// Index of the first column with no row `g`, or the column count.
pub open spec fn first_short_column(cols: Seq<ComponentColumn>, g: int) -> int
    decreases cols.len(),
{
    if cols.len() == 0 {
        0
    } else {
        let f = first_short_column(cols.drop_last(), g);
        if f < cols.len() - 1 {
            f
        } else if g >= cols.last().spec_len() {
            cols.len() - 1
        } else {
            cols.len() as int
        }
    }
}

/// The move reported after removing row `g` from every column: that of the
/// last column in which another row moved, else `init`.
pub open spec fn merged_move(cols: Seq<ComponentColumn>, g: int, init: Option<(usize, usize)>) -> Option<(usize, usize)>
    decreases cols.len(),
{
    if cols.len() == 0 {
        init
    } else {
        let prev = merged_move(cols.drop_last(), g, init);
        let c = cols.last();
        if g != c.spec_len() - 1 { Some(((c.spec_len() - 1) as usize, g as usize)) } else { prev }
    }
}

/// Index of the column of component `cid`: the last one listing it.
pub open spec fn column_index(cols: Seq<ComponentColumn>, cid: ComponentId) -> Option<int>
    decreases cols.len(),
{
    if cols.len() == 0 {
        None
    } else if cols.last().spec_plan().component_id == cid {
        Some(cols.len() - 1)
    } else {
        column_index(cols.drop_last(), cid)
    }
}

/// The plan's layout admits columns: pages of a power of two of rows, and a
/// page of every column fits in memory.
pub open spec fn plan_ok(plan: &ArchetypePlan) -> bool {
    &&& is_power_of_two(plan.rows_per_page as nat)
    &&& forall|i: int| 0 <= i < plan.columns@.len() ==> plan.rows_per_page * (#[trigger] plan.columns@[i]).meta.stride <= usize::MAX
}

/// All entities of one archetype: entity ids and one column per component.
pub struct ArchetypeStorage {
    plan: ArchetypePlan,
    entity_ids: PagedPool<EntityId>,
    columns: Vec<ComponentColumn>,
    len: usize,
}

impl ArchetypeStorage {
    pub closed spec fn spec_plan(&self) -> &ArchetypePlan {
        &self.plan
    }

    pub closed spec fn ids(&self) -> PagedPool<EntityId> {
        self.entity_ids
    }

    pub closed spec fn cols(&self) -> Seq<ComponentColumn> {
        self.columns@
    }

    pub closed spec fn spec_len(&self) -> nat {
        self.len as nat
    }

    /// One more row fits: in the id pool and in every column.
    pub open spec fn has_room(&self) -> bool {
        &&& (self.ids().pages_view().len() + 1) * self.ids().spec_rows_per_page() <= usize::MAX
        &&& self.spec_len() < usize::MAX
        &&& forall|i: int| 0 <= i < self.cols().len() ==> (#[trigger] self.cols()[i]).spec_len() < usize::MAX
    }

    pub open spec fn wf(&self) -> bool {
        &&& self.ids().wf()
        &&& pages_written(self.ids().pages_view())
        &&& self.ids().spec_rows_per_page() == self.spec_plan().rows_per_page
        &&& forall|i: int| 0 <= i < self.cols().len() ==> (#[trigger] self.cols()[i]).wf()
            && self.cols()[i].spec_rows_per_page() == self.spec_plan().rows_per_page
    }

    /// Empty storage for `plan`.
    pub fn from_plan(plan: ArchetypePlan) -> (s: Self)
        requires
            plan_ok(&plan),
        ensures
            s.wf(),
            s.spec_len() == 0,
            s.ids().pages_view().len() == 0,
            s.cols().len() == plan.columns@.len(),
            forall|i: int| 0 <= i < s.cols().len() ==> (#[trigger] s.cols()[i]).spec_len() == 0
                && s.cols()[i].spec_plan().component_id == plan.columns@[i].component_id
                && meta_eq(s.cols()[i].spec_plan().meta, plan.columns@[i].meta),
            s.spec_plan().rows_per_page == plan.rows_per_page,
            s.spec_plan().layout.spec_components() == plan.layout.spec_components(),
            s.spec_plan().layout.spec_id() == plan.layout.spec_id(),
            s.spec_plan().columns@.len() == plan.columns@.len(),
            forall|i: int| 0 <= i < plan.columns@.len() ==> (#[trigger] s.spec_plan().columns@[i]).component_id
                == plan.columns@[i].component_id,
    {
        let rows_per_page = plan.rows_per_page;
        let mut columns: Vec<ComponentColumn> = Vec::new();
        let mut i: usize = 0;
        while i < plan.columns.len()
            invariant
                i <= plan.columns@.len(),
                plan_ok(&plan),
                rows_per_page == plan.rows_per_page,
                columns@.len() == i,
                forall|k: int| 0 <= k < i ==> (#[trigger] columns@[k]).wf() && columns@[k].spec_len() == 0
                    && columns@[k].spec_rows_per_page() == rows_per_page
                    && columns@[k].spec_plan().component_id == plan.columns@[k].component_id
                    && meta_eq(columns@[k].spec_plan().meta, plan.columns@[k].meta),
            decreases plan.columns@.len() - i,
        {
            let cp: ColumnPlan = plan.columns[i].duplicate();
            assert(plan.rows_per_page * plan.columns@[i as int].meta.stride <= usize::MAX);
            columns.push(ComponentColumn::new(cp, rows_per_page));
            i = i + 1;
        }
        ArchetypeStorage {
            entity_ids: PagedPool::with_rows_per_page(rows_per_page),
            plan,
            columns,
            len: 0,
        }
    }

    pub fn plan(&self) -> (p: &ArchetypePlan)
        ensures
            p == self.spec_plan(),
    {
        &self.plan
    }

    pub fn entity_count(&self) -> (n: usize)
        ensures
            n == self.spec_len(),
    {
        self.len
    }

    pub fn columns(&self) -> (c: &[ComponentColumn])
        ensures
            c@ == self.cols(),
    {
        self.columns.as_slice()
    }

    pub fn rows_per_page(&self) -> (r: usize)
        ensures
            r == self.spec_plan().rows_per_page,
    {
        self.plan.rows_per_page
    }

    pub fn is_empty(&self) -> (b: bool)
        ensures
            b == (self.spec_len() == 0),
    {
        self.len == 0
    }

    /// Entity id stored in row `gidx`.
    pub fn entity_id_at(&self, gidx: usize) -> (r: Result<EntityId, StorageError>)
        requires
            self.wf(),
        ensures
            ({
                let pool = self.ids();
                let rpp = pool.spec_rows_per_page() as int;
                let p = gidx as int / rpp;
                let l = gidx as int % rpp;
                if gidx >= pool.spec_len() {
                    r == Err::<EntityId, StorageError>(
                        StorageError::EntityPool(PoolError::IndexOutOfBounds { index: gidx, len: pool.spec_len() as usize }),
                    )
                } else if l >= pool.pages_view()[p].len() {
                    r == Err::<EntityId, StorageError>(
                        StorageError::EntityPool(
                            PoolError::IndexOutOfBounds { index: l as usize, len: pool.pages_view()[p].len() as usize },
                        ),
                    )
                } else {
                    r == Ok::<EntityId, StorageError>(pool.slot(gidx as int).unwrap())
                }
            }),
    {
        proof {
            lemma_written_slots(&self.entity_ids);
        }
        match self.entity_ids.get(gidx) {
            Ok(id) => Ok(*id),
            Err(e) => Err(StorageError::EntityPool(e)),
        }
    }

    /// Entity ids of the rows of `range`, which must lie in one page.
    pub fn entity_ids_slice(&self, range: Range<usize>) -> (r: Result<Vec<EntityId>, StorageError>)
        requires
            self.wf(),
        ensures
            match r {
                Ok(v) => exists|ids: Vec<EntityId>| ids@ == v@ && #[trigger] self.ids().slice_tile_result(range, Ok::<Vec<EntityId>, PoolError>(ids)),
                Err(StorageError::EntityPool(e)) => self.ids().slice_tile_result(range, Err::<Vec<EntityId>, PoolError>(e)),
                Err(_) => false,
            },
    {
        proof {
            lemma_written_slots(&self.entity_ids);
        }
        match self.entity_ids.slice_tile(range) {
            Ok(v) => Ok(v),
            Err(e) => Err(StorageError::EntityPool(e)),
        }
    }

    /// Overwrite the entity id of row `gidx`.
    pub fn set_entity_id(&mut self, gidx: usize, entity_id: EntityId) -> (r: Result<(), StorageError>)
        requires
            old(self).wf(),
        ensures
            final(self).wf(),
            final(self).cols() == old(self).cols(),
            final(self).spec_len() == old(self).spec_len(),
            final(self).spec_plan() == old(self).spec_plan(),
            final(self).ids().spec_rows_per_page() == old(self).ids().spec_rows_per_page(),
            ({
                let pool = old(self).ids();
                let rpp = pool.spec_rows_per_page() as int;
                let pv = pool.pages_view();
                let p = gidx as int / rpp;
                let l = gidx as int % rpp;
                if gidx >= pool.spec_len() {
                    r == Err::<(), StorageError>(
                        StorageError::EntityPool(PoolError::IndexOutOfBounds { index: gidx, len: pool.spec_len() as usize }),
                    ) && final(self).ids().pages_view() == pv
                } else if l >= pv[p].len() {
                    r == Err::<(), StorageError>(
                        StorageError::EntityPool(PoolError::IndexOutOfBounds { index: l as usize, len: pv[p].len() as usize }),
                    ) && final(self).ids().pages_view() == pv
                } else {
                    r is Ok && final(self).ids().pages_view() == pv.update(p, pv[p].update(l, Some(entity_id)))
                }
            }),
    {
        let r = self.entity_ids.set_at(gidx, entity_id);
        proof {
            let pv = self.entity_ids.pages_view();
            let ov = old(self).entity_ids.pages_view();
            let rpp = old(self).entity_ids.spec_rows_per_page() as int;
            let p = gidx as int / rpp;
            let l = gidx as int % rpp;
            if gidx < old(self).entity_ids.spec_len() {
                old(self).entity_ids.lemma_row_page(gidx as int);
                if l < ov[p].len() {
                    assert forall|q: int, k: int| 0 <= q < pv.len() && 0 <= k < pv[q].len() implies (#[trigger] pv[q][k]) is Some by {
                        if q != p {
                            assert(pv[q] == ov[q]);
                        } else if k != l {
                            assert(pv[q][k] == ov[q][k]);
                        }
                    }
                }
            }
        }
        assert(self.columns@ == old(self).columns@);
        assert(forall|i: int| 0 <= i < self.cols().len() ==> #[trigger] self.cols()[i] == old(self).cols()[i]);
        match r {
            Ok(()) => Ok(()),
            Err(e) => Err(StorageError::EntityPool(e)),
        }
    }

    fn find_column(&self, component_id: ComponentId) -> (r: Option<usize>)
        ensures
            match r {
                Some(j) => j < self.cols().len() && column_index(self.cols(), component_id) == Some(j as int),
                None => column_index(self.cols(), component_id) is None,
            },
    {
        let mut i: usize = self.columns.len();
        assert(self.columns@.take(i as int) =~= self.columns@);
        while i > 0
            invariant
                i <= self.columns@.len(),
                column_index(self.columns@.take(i as int), component_id) == column_index(self.columns@, component_id),
            decreases i,
        {
            assert(self.columns@.take(i as int).drop_last() =~= self.columns@.take(i - 1));
            assert(self.columns@.take(i as int).last() == self.columns@[i - 1]);
            if self.columns[i - 1].plan().component_id == component_id {
                return Some(i - 1);
            }
            i = i - 1;
        }
        None
    }

    /// The column of component `component_id`.
    pub fn column(&self, component_id: ComponentId) -> (r: Result<&ComponentColumn, StorageError>)
        ensures
            match column_index(self.cols(), component_id) {
                Some(i) => r == Ok::<&ComponentColumn, StorageError>(&self.cols()[i]),
                None => r == Err::<&ComponentColumn, StorageError>(StorageError::ColumnMissing { component_id }),
            },
            self.wf() && r is Ok ==> r->Ok_0.wf(),
    {
        proof {
            lemma_column_index_in_range(self.columns@, component_id);
        }
        match self.find_column(component_id) {
            Some(i) => {
                let c = &self.columns[i];
                assert(*c == self.columns@[i as int]);
                Ok(c)
            },
            None => Err(StorageError::ColumnMissing { component_id }),
        }
    }

    /// The column of component `component_id`, for writing. What the caller
    /// leaves in the column is what the storage holds afterwards.
    pub fn column_mut(&mut self, component_id: ComponentId) -> (r: Result<&mut ComponentColumn, StorageError>)
        ensures
            match column_index(old(self).cols(), component_id) {
                Some(i) => {
                    &&& r is Ok
                    &&& *(r->Ok_0) == old(self).cols()[i]
                    &&& final(self).cols() == old(self).cols().update(i, *final(r->Ok_0))
                    &&& old(self).wf() ==> r->Ok_0.wf()
                    &&& old(self).wf() && final(r->Ok_0).wf() && final(r->Ok_0).spec_rows_per_page()
                        == old(self).spec_plan().rows_per_page ==> final(self).wf()
                },
                None => {
                    &&& r == Err::<&mut ComponentColumn, StorageError>(StorageError::ColumnMissing { component_id })
                    &&& *final(self) == *old(self)
                },
            },
            final(self).spec_plan() == old(self).spec_plan(),
            final(self).ids() == old(self).ids(),
            final(self).spec_len() == old(self).spec_len(),
    {
        proof {
            lemma_column_index_in_range(self.columns@, component_id);
        }
        match self.find_column(component_id) {
            Some(i) => Ok(&mut self.columns[i]),
            None => Err(StorageError::ColumnMissing { component_id }),
        }
    }

    /// Append a row for `entity_id`: one row in the id pool and in every
    /// column. Returns the id pool's row index.
    pub fn alloc_row(&mut self, entity_id: EntityId) -> (r: Result<usize, StorageError>)
        requires
            old(self).wf(),
            old(self).has_room(),
        ensures
            final(self).wf(),
            final(self).spec_plan() == old(self).spec_plan(),
            final(self).spec_len() == old(self).spec_len() + 1,
            final(self).ids().spec_rows_per_page() == old(self).ids().spec_rows_per_page(),
            final(self).cols().len() == old(self).cols().len(),
            forall|i: int| 0 <= i < old(self).cols().len() ==> col_grew_one(old(self).cols()[i], #[trigger] final(self).cols()[i]),
            ({
                let rpp = old(self).ids().spec_rows_per_page() as nat;
                let t = alloc_target(old(self).ids().pages_view(), rpp);
                let ps = with_target_page(old(self).ids().pages_view(), t);
                &&& r == Ok::<usize, StorageError>((t * rpp + ps[t].len()) as usize)
                &&& final(self).ids().pages_view() == ps.update(t, ps[t].push(Some(entity_id)))
            }),
            r is Ok,
            final(self).ids().allocated(r->Ok_0 as int),
            final(self).ids().slot(r->Ok_0 as int) == Some(entity_id),
    {
        let ghost ps0 = self.entity_ids.pages_view();
        let gidx = self.entity_ids.alloc_one();
        let ghost ps1 = self.entity_ids.pages_view();
        let ghost cols0 = self.columns@;
        let mut i: usize = 0;
        while i < self.columns.len()
            invariant
                i <= self.columns@.len(),
                self.columns@.len() == cols0.len(),
                forall|k: int| 0 <= k < i ==> col_grew_one(cols0[k], #[trigger] self.columns@[k]),
                forall|k: int| i <= k < cols0.len() ==> #[trigger] self.columns@[k] == cols0[k],
                forall|k: int| 0 <= k < cols0.len() ==> (#[trigger] cols0[k]).wf() && cols0[k].spec_len() < usize::MAX
                    && cols0[k].spec_rows_per_page() == self.plan.rows_per_page,
                cols0 == old(self).columns@,
                self.entity_ids.wf(),
                self.entity_ids.pages_view() == ps1,
                self.entity_ids.spec_rows_per_page() == self.plan.rows_per_page,
                self.entity_ids.allocated(gidx as int),
                self.len == old(self).len,
                self.plan == old(self).plan,
            decreases cols0.len() - i,
        {
            let _ = self.columns[i].alloc_one();
            i = i + 1;
        }
        self.entity_ids.write_at(gidx, entity_id);
        self.len = self.len + 1;
        proof {
            let rpp = self.plan.rows_per_page as nat;
            let t = alloc_target(ps0, rpp);
            let ps = with_target_page(ps0, t);
            assert(ps1 == ps.update(t, ps[t].push(None)));
            let r = rpp as int;
            vstd::arithmetic::div_mod::lemma_fundamental_div_mod_converse(gidx as int, r, t, ps[t].len() as int);
            assert(ps[t].push(None).update(ps[t].len() as int, Some(entity_id)) =~= ps[t].push(Some(entity_id)));
            assert(ps1[t] == ps[t].push(None));
            assert(self.entity_ids.pages_view() =~= ps.update(t, ps[t].push(Some(entity_id))));
            assert(gidx as int / r == t && gidx as int % r == ps[t].len());
            assert(self.entity_ids.slot(gidx as int) == Some(entity_id));
        }
        Ok(gidx)
    }

    /// Append `count` rows whose entity ids are the first `count` of
    /// `entities`, in order, and grow every column by `count` zeroed rows.
    /// Returns the new id rows as spans that never cross a page. With fewer
    /// than `count` ids the call is refused before anything changes.
    pub fn alloc_bulk(&mut self, count: usize, entities: &[EntityId]) -> (r: Result<Vec<Range<usize>>, StorageError>)
        requires
            old(self).wf(),
            (old(self).ids().pages_view().len() + count + 1) * old(self).ids().spec_rows_per_page() <= usize::MAX,
            old(self).spec_len() + count <= usize::MAX,
            forall|i: int| 0 <= i < old(self).cols().len() ==> (#[trigger] old(self).cols()[i]).spec_len() + count <= usize::MAX,
        ensures
            final(self).wf(),
            final(self).spec_plan() == old(self).spec_plan(),
            final(self).ids().spec_rows_per_page() == old(self).ids().spec_rows_per_page(),
            final(self).cols().len() == old(self).cols().len(),
            entities@.len() < count ==> r == Err::<Vec<Range<usize>>, StorageError>(
                StorageError::NotEnoughEntities { expected: count, got: entities@.len() as usize },
            ) && *final(self) == *old(self),
            entities@.len() >= count ==> r is Ok && ({
                let rows = span_rows(r->Ok_0@);
                let o = old(self).ids();
                let n = final(self).ids();
                &&& rows.len() == count
                &&& spans_in_pages(r->Ok_0@, o.spec_rows_per_page() as int)
                &&& forall|k: int| 0 <= k < count ==> !o.allocated(#[trigger] rows[k] as int) && n.allocated(rows[k] as int)
                    && n.slot(rows[k] as int) == Some(entities@[k])
                &&& forall|h: int| #[trigger] n.allocated(h) ==> o.allocated(h) || exists|j: int| 0 <= j < rows.len() && rows[j] == h
                &&& forall|h: int| #[trigger] o.allocated(h) ==> n.allocated(h) && n.slot(h) == o.slot(h)
                &&& final(self).spec_len() == old(self).spec_len() + count
                &&& forall|i: int| 0 <= i < old(self).cols().len() ==> col_grew_by(
                    old(self).cols()[i],
                    #[trigger] final(self).cols()[i],
                    count as nat,
                )
            }),
    {
        if entities.len() < count {
            return Err(StorageError::NotEnoughEntities { expected: count, got: entities.len() });
        }
        let ghost o = self.entity_ids;
        let ghost rpp = self.entity_ids.spec_rows_per_page() as int;
        let ghost p0 = o.pages_view().len();
        proof {
            self.entity_ids.lemma_rpp_positive();
        }
        let mut spans: Vec<Range<usize>> = Vec::new();
        let ghost mut rows: Seq<usize> = Seq::empty();
        let mut k: usize = 0;
        while k < count
            invariant
                k <= count <= entities@.len(),
                rpp == self.entity_ids.spec_rows_per_page() as int,
                rpp > 0,
                rpp == o.spec_rows_per_page() as int,
                (p0 + count + 1) * rpp <= usize::MAX,
                self.entity_ids.pages_view().len() <= p0 + k,
                self.entity_ids.wf(),
                pages_written(self.entity_ids.pages_view()),
                self.entity_ids.spec_rows_per_page() == self.plan.rows_per_page,
                self.columns == old(self).columns,
                self.plan == old(self).plan,
                self.len == old(self).len,
                o == old(self).entity_ids,
                p0 == o.pages_view().len(),
                rows.len() == k,
                span_rows(spans@) == rows,
                spans_in_pages(spans@, rpp),
                spans@.len() > 0 ==> spans@.last().end == rows.last() + 1,
                forall|j: int| 0 <= j < k ==> !o.allocated(#[trigger] rows[j] as int) && self.entity_ids.allocated(rows[j] as int)
                    && self.entity_ids.slot(rows[j] as int) == Some(entities@[j]),
                forall|h: int| #[trigger] self.entity_ids.allocated(h) ==> o.allocated(h) || exists|j: int| 0 <= j < rows.len() && rows[j] == h,
                forall|h: int| #[trigger] o.allocated(h) ==> self.entity_ids.allocated(h) && self.entity_ids.slot(h) == o.slot(h),
            decreases count - k,
        {
            proof {
                let pl = self.entity_ids.pages_view().len() as int;
                assert((pl + 1) * rpp <= (p0 + count + 1) * rpp) by (nonlinear_arith)
                    requires pl <= p0 + k, k < count, rpp > 0;
            }
            let ghost before = self.entity_ids;
            let ghost rows0 = rows;
            let ghost spans0 = spans@;
            let g = self.entity_ids.push_value(entities[k]);
            proof {
                rows = rows.push(g);
                let pl = self.entity_ids.pages_view().len() as int;
                let gi = g as int;
                assert(gi / rpp < pl);
                assert(gi < pl * rpp) by (nonlinear_arith)
                    requires gi / rpp < pl, rpp > 0, gi >= 0;
                assert(pl * rpp <= (p0 + count + 1) * rpp) by (nonlinear_arith)
                    requires pl <= p0 + k + 1, k < count, rpp > 0;
            }
            let n = spans.len();
            if n > 0 && spans[n - 1].end == g && g % self.entity_ids.rows_per_page() != 0 {
                let start = spans[n - 1].start;
                spans.set(n - 1, Range { start, end: g + 1 });
                proof {
                    assert(spans@.drop_last() =~= spans0.drop_last());
                    let last0 = spans0.last();
                    assert(Seq::new((g + 1 - start) as nat, |i: int| (start + i) as usize) =~= Seq::new(
                        (last0.end - last0.start) as nat,
                        |i: int| (last0.start + i) as usize,
                    ).push(g));
                    assert(span_rows(spans@) =~= rows);
                    assert((g - 1) as int / rpp == g as int / rpp) by (nonlinear_arith)
                        requires g as int % rpp != 0, rpp > 0, g >= 1;
                    assert forall|j: int| 0 <= j < spans@.len() implies (#[trigger] spans@[j]).start < spans@[j].end
                        && spans@[j].start as int / rpp == (spans@[j].end - 1) / rpp by {
                        if j < spans@.len() - 1 {
                            assert(spans@[j] == spans0[j]);
                        }
                    }
                }
            } else {
                spans.push(Range { start: g, end: g + 1 });
                proof {
                    assert(spans@.drop_last() =~= spans0);
                    assert(Seq::new(1nat, |i: int| (g + i) as usize) =~= seq![g]);
                    assert(span_rows(spans@) =~= rows);
                    assert forall|j: int| 0 <= j < spans@.len() implies (#[trigger] spans@[j]).start < spans@[j].end
                        && spans@[j].start as int / rpp == (spans@[j].end - 1) / rpp by {
                        if j < spans@.len() - 1 {
                            assert(spans@[j] == spans0[j]);
                        }
                    }
                }
            }
            proof {
                assert forall|j: int| 0 <= j < k + 1 implies !o.allocated(#[trigger] rows[j] as int) && self.entity_ids.allocated(
                    rows[j] as int,
                ) && self.entity_ids.slot(rows[j] as int) == Some(entities@[j]) by {
                    if j < k {
                        assert(rows[j] == rows0[j]);
                        assert(rows0[j] != g);
                    }
                }
                assert forall|h: int| #[trigger] self.entity_ids.allocated(h) implies o.allocated(h) || exists|j: int|
                    0 <= j < rows.len() && rows[j] == h by {
                    if h != g as int {
                        assert(before.allocated(h));
                        if !o.allocated(h) {
                            let j = choose|j: int| 0 <= j < rows0.len() && rows0[j] == h;
                            assert(rows[j] == rows0[j]);
                        }
                    } else {
                        assert(rows[k as int] == g);
                    }
                }
                assert forall|h: int| #[trigger] o.allocated(h) implies self.entity_ids.allocated(h) && self.entity_ids.slot(h)
                    == o.slot(h) by {
                    assert(before.allocated(h));
                }
            }
            k = k + 1;
        }
        let ghost cols0 = self.columns@;
        let ghost ids1 = self.entity_ids;
        let mut i: usize = 0;
        while i < self.columns.len()
            invariant
                i <= self.columns@.len(),
                self.columns@.len() == cols0.len(),
                cols0 == old(self).columns@,
                self.entity_ids == ids1,
                forall|j: int| 0 <= j < i ==> col_grew_by(cols0[j], #[trigger] self.columns@[j], count as nat),
                forall|j: int| i <= j < cols0.len() ==> #[trigger] self.columns@[j] == cols0[j],
                forall|j: int| 0 <= j < cols0.len() ==> (#[trigger] cols0[j]).wf() && cols0[j].spec_len() + count <= usize::MAX
                    && cols0[j].spec_rows_per_page() == self.plan.rows_per_page,
                self.len == old(self).len,
                old(self).len + count <= usize::MAX,
                self.plan == old(self).plan,
                self.entity_ids.wf(),
                pages_written(self.entity_ids.pages_view()),
                self.entity_ids.spec_rows_per_page() == self.plan.rows_per_page,
            decreases cols0.len() - i,
        {
            let _ = self.columns[i].alloc_bulk(count);
            i = i + 1;
        }
        self.len = self.len + count;
        proof {
            assert forall|j: int| 0 <= j < self.columns@.len() implies (#[trigger] self.columns@[j]).wf()
                && self.columns@[j].spec_rows_per_page() == self.plan.rows_per_page by {
                assert(col_grew_by(cols0[j], self.columns@[j], count as nat));
            }
        }
        Ok(spans)
    }

    /// Overwrite the rows of `range` of the write buffer of column
    /// `component_id` with `bytes`, as the column's own range write does.
    pub fn write_next_range(&mut self, component_id: ComponentId, range: Range<usize>, bytes: &[u8]) -> (r: Result<(), StorageError>)
        requires
            old(self).wf(),
        ensures
            final(self).wf(),
            final(self).spec_plan() == old(self).spec_plan(),
            final(self).spec_len() == old(self).spec_len(),
            final(self).ids() == old(self).ids(),
            final(self).cols().len() == old(self).cols().len(),
            match column_index(old(self).cols(), component_id) {
                None => r == Err::<(), StorageError>(StorageError::ColumnMissing { component_id })
                    && final(self).cols() == old(self).cols(),
                Some(i) => {
                    &&& forall|k: int| 0 <= k < old(self).cols().len() && k != i ==> #[trigger] final(self).cols()[k] == old(self).cols()[k]
                    &&& exists|rc: Result<(), ColumnError>| {
                        &&& #[trigger] next_range_written(old(self).cols()[i], final(self).cols()[i], range.start, range.end, bytes@, rc)
                        &&& match rc {
                            Ok(()) => r is Ok,
                            Err(e) => r == Err::<(), StorageError>(StorageError::Column(e)),
                        }
                    }
                },
            },
    {
        proof {
            lemma_column_index_in_range(self.columns@, component_id);
        }
        let idx = match self.find_column(component_id) {
            Some(i) => i,
            None => {
                return Err(StorageError::ColumnMissing { component_id });
            },
        };
        assert(self.columns@[idx as int].wf());
        let ghost cols0 = self.columns@;
        let rc = self.columns[idx].write_next_range(range, bytes);
        assert(forall|k: int| 0 <= k < cols0.len() && k != idx ==> #[trigger] self.columns@[k] == cols0[k]);
        proof {
            assert(next_range_written(cols0[idx as int], self.columns@[idx as int], range.start, range.end, bytes@, rc));
        }
        match rc {
            Ok(()) => Ok(()),
            Err(e) => Err(StorageError::Column(e)),
        }
    }

    /// Store the bytes of component `component_id` in row `gidx`: `current`
    /// in the read buffer, and `next` (or a copy of `current`) in the write
    /// buffer.
    pub fn write_component(
        &mut self,
        component_id: ComponentId,
        gidx: usize,
        current: &[u8],
        next: Option<&[u8]>,
    ) -> (r: Result<(), StorageError>)
        requires
            old(self).wf(),
        ensures
            final(self).wf(),
            final(self).spec_plan() == old(self).spec_plan(),
            final(self).spec_len() == old(self).spec_len(),
            final(self).ids() == old(self).ids(),
            final(self).cols().len() == old(self).cols().len(),
            match column_index(old(self).cols(), component_id) {
                None => r == Err::<(), StorageError>(StorageError::ColumnMissing { component_id })
                    && final(self).cols() == old(self).cols(),
                Some(i) => {
                    let c = old(self).cols()[i];
                    let nc = final(self).cols()[i];
                    let rpp = c.spec_rows_per_page();
                    let st = c.spec_stride();
                    &&& forall|k: int| 0 <= k < old(self).cols().len() && k != i ==> #[trigger] final(self).cols()[k] == old(self).cols()[k]
                    &&& nc.wf() && nc.spec_len() == c.spec_len() && nc.spec_rows_per_page() == rpp
                        && nc.spec_stride() == st && nc.spec_plan() == c.spec_plan()
                    &&& if current@.len() != st {
                        r == Err::<(), StorageError>(StorageError::Column(ColumnError::StrideMismatch { expected: st as usize, got: current@.len() as usize }))
                            && nc.cur_bufs() == c.cur_bufs() && nc.nxt_bufs() == c.nxt_bufs()
                    } else if gidx >= c.spec_len() {
                        r == Err::<(), StorageError>(StorageError::Column(ColumnError::IndexOutOfBounds { index: gidx, len: c.spec_len() as usize }))
                            && nc.cur_bufs() == c.cur_bufs() && nc.nxt_bufs() == c.nxt_bufs()
                    } else {
                        let cur2 = write_row(c.cur_bufs(), gidx as int, rpp, st, current@);
                        &&& nc.cur_bufs() == cur2
                        &&& match next {
                            None => r is Ok && nc.nxt_bufs() == write_row(c.nxt_bufs(), gidx as int, rpp, st, current@),
                            Some(nb) => if nb@.len() != st {
                                r == Err::<(), StorageError>(StorageError::Column(ColumnError::StrideMismatch { expected: st as usize, got: nb@.len() as usize }))
                                    && nc.nxt_bufs() == c.nxt_bufs()
                            } else {
                                r is Ok && nc.nxt_bufs() == write_row(c.nxt_bufs(), gidx as int, rpp, st, nb@)
                            },
                        }
                    }
                },
            },
    {
        proof {
            lemma_column_index_in_range(self.columns@, component_id);
        }
        let idx = match self.find_column(component_id) {
            Some(i) => i,
            None => {
                return Err(StorageError::ColumnMissing { component_id });
            },
        };
        assert(self.columns@[idx as int].wf());
        let ghost cols0 = self.columns@;
        let r1 = self.columns[idx].write_cur_at(gidx, current);
        assert(forall|k: int| 0 <= k < cols0.len() && k != idx ==> #[trigger] self.columns@[k] == cols0[k]);
        match r1 {
            Ok(()) => {},
            Err(e) => {
                return Err(StorageError::Column(e));
            },
        }
        let ghost mid = self.columns@[idx as int];
        match next {
            Some(next_bytes) => {
                let r2 = self.columns[idx].write_next_at(gidx, next_bytes);
                assert(forall|k: int| 0 <= k < cols0.len() && k != idx ==> #[trigger] self.columns@[k] == cols0[k]);
                match r2 {
                    Ok(()) => {},
                    Err(e) => {
                        return Err(StorageError::Column(e));
                    },
                }
            },
            None => {
                let _ = self.columns[idx].copy_cur_to_next(gidx);
                assert(forall|k: int| 0 <= k < cols0.len() && k != idx ==> #[trigger] self.columns@[k] == cols0[k]);
                proof {
                    assert(mid.cur_row(gidx as int) =~= current@) by {
                        crate::ecs::storage::column::lemma_row_after_write(mid, old(self).columns@[idx as int], gidx as int, current@);
                    }
                }
            },
        }
        Ok(())
    }

    /// Exchange the read and write buffers of every column.
    pub fn swap_buffers(&mut self)
        requires
            old(self).wf(),
        ensures
            final(self).wf(),
            final(self).spec_plan() == old(self).spec_plan(),
            final(self).spec_len() == old(self).spec_len(),
            final(self).ids() == old(self).ids(),
            final(self).cols().len() == old(self).cols().len(),
            forall|i: int| 0 <= i < old(self).cols().len() ==> col_swapped(old(self).cols()[i], #[trigger] final(self).cols()[i]),
    {
        let ghost cols0 = self.columns@;
        let mut i: usize = 0;
        while i < self.columns.len()
            invariant
                i <= self.columns@.len(),
                self.columns@.len() == cols0.len(),
                forall|k: int| 0 <= k < i ==> col_swapped(cols0[k], #[trigger] self.columns@[k]),
                forall|k: int| i <= k < cols0.len() ==> #[trigger] self.columns@[k] == cols0[k],
                forall|k: int| 0 <= k < cols0.len() ==> (#[trigger] cols0[k]).wf() && cols0[k].spec_rows_per_page() == self.plan.rows_per_page,
                cols0 == old(self).columns@,
                self.entity_ids == old(self).entity_ids,
                self.len == old(self).len,
                self.plan == old(self).plan,
            decreases cols0.len() - i,
        {
            self.columns[i].swap_buffers();
            i = i + 1;
        }
    }

    /// Remove the rows `gidxs` (duplicates count once): first from the id
    /// pool (filled from its end), then from every column
    /// (each filled from its end). Returns every move reported, sorted, each
    /// once. The first failure stops the removal.
    #[verifier::rlimit(60)]
    pub fn free_bulk_swap_remove(&mut self, gidxs: Vec<usize>) -> (r: Result<Vec<(usize, usize)>, StorageError>)
        requires
            old(self).wf(),
        ensures
            final(self).wf(),
            final(self).spec_plan() == old(self).spec_plan(),
            final(self).cols().len() == old(self).cols().len(),
            final(self).ids().spec_rows_per_page() == old(self).ids().spec_rows_per_page(),
            gidxs@.len() == 0 ==> r is Ok && r->Ok_0@.len() == 0 && final(self).ids() == old(self).ids()
                && final(self).cols() == old(self).cols() && final(self).spec_len() == old(self).spec_len(),
            gidxs@.len() > 0 ==> exists|sg: Seq<usize>, pm: Seq<(usize, usize)>, rp: Result<(), PoolError>, ms: Seq<Seq<(usize, usize)>>|
                #[trigger] bulk_remove_result(*old(self), *final(self), gidxs@, r, sg, pm, rp, ms),
    {
        if gidxs.len() == 0 {
            return Ok(Vec::new());
        }
        let mut moved: Vec<(usize, usize)> = Vec::new();
        let ghost pages0 = self.entity_ids.pages_view();
        proof {
            self.entity_ids.lemma_rows();
        }
        let rp = self.entity_ids.free_bulk_swap_remove(copy_indices(&gidxs), &mut moved);
        let ghost pm = moved@;
        let ghost sg = choose|sg: Seq<usize>|
            sorted_usize(sg) && sg.to_multiset() == gidxs@.to_multiset() && #[trigger] bulk_free_outcome(
                pages0,
                old(self).entity_ids.spec_rows_per_page() as nat,
                sg,
                Seq::empty(),
                pm,
                self.entity_ids.pages_view(),
                rp,
            );
        assert(sorted_usize(sg) && sg.to_multiset() == gidxs@.to_multiset() && bulk_free_outcome(
            pages0,
            old(self).entity_ids.spec_rows_per_page() as nat,
            sg,
            Seq::empty(),
            pm,
            self.entity_ids.pages_view(),
            rp,
        ));
        proof {
            lemma_bulk_free_written(pages0, old(self).entity_ids.spec_rows_per_page() as nat, old(self).entity_ids.spec_len(), sg, Seq::empty(), pm, self.entity_ids.pages_view(), rp);
        }
        match rp {
            Err(e) => {
                assert(self.columns@ == old(self).columns@);
                assert(self.plan == old(self).plan);
                assert(self.entity_ids.wf());
                assert(self.entity_ids.spec_rows_per_page() == self.plan.rows_per_page);
                assert(old(self).wf());
                assert(forall|i: int| 0 <= i < old(self).cols().len() ==> (#[trigger] old(self).cols()[i]).wf());
                assert(forall|i: int| 0 <= i < self.cols().len() ==> (#[trigger] self.cols()[i]).wf());
                assert(pages0 == old(self).ids().pages_view());
                assert(bulk_free_outcome(old(self).ids().pages_view(), old(self).ids().spec_rows_per_page() as nat, sg, Seq::empty(), pm, self.ids().pages_view(), rp));
                assert(rp == Err::<(), PoolError>(e));
                let res = Err(StorageError::EntityPool(e));
                assert(bulk_remove_result(*old(self), *self, gidxs@, res, sg, pm, rp, Seq::empty()));
                return res;
            },
            Ok(()) => {},
        }
        let ghost ids1 = self.entity_ids;
        let ghost cols0 = self.columns@;
        let ghost u = index_set(gidxs@);
        let ghost mut ms: Seq<Seq<(usize, usize)>> = Seq::empty();
        let mut i: usize = 0;
        while i < self.columns.len()
            invariant
                i <= self.columns@.len(),
                self.columns@.len() == cols0.len(),
                cols0 == old(self).columns@,
                gidxs@.len() > 0,
                forall|k: int| 0 <= k < cols0.len() ==> (#[trigger] cols0[k]).wf() && cols0[k].spec_rows_per_page() == self.plan.rows_per_page,
                u == index_set(gidxs@),
                rp is Ok,
                sorted_usize(sg),
                sg.to_multiset() == gidxs@.to_multiset(),
                pages0 == old(self).entity_ids.pages_view(),
                bulk_free_outcome(pages0, old(self).entity_ids.spec_rows_per_page() as nat, sg, Seq::empty(), pm, ids1.pages_view(), rp),
                first_too_short(cols0.take(i as int), u.last() as int) == i,
                ms.len() == i,
                forall|k: int| 0 <= k < i ==> col_bulk_removed(cols0[k], #[trigger] self.columns@[k], gidxs@, ms[k]),
                forall|k: int| i <= k < cols0.len() ==> #[trigger] self.columns@[k] == cols0[k],
                moved@ == pm + concat_all(ms),
                self.entity_ids == ids1,
                ids1.wf(),
                pages_written(ids1.pages_view()),
                ids1.spec_rows_per_page() == self.plan.rows_per_page,
                ids1.spec_rows_per_page() == old(self).entity_ids.spec_rows_per_page(),
                self.len == old(self).len,
                self.plan == old(self).plan,
            decreases cols0.len() - i,
        {
            assert(cols0.take(i + 1).drop_last() =~= cols0.take(i as int));
            assert(cols0.take(i + 1).last() == cols0[i as int]);
            let rc = self.columns[i].free_bulk_swap_remove(copy_indices(&gidxs));
            match rc {
                Err(e) => {
                    proof {
                        lemma_too_short_sticks(cols0, u.last() as int, i + 1);
                        assert(bulk_free_outcome(old(self).ids().pages_view(), old(self).ids().spec_rows_per_page() as nat, sg, Seq::empty(), pm, self.ids().pages_view(), rp));
                        assert forall|k: int| 0 <= k < i implies exists|m: Seq<(usize, usize)>| col_bulk_removed(cols0[k], #[trigger] self.columns@[k], gidxs@, m) by {
                            assert(col_bulk_removed(cols0[k], self.columns@[k], gidxs@, ms[k]));
                        }
                        assert(self.columns@[i as int] == cols0[i as int]);
                        assert(first_too_short(cols0, u.last() as int) == i);
                        assert(e == ColumnError::IndexOutOfBounds { index: u.last(), len: cols0[i as int].spec_len() as usize });
                        assert(self.spec_len() == old(self).spec_len());
                        assert(index_set(gidxs@) == u);
                    }
                    let res = Err(StorageError::Column(e));
                    proof {
                        let f = first_too_short(old(self).cols(), index_set(gidxs@).last() as int);
                        assert(f == i);
                        assert(old(self).cols() == cols0);
                        assert(forall|k: int| f <= k < cols0.len() ==> #[trigger] self.cols()[k] == cols0[k]);
                        assert(forall|k: int| 0 <= k < ms.len() ==> col_bulk_removed(cols0[k], #[trigger] self.cols()[k], gidxs@, ms[k]));
                        assert(res == Err::<Vec<(usize, usize)>, StorageError>(StorageError::Column(ColumnError::IndexOutOfBounds { index: index_set(gidxs@).last(), len: cols0[f].spec_len() as usize })));
                    }
                    assert(bulk_remove_result(*old(self), *self, gidxs@, res, sg, pm, rp, ms));
                    return res;
                },
                Ok(cm) => {
                    let mut cm = cm;
                    let ghost old_ms = ms;
                    proof {
                        ms = ms.push(cm@);
                        assert(ms.drop_last() =~= old_ms);
                        assert(forall|k: int| 0 <= k < i ==> ms[k] == old_ms[k]);
                        assert(col_bulk_removed(cols0[i as int], self.columns@[i as int], gidxs@, cm@));
                    }
                    moved.append(&mut cm);
                },
            }
            i = i + 1;
        }
        assert(cols0.take(cols0.len() as int) =~= cols0);
        let out = sort_dedup_pairs(&moved);
        self.len = self.entity_ids.len_total();
        assert(bulk_free_outcome(old(self).ids().pages_view(), old(self).ids().spec_rows_per_page() as nat, sg, Seq::empty(), pm, self.ids().pages_view(), rp));
        let res = Ok(out);
        assert(bulk_remove_result(*old(self), *self, gidxs@, res, sg, pm, rp, ms));
        res
    }

    /// Remove row `gidx`: swap-remove in the id pool and in every column,
    /// each moving its last row into the gap. Returns the move to
    /// report: that of the last column in which a row moved, else the id
    /// pool's.
    pub fn free_one_swap_remove(&mut self, gidx: usize) -> (r: Result<Option<(usize, usize)>, StorageError>)
        requires
            old(self).wf(),
        ensures
            final(self).wf(),
            final(self).spec_plan() == old(self).spec_plan(),
            final(self).cols().len() == old(self).cols().len(),
            ({
                let pool = old(self).ids();
                let rpp = pool.spec_rows_per_page() as int;
                let pv = pool.pages_view();
                let p = gidx as int / rpp;
                let l = gidx as int % rpp;
                let cols = old(self).cols();
                let f = first_short_column(cols, gidx as int);
                if gidx >= old(self).spec_len() {
                    r == Err::<Option<(usize, usize)>, StorageError>(
                        StorageError::IndexOutOfBounds { index: gidx, len: old(self).spec_len() as usize },
                    ) && final(self).ids() == pool && final(self).cols() == cols && final(self).spec_len() == old(self).spec_len()
                } else if p >= pv.len() {
                    r == Err::<Option<(usize, usize)>, StorageError>(StorageError::EntityPool(PoolError::PageMissing { page: p as usize }))
                        && final(self).ids().pages_view() == pv && final(self).cols() == cols
                        && final(self).spec_len() == old(self).spec_len()
                } else if l >= pv[p].len() {
                    r == Err::<Option<(usize, usize)>, StorageError>(
                        StorageError::EntityPool(PoolError::IndexOutOfBounds { index: l as usize, len: pv[p].len() as usize }),
                    ) && final(self).ids().pages_view() == pv && final(self).cols() == cols
                        && final(self).spec_len() == old(self).spec_len()
                } else {
                    let n = total_len(pv, rpp as nat);
                    let pool_move = if gidx == n - 1 { None } else { Some(((n - 1) as usize, gidx)) };
                    &&& final(self).ids().pages_view() == pool_swap_remove(pv, rpp as nat, gidx as int)
                    &&& forall|i: int| 0 <= i < f ==> col_removed(cols[i], #[trigger] final(self).cols()[i], gidx as int)
                    &&& forall|i: int| f <= i < cols.len() ==> #[trigger] final(self).cols()[i] == cols[i]
                    &&& if f < cols.len() {
                        r == Err::<Option<(usize, usize)>, StorageError>(
                            StorageError::Column(ColumnError::IndexOutOfBounds { index: gidx, len: cols[f].spec_len() as usize }),
                        ) && final(self).spec_len() == old(self).spec_len()
                    } else {
                        r == Ok::<Option<(usize, usize)>, StorageError>(merged_move(cols, gidx as int, pool_move))
                            && final(self).spec_len() == old(self).spec_len() - 1
                    }
                }
            }),
    {
        if gidx >= self.len {
            return Err(StorageError::IndexOutOfBounds { index: gidx, len: self.len });
        }
        proof {
            self.entity_ids.lemma_rows();
        }
        let mut moved = match self.entity_ids.free_one_swap_remove(gidx) {
            Ok(m) => m,
            Err(e) => {
                return Err(StorageError::EntityPool(e));
            },
        };
        let ghost pool_move = moved;
        let ghost ids1 = self.entity_ids;
        proof {
            let ov = old(self).entity_ids.pages_view();
            let rpp = old(self).entity_ids.spec_rows_per_page() as nat;
            lemma_swap_remove_written(ov, rpp, old(self).entity_ids.spec_len(), gidx as int);
        }
        let ghost cols0 = self.columns@;
        let mut i: usize = 0;
        while i < self.columns.len()
            invariant
                i <= self.columns@.len(),
                self.columns@.len() == cols0.len(),
                cols0 == old(self).columns@,
                forall|k: int| 0 <= k < cols0.len() ==> (#[trigger] cols0[k]).wf() && cols0[k].spec_rows_per_page() == self.plan.rows_per_page,
                first_short_column(cols0.take(i as int), gidx as int) == i,
                moved == merged_move(cols0.take(i as int), gidx as int, pool_move),
                forall|k: int| 0 <= k < i ==> col_removed(cols0[k], #[trigger] self.columns@[k], gidx as int),
                forall|k: int| i <= k < cols0.len() ==> #[trigger] self.columns@[k] == cols0[k],
                self.entity_ids == ids1,
                pages_written(ids1.pages_view()),
                gidx < old(self).len,
                ({
                    let pv = old(self).entity_ids.pages_view();
                    let rpp = old(self).entity_ids.spec_rows_per_page() as int;
                    let p = gidx as int / rpp;
                    let l = gidx as int % rpp;
                    &&& p < pv.len()
                    &&& l < pv[p].len()
                    &&& ids1.pages_view() == pool_swap_remove(pv, rpp as nat, gidx as int)
                    &&& pool_move == (if gidx == total_len(pv, rpp as nat) - 1 { None } else { Some(((total_len(pv, rpp as nat) - 1) as usize, gidx)) })
                }),
                ids1.wf(),
                ids1.spec_rows_per_page() == self.plan.rows_per_page,
                self.len == old(self).len,
                self.plan == old(self).plan,
            decreases cols0.len() - i,
        {
            assert(cols0.take(i + 1).drop_last() =~= cols0.take(i as int));
            assert(cols0.take(i + 1).last() == cols0[i as int]);
            match self.columns[i].free_one_swap_remove(gidx) {
                Err(e) => {
                    proof {
                        lemma_first_short_sticks(cols0, gidx as int, i + 1);
                    }
                    return Err(StorageError::Column(e));
                },
                Ok(Some(m)) => {
                    moved = Some(m);
                },
                Ok(None) => {},
            }
            i = i + 1;
        }
        assert(cols0.take(cols0.len() as int) =~= cols0);
        self.len = self.len - 1;
        Ok(moved)
    }
}

pub proof fn lemma_column_index_in_range(cols: Seq<ComponentColumn>, cid: ComponentId)
    ensures
        column_index(cols, cid) matches Some(i) ==> 0 <= i < cols.len() && cols[i].spec_plan().component_id == cid,
    decreases cols.len(),
{
    if cols.len() > 0 {
        lemma_column_index_in_range(cols.drop_last(), cid);
    }
}

proof fn lemma_first_short_sticks(cols: Seq<ComponentColumn>, g: int, k: int)
    requires
        0 <= k <= cols.len(),
        first_short_column(cols.take(k), g) < k,
    ensures
        first_short_column(cols, g) == first_short_column(cols.take(k), g),
    decreases cols.len() - k,
{
    if k < cols.len() {
        assert(cols.take(k + 1).drop_last() =~= cols.take(k));
        lemma_first_short_sticks(cols, g, k + 1);
    } else {
        assert(cols.take(k) =~= cols);
    }
}


/// In a pool whose slots all hold values, every allocated row holds one.
proof fn lemma_written_slots(pool: &PagedPool<EntityId>)
    requires
        pool.wf(),
        pages_written(pool.pages_view()),
    ensures
        forall|g: int| #[trigger] pool.allocated(g) ==> pool.slot(g).is_some(),
{
    assert forall|g: int| #[trigger] pool.allocated(g) implies pool.slot(g).is_some() by {
        let rpp = pool.spec_rows_per_page() as int;
        let pv = pool.pages_view();
        pool.lemma_rpp_positive();
        assert(0 <= g / rpp && 0 <= g % rpp) by (nonlinear_arith)
            requires rpp > 0, g >= 0;
        assert(pv[g / rpp][g % rpp] is Some);
    }
}

/// A copy of an index list.
pub fn copy_indices(v: &Vec<usize>) -> (out: Vec<usize>)
    ensures
        out@ == v@,
{
    let mut out: Vec<usize> = Vec::new();
    let mut i: usize = 0;
    while i < v.len()
        invariant
            i <= v@.len(),
            out@ == v@.take(i as int),
        decreases v@.len() - i,
    {
        out.push(v[i]);
        i = i + 1;
        assert(out@ =~= v@.take(i as int));
    }
    assert(v@.take(v@.len() as int) =~= v@);
    out
}

proof fn lemma_too_short_sticks(cols: Seq<ComponentColumn>, g: int, k: int)
    requires
        0 <= k <= cols.len(),
        first_too_short(cols.take(k), g) < k,
    ensures
        first_too_short(cols, g) == first_too_short(cols.take(k), g),
    decreases cols.len() - k,
{
    if k < cols.len() {
        assert(cols.take(k + 1).drop_last() =~= cols.take(k));
        lemma_too_short_sticks(cols, g, k + 1);
    } else {
        assert(cols.take(k) =~= cols);
    }
}

} // verus!
