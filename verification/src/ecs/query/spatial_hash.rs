//! Spatial hash that emits broad-phase relation pairs in one pass.
//!
//! Points are processed in order. Each point is compared with the points
//! already placed in its own cell and in the eight cells around it, and a
//! relation is pushed for every one within the radius; then the point joins
//! its cell. Arithmetic that would overflow `i32` in a cell coordinate or a
//! coordinate difference drops that cell or pair.
use vstd::prelude::*;
use std::collections::HashMap;
use std::time::Instant;
use crate::clock::{elapsed_since, instant_now, nanos_of};
use crate::ecs::component::ComponentId;
use crate::ecs::entity::{Entity, bits_index};
use crate::ecs::query::relation::{EntityRelationEntry, RelationBuffer, RelationDelta, RelationRecord, RelationType, add_edge, flip, flippable};
use crate::ecs::world::{World, position_of};
use crate::ecs::storage::archetype_storage::{ArchetypeStorage, column_index};
use crate::ecs::storage::column::{ComponentColumn, page_rows, pages_for};
use crate::ecs::entity::EntityId;
use crate::pool::paged_pool::{tile_value, lemma_tile_value};

verus! {

broadcast use vstd::std_specs::hash::group_hash_axioms;

/// Settings of a spatial hash: the component holding each entity's
/// position (two `i32` at the start of its bytes), the cell size, the
/// radius within which two entities are related, and the relation emitted.
#[derive(Clone, Copy, Debug)]
pub struct SpatialHashConfig {
    pub component_id: ComponentId,
    pub cell_size: i32,
    pub radius: i32,
    pub relation: RelationType,
}

impl SpatialHashConfig {
    /// A configuration; cell size and radius are raised to at least 1.
    pub fn new(component_id: ComponentId, cell_size: i32, radius: i32, relation: RelationType) -> (c: Self)
        ensures
            c.component_id == component_id,
            c.cell_size == if cell_size < 1 { 1 } else { cell_size },
            c.radius == if radius < 1 { 1 } else { radius },
            c.relation == relation,
    {
        SpatialHashConfig {
            component_id,
            cell_size: if cell_size < 1 { 1 } else { cell_size },
            radius: if radius < 1 { 1 } else { radius },
            relation,
        }
    }
}

/// Coordinates of a grid cell.
#[derive(Clone, Copy, Debug, PartialEq, Eq, Structural)]
pub struct CellCoord {
    pub x: i32,
    pub y: i32,
}

/// A point placed in the grid.
#[derive(Clone, Copy, Debug)]
struct GridEntry {
    entity: Entity,
    coord: CellCoord,
    x: i32,
    y: i32,
}

/// Counters of the spatial hash: time spent (nanoseconds) and calls for a
/// whole rebuild, for recycling the cells and for comparing a point with a
/// cell, and the points, relations, cell lookups, cells found, cells reused
/// and cells allocated. Counters wrap around.
#[derive(Clone, Copy, Debug)]
pub struct SpatialHashMetricsSnapshot {
    pub total_ns: u64,
    pub total_calls: u64,
    pub recycle_ns: u64,
    pub recycle_calls: u64,
    pub emit_ns: u64,
    pub emit_calls: u64,
    pub entities: u64,
    pub relations: u64,
    pub bucket_lookups: u64,
    pub bucket_hits: u64,
    pub bucket_reuses: u64,
    pub bucket_allocs: u64,
}

impl SpatialHashMetricsSnapshot {
    pub open spec fn is_zero(&self) -> bool {
        &&& self.total_ns == 0
        &&& self.total_calls == 0
        &&& self.recycle_ns == 0
        &&& self.recycle_calls == 0
        &&& self.emit_ns == 0
        &&& self.emit_calls == 0
        &&& self.entities == 0
        &&& self.relations == 0
        &&& self.bucket_lookups == 0
        &&& self.bucket_hits == 0
        &&& self.bucket_reuses == 0
        &&& self.bucket_allocs == 0
    }

    /// All counters at zero.
    /// Add every counter of `m` to this one, wrapping around.
    pub fn accumulate(&mut self, m: &Self)
        ensures
            final(self).total_ns == old(self).total_ns.wrapping_add(m.total_ns),
            final(self).total_calls == old(self).total_calls.wrapping_add(m.total_calls),
            final(self).recycle_ns == old(self).recycle_ns.wrapping_add(m.recycle_ns),
            final(self).recycle_calls == old(self).recycle_calls.wrapping_add(m.recycle_calls),
            final(self).emit_ns == old(self).emit_ns.wrapping_add(m.emit_ns),
            final(self).emit_calls == old(self).emit_calls.wrapping_add(m.emit_calls),
            final(self).entities == old(self).entities.wrapping_add(m.entities),
            final(self).relations == old(self).relations.wrapping_add(m.relations),
            final(self).bucket_lookups == old(self).bucket_lookups.wrapping_add(m.bucket_lookups),
            final(self).bucket_hits == old(self).bucket_hits.wrapping_add(m.bucket_hits),
            final(self).bucket_reuses == old(self).bucket_reuses.wrapping_add(m.bucket_reuses),
            final(self).bucket_allocs == old(self).bucket_allocs.wrapping_add(m.bucket_allocs),
    {
        self.total_ns = self.total_ns.wrapping_add(m.total_ns);
        self.total_calls = self.total_calls.wrapping_add(m.total_calls);
        self.recycle_ns = self.recycle_ns.wrapping_add(m.recycle_ns);
        self.recycle_calls = self.recycle_calls.wrapping_add(m.recycle_calls);
        self.emit_ns = self.emit_ns.wrapping_add(m.emit_ns);
        self.emit_calls = self.emit_calls.wrapping_add(m.emit_calls);
        self.entities = self.entities.wrapping_add(m.entities);
        self.relations = self.relations.wrapping_add(m.relations);
        self.bucket_lookups = self.bucket_lookups.wrapping_add(m.bucket_lookups);
        self.bucket_hits = self.bucket_hits.wrapping_add(m.bucket_hits);
        self.bucket_reuses = self.bucket_reuses.wrapping_add(m.bucket_reuses);
        self.bucket_allocs = self.bucket_allocs.wrapping_add(m.bucket_allocs);
    }

    pub fn zero() -> (m: Self)
        ensures
            m.is_zero(),
    {
        SpatialHashMetricsSnapshot {
            total_ns: 0,
            total_calls: 0,
            recycle_ns: 0,
            recycle_calls: 0,
            emit_ns: 0,
            emit_calls: 0,
            entities: 0,
            relations: 0,
            bucket_lookups: 0,
            bucket_hits: 0,
            bucket_reuses: 0,
            bucket_allocs: 0,
        }
    }
}

impl Default for SpatialHashMetricsSnapshot {
    fn default() -> (m: Self)
        ensures
            m.is_zero(),
    {
        Self::zero()
    }
}

/// `b` read as a little-endian `u32`.
pub open spec fn le_u32(b: Seq<u8>) -> int {
    b[0] + b[1] * 0x100 + b[2] * 0x1_0000 + b[3] * 0x100_0000
}

/// A `u32` bit pattern read as a two's-complement `i32`.
pub open spec fn as_signed(u: int) -> int {
    if u >= 0x8000_0000 { u - 0x1_0000_0000 } else { u }
}

/// `v` is what four bytes `b` give as an `i32` in little-endian or in
/// big-endian byte order, the two orders a machine can have.
pub open spec fn ne_reading(v: i32, b: Seq<u8>) -> bool {
    v == as_signed(le_u32(b)) || v == as_signed(le_u32(seq![b[3], b[2], b[1], b[0]]))
}

/// `pts` are the points read from `items`: one per item, with its entity,
/// `x` read from the item's bytes 0..4 and `y` from its bytes 4..8.
pub open spec fn points_read(pts: Seq<GridPoint>, items: Seq<(Entity, Seq<u8>)>) -> bool {
    &&& pts.len() == items.len()
    &&& forall|i: int| 0 <= i < pts.len() ==> {
        &&& (#[trigger] pts[i]).0 == items[i].0
        &&& ne_reading(pts[i].1, items[i].1.subrange(0, 4))
        &&& ne_reading(pts[i].2, items[i].1.subrange(4, 8))
    }
}

proof fn lemma_points_push(pts: Seq<GridPoint>, items: Seq<(Entity, Seq<u8>)>, p: GridPoint, it: (Entity, Seq<u8>))
    requires
        points_read(pts, items),
        p.0 == it.0,
        ne_reading(p.1, it.1.subrange(0, 4)),
        ne_reading(p.2, it.1.subrange(4, 8)),
    ensures
        points_read(pts.push(p), items.push(it)),
{
    assert forall|i: int| 0 <= i < pts.push(p).len() implies {
        &&& (#[trigger] pts.push(p)[i]).0 == items.push(it)[i].0
        &&& ne_reading(pts.push(p)[i].1, items.push(it)[i].1.subrange(0, 4))
        &&& ne_reading(pts.push(p)[i].2, items.push(it)[i].1.subrange(4, 8))
    } by {
        if i < pts.len() {
            assert(pts.push(p)[i] == pts[i]);
            assert(items.push(it)[i] == items[i]);
        }
    }
}

/// Archetypes that `index` lists under component `cid` (the last entry of
/// `cid`), or none.
pub open spec fn indexed_archetypes(index: Seq<(ComponentId, Seq<u64>)>, cid: ComponentId) -> Seq<u64>
    decreases index.len(),
{
    if index.len() == 0 {
        Seq::empty()
    } else if index.last().0 == cid {
        index.last().1
    } else {
        indexed_archetypes(index.drop_last(), cid)
    }
}

/// Live entities of the first `n` rows of a page holding entity ids `ids`
/// and row bytes `bytes`, rows `stride` bytes apart, each with the first
/// eight bytes of its row: a row is read while those eight bytes lie inside
/// the page's bytes.
pub open spec fn row_items(w: World, ids: Seq<EntityId>, bytes: Seq<u8>, stride: int, n: int) -> Seq<(Entity, Seq<u8>)>
    decreases n,
{
    if n <= 0 {
        Seq::empty()
    } else {
        let prev = row_items(w, ids, bytes, stride, n - 1);
        let at = (n - 1) * stride;
        if at + 8 <= bytes.len() {
            match w.resolved(ids[n - 1]) {
                Some(e) => prev.push((e, bytes.subrange(at, at + 8))),
                None => prev,
            }
        } else {
            prev
        }
    }
}

/// Live entities, with their row bytes, read from page `p` of column `c` of
/// storage `s`: none when the page's entity ids or bytes cannot be read.
pub open spec fn page_items(w: World, s: ArchetypeStorage, c: ComponentColumn, p: int) -> Seq<(Entity, Seq<u8>)> {
    let rpp = c.spec_rows_per_page() as int;
    let st = c.spec_stride() as int;
    let len = c.spec_len() as int;
    let start = p * rpp;
    let end = p * rpp + page_rows(c.spec_len(), c.spec_rows_per_page(), p);
    let range = core::ops::Range { start: start as usize, end: end as usize };
    let bp = start / rpp;
    let ls = start % rpp;
    match tile_value(s.ids().pages_view(), s.ids().spec_rows_per_page(), range) {
        None => Seq::empty(),
        Some(ids) => if start > end || end > len || (start < end && bp != (end - 1) / rpp) {
            Seq::empty()
        } else {
            let bytes = c.cur_bufs()[bp].subrange(ls * st, (ls + (end - start)) * st);
            row_items(w, ids, bytes, st, ids.len() as int)
        },
    }
}

/// Items read from the first `np` pages of column `c`.
pub open spec fn column_items(w: World, s: ArchetypeStorage, c: ComponentColumn, np: int) -> Seq<(Entity, Seq<u8>)>
    decreases np,
{
    if np <= 0 {
        Seq::empty()
    } else {
        column_items(w, s, c, np - 1) + page_items(w, s, c, np - 1)
    }
}

/// Items read from the column of `cid` in the storage of archetype `arch`,
/// if both exist.
pub open spec fn archetype_items(w: World, cid: ComponentId, arch: u64) -> Seq<(Entity, Seq<u8>)> {
    match position_of(w.arch_ids(), arch) {
        None => Seq::empty(),
        Some(k) => {
            let s = w.stores()[k];
            match column_index(s.cols(), cid) {
                None => Seq::empty(),
                Some(i) => {
                    let c = s.cols()[i];
                    column_items(w, s, c, pages_for(c.spec_len(), c.spec_rows_per_page()) as int)
                },
            }
        },
    }
}

/// Items read from the first `n` archetypes of `archs`.
pub open spec fn archetypes_items(w: World, cid: ComponentId, archs: Seq<u64>, n: int) -> Seq<(Entity, Seq<u8>)>
    decreases n,
{
    if n <= 0 {
        Seq::empty()
    } else {
        archetypes_items(w, cid, archs, n - 1) + archetype_items(w, cid, archs[n - 1])
    }
}

/// The entities, in order, whose positions a rebuild reads for component
/// `cid`, each with the first eight bytes of its row (its position):
/// archetype by archetype as the world's index lists them, page by page,
/// row by row, each live entity of a row whose eight bytes lie inside its
/// page's bytes.
pub open spec fn collected_items(w: World, cid: ComponentId) -> Seq<(Entity, Seq<u8>)> {
    let archs = indexed_archetypes(w.index_view(), cid);
    archetypes_items(w, cid, archs, archs.len() as int)
}

proof fn lemma_indexed_archetypes(index: Seq<(ComponentId, Seq<u64>)>, cid: ComponentId, r: Seq<u64>)
    requires
        forall|a: int, b: int| 0 <= a < b < index.len() ==> (#[trigger] index[a]).0 != (#[trigger] index[b]).0,
        (exists|k: int| 0 <= k < index.len() && (#[trigger] index[k]).0 == cid && r == index[k].1) || (r.len() == 0
            && forall|k: int| 0 <= k < index.len() ==> (#[trigger] index[k]).0 != cid),
    ensures
        r == indexed_archetypes(index, cid),
    decreases index.len(),
{
    if index.len() > 0 {
        let d = index.drop_last();
        if index.last().0 == cid {
            if exists|k: int| 0 <= k < index.len() && (#[trigger] index[k]).0 == cid && r == index[k].1 {
                let k = choose|k: int| 0 <= k < index.len() && (#[trigger] index[k]).0 == cid && r == index[k].1;
                if k < index.len() - 1 {
                    assert(index[k].0 != index[index.len() - 1].0);
                }
            } else {
                assert(index[index.len() - 1].0 != cid);
            }
        } else {
            assert forall|a: int, b: int| 0 <= a < b < d.len() implies (#[trigger] d[a]).0 != (#[trigger] d[b]).0 by {
                assert(d[a] == index[a] && d[b] == index[b]);
            }
            if exists|k: int| 0 <= k < index.len() && (#[trigger] index[k]).0 == cid && r == index[k].1 {
                let k = choose|k: int| 0 <= k < index.len() && (#[trigger] index[k]).0 == cid && r == index[k].1;
                assert(k < d.len());
                assert(d[k] == index[k]);
            } else {
                assert forall|k: int| 0 <= k < d.len() implies (#[trigger] d[k]).0 != cid by {
                    assert(d[k] == index[k]);
                }
            }
            lemma_indexed_archetypes(d, cid, r);
        }
    }
}

/// Once a row's position lies past the page's bytes, so do those of all
/// later rows.
proof fn lemma_row_items_stop(w: World, ids: Seq<EntityId>, bytes: Seq<u8>, stride: int, r0: int, n: int)
    requires
        stride >= 0,
        0 <= r0 <= n,
        r0 * stride + 8 > bytes.len(),
    ensures
        row_items(w, ids, bytes, stride, n) == row_items(w, ids, bytes, stride, r0),
    decreases n - r0,
{
    if n > r0 {
        lemma_row_items_stop(w, ids, bytes, stride, r0, n - 1);
        assert((n - 1) * stride >= r0 * stride) by (nonlinear_arith)
            requires n - 1 >= r0, stride >= 0;
    }
}

/// A point: an entity and its position.
pub type GridPoint = (Entity, i32, i32);

/// Cell of position `(x, y)` for cells of size `cs`, with floored
/// (Euclidean) division; `None` when a coordinate does not fit an `i32`
/// or `cs` is zero.
pub open spec fn cell_of(cs: i32, x: i32, y: i32) -> Option<CellCoord> {
    if cs == 0 {
        None
    } else {
        let qx = x as int / cs as int;
        let qy = y as int / cs as int;
        if i32::MIN <= qx <= i32::MAX && i32::MIN <= qy <= i32::MAX {
            Some(CellCoord { x: qx as i32, y: qy as i32 })
        } else {
            None
        }
    }
}

/// Offset of the `k`-th cell probed for a point: its own cell, then the
/// eight around it.
pub open spec fn probe_offset(k: int) -> (int, int) {
    if k == 0 {
        (0, 0)
    } else if k == 1 {
        (1, -1)
    } else if k == 2 {
        (1, 0)
    } else if k == 3 {
        (1, 1)
    } else if k == 4 {
        (0, 1)
    } else if k == 5 {
        (0, -1)
    } else if k == 6 {
        (-1, -1)
    } else if k == 7 {
        (-1, 0)
    } else {
        (-1, 1)
    }
}

/// The `k`-th cell probed around `c`; `None` when it lies outside the
/// `i32` range.
pub open spec fn probe(c: CellCoord, k: int) -> Option<CellCoord> {
    let nx = c.x + probe_offset(k).0;
    let ny = c.y + probe_offset(k).1;
    if i32::MIN <= nx <= i32::MAX && i32::MIN <= ny <= i32::MAX {
        Some(CellCoord { x: nx as i32, y: ny as i32 })
    } else {
        None
    }
}

/// Points `p` and `q` are related: both coordinate differences lie
/// strictly inside the `i32` range and the squared distance is at most
/// `r2`.
pub open spec fn overlaps(p: GridPoint, q: GridPoint, r2: int) -> bool {
    let dx = p.1 - q.1;
    let dy = p.2 - q.2;
    &&& i32::MIN < dx <= i32::MAX
    &&& i32::MIN < dy <= i32::MAX
    &&& dx * dx + dy * dy <= r2
}

/// Indices, below `n`, of the points placed in cell `c`, in order.
pub open spec fn members(pts: Seq<GridPoint>, cs: i32, c: CellCoord, n: int) -> Seq<int>
    decreases n,
{
    if n <= 0 {
        Seq::empty()
    } else {
        let m = members(pts, cs, c, n - 1);
        if cell_of(cs, pts[n - 1].1, pts[n - 1].2) == Some(c) {
            m.push(n - 1)
        } else {
            m
        }
    }
}

/// The relation pushed for point `i` meeting the earlier point `j`.
pub open spec fn pair_push(pts: Seq<GridPoint>, i: int, j: int, rel: RelationType) -> (RelationRecord, RelationDelta) {
    (
        RelationRecord { entity_a: pts[j].0, entity_b: pts[i].0, relation_type: rel, payload: None },
        RelationDelta { dx: (pts[i].1 - pts[j].1) as i32, dy: (pts[i].2 - pts[j].2) as i32 },
    )
}

/// Relations pushed for point `i` against the points `m`, in order.
pub open spec fn emit_list(pts: Seq<GridPoint>, i: int, m: Seq<int>, r2: int, rel: RelationType) -> Seq<
    (RelationRecord, RelationDelta),
>
    decreases m.len(),
{
    if m.len() == 0 {
        Seq::empty()
    } else {
        let prev = emit_list(pts, i, m.drop_last(), r2, rel);
        if overlaps(pts[i], pts[m.last()], r2) {
            prev.push(pair_push(pts, i, m.last(), rel))
        } else {
            prev
        }
    }
}

/// Relations pushed for point `i` from its `k`-th probed cell.
pub open spec fn probe_pushes(pts: Seq<GridPoint>, cs: i32, r2: int, rel: RelationType, i: int, k: int) -> Seq<
    (RelationRecord, RelationDelta),
> {
    match cell_of(cs, pts[i].1, pts[i].2) {
        None => Seq::empty(),
        Some(ci) => match probe(ci, k) {
            None => Seq::empty(),
            Some(c) => emit_list(pts, i, members(pts, cs, c, i), r2, rel),
        },
    }
}

/// Relations pushed for point `i` from its first `k` probed cells.
pub open spec fn probes_upto(pts: Seq<GridPoint>, cs: i32, r2: int, rel: RelationType, i: int, k: int) -> Seq<
    (RelationRecord, RelationDelta),
>
    decreases k,
{
    if k <= 0 {
        Seq::empty()
    } else {
        probes_upto(pts, cs, r2, rel, i, k - 1) + probe_pushes(pts, cs, r2, rel, i, k - 1)
    }
}

/// Relations pushed for the first `n` points.
pub open spec fn all_pushes(pts: Seq<GridPoint>, cs: i32, r2: int, rel: RelationType, n: int) -> Seq<
    (RelationRecord, RelationDelta),
>
    decreases n,
{
    if n <= 0 {
        Seq::empty()
    } else {
        all_pushes(pts, cs, r2, rel, n - 1) + probes_upto(pts, cs, r2, rel, n - 1, 9)
    }
}

/// Relation list of entity `id` after pushing `ps` with no payload.
pub open spec fn pushed_entries(es: Seq<EntityRelationEntry>, id: u32, ps: Seq<(RelationRecord, RelationDelta)>) -> Seq<
    EntityRelationEntry,
>
    decreases ps.len(),
{
    if ps.len() == 0 {
        es
    } else {
        let prev = pushed_entries(es, id, ps.drop_last());
        let rec = ps.last().0;
        let d = ps.last().1;
        let ea = EntityRelationEntry { other: rec.entity_b, relation_type: rec.relation_type, payload: None, delta: Some(d) };
        let eb = EntityRelationEntry {
            other: rec.entity_a,
            relation_type: rec.relation_type,
            payload: None,
            delta: Some(flip(d)),
        };
        add_edge(add_edge(prev, id, bits_index(rec.entity_a.0), ea), id, bits_index(rec.entity_b.0), eb)
    }
}

/// `new` is `old` after pushing the relations `ps`, without payload.
pub open spec fn buffer_after(old: RelationBuffer, new: RelationBuffer, ps: Seq<(RelationRecord, RelationDelta)>) -> bool {
    &&& new.wf()
    &&& new.records_view() == old.records_view() + ps.map_values(|p: (RelationRecord, RelationDelta)| p.0)
    &&& new.payload_view() == old.payload_view()
    &&& new.record_rows_per_page() == old.record_rows_per_page()
    &&& new.payload_rows_per_page() == old.payload_rows_per_page()
    &&& forall|id: u32| #[trigger] new.entries_of(id) == pushed_entries(old.entries_of(id), id, ps)
}

/// `new` is `old` after pushing a prefix of `ps`, and the push that would
/// have come next found no room.
pub open spec fn buffer_cut(old: RelationBuffer, new: RelationBuffer, ps: Seq<(RelationRecord, RelationDelta)>) -> bool {
    exists|t: int| 0 <= t < ps.len() && #[trigger] buffer_after(old, new, ps.take(t)) && !new.room_for(0)
}

proof fn lemma_pushed_entries_append(
    es: Seq<EntityRelationEntry>,
    id: u32,
    a: Seq<(RelationRecord, RelationDelta)>,
    b: Seq<(RelationRecord, RelationDelta)>,
)
    ensures
        pushed_entries(es, id, a + b) == pushed_entries(pushed_entries(es, id, a), id, b),
    decreases b.len(),
{
    if b.len() == 0 {
        assert(a + b =~= a);
    } else {
        assert((a + b).drop_last() =~= a + b.drop_last());
        lemma_pushed_entries_append(es, id, a, b.drop_last());
    }
}

proof fn lemma_buffer_after_trans(
    x: RelationBuffer,
    y: RelationBuffer,
    z: RelationBuffer,
    a: Seq<(RelationRecord, RelationDelta)>,
    b: Seq<(RelationRecord, RelationDelta)>,
)
    requires
        buffer_after(x, y, a),
        buffer_after(y, z, b),
    ensures
        buffer_after(x, z, a + b),
{
    assert((a + b).map_values(|p: (RelationRecord, RelationDelta)| p.0) =~= a.map_values(
        |p: (RelationRecord, RelationDelta)| p.0,
    ) + b.map_values(|p: (RelationRecord, RelationDelta)| p.0));
    assert(z.records_view() =~= x.records_view() + (a + b).map_values(|p: (RelationRecord, RelationDelta)| p.0));
    assert forall|id: u32| #[trigger] z.entries_of(id) == pushed_entries(x.entries_of(id), id, a + b) by {
        lemma_pushed_entries_append(x.entries_of(id), id, a, b);
    }
}

proof fn lemma_buffer_after_none(x: RelationBuffer)
    requires
        x.wf(),
    ensures
        buffer_after(x, x, Seq::empty()),
{
    assert(x.records_view() =~= x.records_view() + Seq::<(RelationRecord, RelationDelta)>::empty().map_values(
        |p: (RelationRecord, RelationDelta)| p.0,
    ));
}

proof fn lemma_buffer_cut_extend(
    x: RelationBuffer,
    y: RelationBuffer,
    z: RelationBuffer,
    a: Seq<(RelationRecord, RelationDelta)>,
    b: Seq<(RelationRecord, RelationDelta)>,
    c: Seq<(RelationRecord, RelationDelta)>,
)
    requires
        buffer_after(x, y, a),
        buffer_cut(y, z, b),
    ensures
        buffer_cut(x, z, a + b + c),
{
    let t = choose|t: int| 0 <= t < b.len() && #[trigger] buffer_after(y, z, b.take(t)) && !z.room_for(0);
    lemma_buffer_after_trans(x, y, z, a, b.take(t));
    assert((a + b + c).take(a.len() + t) =~= a + b.take(t));
    assert(buffer_after(x, z, (a + b + c).take(a.len() + t)));
}

proof fn lemma_buffer_cut_grow(
    x: RelationBuffer,
    z: RelationBuffer,
    a: Seq<(RelationRecord, RelationDelta)>,
    c: Seq<(RelationRecord, RelationDelta)>,
)
    requires
        buffer_cut(x, z, a),
    ensures
        buffer_cut(x, z, a + c),
{
    let t = choose|t: int| 0 <= t < a.len() && #[trigger] buffer_after(x, z, a.take(t)) && !z.room_for(0);
    assert((a + c).take(t) =~= a.take(t));
    assert(buffer_after(x, z, (a + c).take(t)));
}

proof fn lemma_buffer_cut_prefix(
    x: RelationBuffer,
    z: RelationBuffer,
    a: Seq<(RelationRecord, RelationDelta)>,
    b: Seq<(RelationRecord, RelationDelta)>,
)
    requires
        buffer_cut(x, z, a),
        a.len() <= b.len(),
        b.take(a.len() as int) == a,
    ensures
        buffer_cut(x, z, b),
{
    let t = choose|t: int| 0 <= t < a.len() && #[trigger] buffer_after(x, z, a.take(t)) && !z.room_for(0);
    assert(b.take(t) =~= a.take(t)) by {
        assert forall|u: int| 0 <= u < t implies b.take(t)[u] == a.take(t)[u] by {
            assert(b.take(a.len() as int)[u] == b[u]);
        }
    }
    assert(buffer_after(x, z, b.take(t)));
}

proof fn lemma_emit_prefix(pts: Seq<GridPoint>, i: int, m: Seq<int>, r2: int, rel: RelationType, t1: int, t2: int)
    requires
        0 <= t1 <= t2 <= m.len(),
    ensures
        emit_list(pts, i, m.take(t1), r2, rel).len() <= emit_list(pts, i, m.take(t2), r2, rel).len(),
        emit_list(pts, i, m.take(t2), r2, rel).take(emit_list(pts, i, m.take(t1), r2, rel).len() as int) == emit_list(
            pts,
            i,
            m.take(t1),
            r2,
            rel,
        ),
    decreases t2 - t1,
{
    let a = emit_list(pts, i, m.take(t1), r2, rel);
    if t1 == t2 {
        assert(a.take(a.len() as int) =~= a);
    } else {
        lemma_emit_prefix(pts, i, m, r2, rel, t1, t2 - 1);
        assert(m.take(t2).drop_last() =~= m.take(t2 - 1));
        let b = emit_list(pts, i, m.take(t2 - 1), r2, rel);
        let c = emit_list(pts, i, m.take(t2), r2, rel);
        assert(c.take(a.len() as int) =~= b.take(a.len() as int));
    }
}

/// Push one relation without payload.
fn push_pair(buffer: &mut RelationBuffer, rec: RelationRecord, delta: RelationDelta)
    requires
        old(buffer).wf(),
        old(buffer).room_for(0),
        flippable(delta),
        rec.payload is None,
    ensures
        buffer_after(*old(buffer), *final(buffer), seq![(rec, delta)]),
{
    let empty: [u8; 0] = [];
    buffer.push_relation(rec, empty.as_slice(), Some(delta));
    proof {
        let ps = seq![(rec, delta)];
        assert(ps.drop_last() =~= Seq::<(RelationRecord, RelationDelta)>::empty());
        assert(ps.map_values(|p: (RelationRecord, RelationDelta)| p.0) =~= seq![rec]);
        assert(final(buffer).payload_view() =~= old(buffer).payload_view());
        assert(RelationRecord { payload: None, ..rec } == rec);
        assert(final(buffer).records_view() =~= old(buffer).records_view() + ps.map_values(
            |p: (RelationRecord, RelationDelta)| p.0,
        ));
        assert forall|id: u32| #[trigger] final(buffer).entries_of(id) == pushed_entries(old(buffer).entries_of(id), id, ps) by {
            assert(pushed_entries(old(buffer).entries_of(id), id, ps.drop_last()) == old(buffer).entries_of(id));
        }
    }
}

/// Key of cell `c` in the cell table; distinct cells have distinct keys.
pub open spec fn cell_key(c: CellCoord) -> u64 {
    ((c.x - i32::MIN) * 0x1_0000_0000 + (c.y - i32::MIN)) as u64
}

proof fn lemma_cell_key_injective(a: CellCoord, b: CellCoord)
    ensures
        cell_key(a) == cell_key(b) ==> a == b,
{
    let ax = a.x - i32::MIN;
    let ay = a.y - i32::MIN;
    let bx = b.x - i32::MIN;
    let by = b.y - i32::MIN;
    assert(0 <= ax * 0x1_0000_0000 + ay <= u64::MAX) by (nonlinear_arith)
        requires 0 <= ax < 0x1_0000_0000, 0 <= ay < 0x1_0000_0000;
    assert(0 <= bx * 0x1_0000_0000 + by <= u64::MAX) by (nonlinear_arith)
        requires 0 <= bx < 0x1_0000_0000, 0 <= by < 0x1_0000_0000;
    if ax * 0x1_0000_0000 + ay == bx * 0x1_0000_0000 + by {
        assert(ax == bx && ay == by) by (nonlinear_arith)
            requires
                ax * 0x1_0000_0000 + ay == bx * 0x1_0000_0000 + by,
                0 <= ay < 0x1_0000_0000,
                0 <= by < 0x1_0000_0000,
        ;
    }
}

fn cell_key_of(c: CellCoord) -> (k: u64)
    ensures
        k == cell_key(c),
{
    let kx = (c.x as i64 + 2147483648i64) as u64;
    let ky = (c.y as i64 + 2147483648i64) as u64;
    assert(kx * 0x1_0000_0000 + ky <= u64::MAX) by (nonlinear_arith)
        requires kx < 0x1_0000_0000, ky < 0x1_0000_0000;
    kx * 4294967296 + ky
}

/// Compare point `p`, number `i` of `pts`, with the points `m` of cell `c`
/// held in `bucket`, pushing a relation for each one within the radius.
/// Returns whether every push found room, and how many were pushed.
fn emit_against(
    p: GridPoint,
    bucket: &Vec<GridEntry>,
    r2: i64,
    buffer: &mut RelationBuffer,
    rel: RelationType,
    Ghost(pts): Ghost<Seq<GridPoint>>,
    Ghost(i): Ghost<int>,
    Ghost(m): Ghost<Seq<int>>,
    Ghost(c): Ghost<CellCoord>,
) -> (r: (bool, u64))
    requires
        old(buffer).wf(),
        0 <= i < pts.len(),
        pts[i] == p,
        bucket@ == m.map_values(|j: int| GridEntry { entity: pts[j].0, coord: c, x: pts[j].1, y: pts[j].2 }),
        forall|t: int| 0 <= t < m.len() ==> 0 <= #[trigger] m[t] < pts.len(),
    ensures
        r.0 ==> buffer_after(*old(buffer), *final(buffer), emit_list(pts, i, m, r2 as int, rel)),
        !r.0 ==> buffer_cut(*old(buffer), *final(buffer), emit_list(pts, i, m, r2 as int, rel)),
        r.1 <= m.len(),
{
    let ghost b0 = *old(buffer);
    proof {
        lemma_buffer_after_none(b0);
        assert(m.take(0) =~= Seq::<int>::empty());
    }
    let mut emitted: u64 = 0;
    let mut t: usize = 0;
    while t < bucket.len()
        invariant
            t <= bucket@.len(),
            bucket@.len() == m.len(),
            emitted <= t,
            0 <= i < pts.len(),
            pts[i] == p,
            bucket@ == m.map_values(|j: int| GridEntry { entity: pts[j].0, coord: c, x: pts[j].1, y: pts[j].2 }),
            forall|u: int| 0 <= u < m.len() ==> 0 <= #[trigger] m[u] < pts.len(),
            buffer_after(b0, *buffer, emit_list(pts, i, m.take(t as int), r2 as int, rel)),
            b0 == *old(buffer),
        decreases bucket@.len() - t,
    {
        let e = bucket[t];
        let ghost j = m[t as int];
        proof {
            assert(bucket@[t as int] == GridEntry { entity: pts[j].0, coord: c, x: pts[j].1, y: pts[j].2 });
            assert(m.take(t + 1).drop_last() =~= m.take(t as int));
            assert(m.take(t + 1).last() == j);
        }
        let dx: i64 = p.1 as i64 - e.x as i64;
        let dy: i64 = p.2 as i64 - e.y as i64;
        let in_range = dx > -2147483648i64 && dx <= 2147483647i64 && dy > -2147483648i64 && dy <= 2147483647i64;
        let near = if in_range {
            assert(dx * dx <= 0x3FFF_FFFF_0000_0001 && dx * dx >= 0) by (nonlinear_arith)
                requires -2147483648 < dx <= 2147483647;
            assert(dy * dy <= 0x3FFF_FFFF_0000_0001 && dy * dy >= 0) by (nonlinear_arith)
                requires -2147483648 < dy <= 2147483647;
            dx * dx + dy * dy <= r2
        } else {
            false
        };
        if near {
            let ghost before = *buffer;
            if !buffer.has_room_for(0) {
                proof {
                    assert(overlaps(pts[i], pts[j], r2 as int));
                    assert(emit_list(pts, i, m.take(t + 1), r2 as int, rel).len() == emit_list(pts, i, m.take(t as int), r2 as int, rel).len() + 1);
                    lemma_emit_prefix(pts, i, m, r2 as int, rel, t as int, t + 1);
                    lemma_emit_prefix(pts, i, m, r2 as int, rel, t + 1, m.len() as int);
                    assert(m.take(m.len() as int) =~= m);
                    let a = emit_list(pts, i, m.take(t as int), r2 as int, rel);
                    let full = emit_list(pts, i, m, r2 as int, rel);
                    assert(full.take(a.len() as int) =~= a) by {
                        let b = emit_list(pts, i, m.take(t + 1), r2 as int, rel);
                        assert forall|u: int| 0 <= u < a.len() implies full.take(a.len() as int)[u] == a[u] by {
                            assert(full.take(b.len() as int)[u] == b[u]);
                            assert(b.take(a.len() as int)[u] == b[u]);
                        }
                    }
                    assert(a.take(a.len() as int) =~= a);
                    assert(buffer_cut(b0, *buffer, full)) by {
                        assert(buffer_after(b0, *buffer, full.take(a.len() as int)));
                    }
                }
                return (false, emitted);
            }
            let rec = RelationRecord::new(e.entity, p.0, rel, None);
            let delta = RelationDelta { dx: dx as i32, dy: dy as i32 };
            push_pair(buffer, rec, delta);
            proof {
                assert(pair_push(pts, i, j, rel) == (rec, delta));
                lemma_buffer_after_trans(b0, before, *buffer, emit_list(pts, i, m.take(t as int), r2 as int, rel), seq![(rec, delta)]);
                assert(emit_list(pts, i, m.take(t as int), r2 as int, rel) + seq![(rec, delta)] =~= emit_list(pts, i, m.take(t as int), r2 as int, rel).push((rec, delta)));
            }
            emitted = emitted + 1;
        }
        t = t + 1;
    }
    proof {
        assert(m.take(m.len() as int) =~= m);
    }
    (true, emitted)
}

proof fn lemma_members_bounded(pts: Seq<GridPoint>, cs: i32, c: CellCoord, n: int)
    ensures
        forall|t: int| 0 <= t < members(pts, cs, c, n).len() ==> 0 <= #[trigger] members(pts, cs, c, n)[t] < n,
    decreases n,
{
    if n > 0 {
        lemma_members_bounded(pts, cs, c, n - 1);
        let m = members(pts, cs, c, n - 1);
        assert forall|t: int| 0 <= t < members(pts, cs, c, n).len() implies 0 <= #[trigger] members(pts, cs, c, n)[t] < n by {
            if t < m.len() {
                assert(m[t] < n - 1);
            }
        }
    }
}

proof fn lemma_probes_prefix(pts: Seq<GridPoint>, cs: i32, r2: int, rel: RelationType, i: int, k1: int, k2: int)
    requires
        0 <= k1 <= k2,
    ensures
        probes_upto(pts, cs, r2, rel, i, k1).len() <= probes_upto(pts, cs, r2, rel, i, k2).len(),
        probes_upto(pts, cs, r2, rel, i, k2).take(probes_upto(pts, cs, r2, rel, i, k1).len() as int) == probes_upto(
            pts,
            cs,
            r2,
            rel,
            i,
            k1,
        ),
    decreases k2 - k1,
{
    let a = probes_upto(pts, cs, r2, rel, i, k1);
    if k1 == k2 {
        assert(a.take(a.len() as int) =~= a);
    } else {
        lemma_probes_prefix(pts, cs, r2, rel, i, k1, k2 - 1);
        let b = probes_upto(pts, cs, r2, rel, i, k2 - 1);
        let c = probes_upto(pts, cs, r2, rel, i, k2);
        assert(c.take(a.len() as int) =~= b.take(a.len() as int));
    }
}

proof fn lemma_all_prefix(pts: Seq<GridPoint>, cs: i32, r2: int, rel: RelationType, n1: int, n2: int)
    requires
        0 <= n1 <= n2,
    ensures
        all_pushes(pts, cs, r2, rel, n1).len() <= all_pushes(pts, cs, r2, rel, n2).len(),
        all_pushes(pts, cs, r2, rel, n2).take(all_pushes(pts, cs, r2, rel, n1).len() as int) == all_pushes(
            pts,
            cs,
            r2,
            rel,
            n1,
        ),
    decreases n2 - n1,
{
    let a = all_pushes(pts, cs, r2, rel, n1);
    if n1 == n2 {
        assert(a.take(a.len() as int) =~= a);
    } else {
        lemma_all_prefix(pts, cs, r2, rel, n1, n2 - 1);
        let b = all_pushes(pts, cs, r2, rel, n2 - 1);
        let c = all_pushes(pts, cs, r2, rel, n2);
        assert(c.take(a.len() as int) =~= b.take(a.len() as int));
    }
}

proof fn lemma_probes_skipped(pts: Seq<GridPoint>, cs: i32, r2: int, rel: RelationType, i: int, k: int)
    requires
        cell_of(cs, pts[i].1, pts[i].2) is None,
    ensures
        probes_upto(pts, cs, r2, rel, i, k) == Seq::<(RelationRecord, RelationDelta)>::empty(),
    decreases k,
{
    if k > 0 {
        lemma_probes_skipped(pts, cs, r2, rel, i, k - 1);
        assert(probes_upto(pts, cs, r2, rel, i, k) =~= Seq::<(RelationRecord, RelationDelta)>::empty());
    }
}

/// Cell of `(x, y)` for cells of size `cs`.
fn pos_to_cell(cs: i32, x: i32, y: i32) -> (r: Option<CellCoord>)
    ensures
        r == cell_of(cs, x, y),
{
    if cs == 0 {
        return None;
    }
    match (x.checked_div_euclid(cs), y.checked_div_euclid(cs)) {
        (Some(qx), Some(qy)) => Some(CellCoord { x: qx, y: qy }),
        _ => None,
    }
}

/// The `k`-th cell probed around `c`.
fn probe_cell(c: CellCoord, k: usize) -> (r: Option<CellCoord>)
    requires
        k < 9,
    ensures
        r == probe(c, k as int),
{
    let (dx, dy): (i64, i64) = if k == 0 {
        (0, 0)
    } else if k == 1 {
        (1, -1)
    } else if k == 2 {
        (1, 0)
    } else if k == 3 {
        (1, 1)
    } else if k == 4 {
        (0, 1)
    } else if k == 5 {
        (0, -1)
    } else if k == 6 {
        (-1, -1)
    } else if k == 7 {
        (-1, 0)
    } else {
        (-1, 1)
    };
    let nx: i64 = c.x as i64 + dx;
    let ny: i64 = c.y as i64 + dy;
    if nx >= -2147483648i64 && nx <= 2147483647i64 && ny >= -2147483648i64 && ny <= 2147483647i64 {
        Some(CellCoord { x: nx as i32, y: ny as i32 })
    } else {
        None
    }
}

/// Nanoseconds kept in 64 bits: the low 64 bits of `n`.
fn nanos_to_u64(n: u128) -> (r: u64)
    ensures
        r == n % 0x1_0000_0000_0000_0000,
{
    (n % 0x1_0000_0000_0000_0000) as u64
}

/// Calls `i32::from_ne_bytes`: the four bytes read as an `i32` in the
/// machine's byte order, which is little-endian or big-endian; which of the
/// two is not stated.
#[verifier::external_body]
fn i32_from_ne_bytes(bytes: [u8; 4]) -> (v: i32)
    ensures
        ne_reading(v, bytes@),
{
    i32::from_ne_bytes(bytes)
}

/// Counts gathered while probing the cells around one point.
struct ProbeStats {
    lookups: u64,
    hits: u64,
    emitted: u64,
    emit_ns: u64,
    emit_calls: u64,
}

/// Squared radius of a configuration.
pub open spec fn radius_sq(c: SpatialHashConfig) -> int {
    c.radius * c.radius
}

/// Outcome of placing `pts` in an emptied grid and emitting their pairs
/// into a buffer that was `old_buf`: every pair pushed and the grid holding
/// every point, or the pairs pushed up to the first that found no room.
pub open spec fn rebuild_outcome(grid: SpatialHashGrid, old_buf: RelationBuffer, new_buf: RelationBuffer, pts: Seq<GridPoint>) -> bool {
    let c = grid.spec_config();
    let ps = all_pushes(pts, c.cell_size, radius_sq(c), c.relation, pts.len() as int);
    ||| buffer_after(old_buf, new_buf, ps) && grid.holds(pts)
    ||| buffer_cut(old_buf, new_buf, ps)
}

/// Point `i` and the earlier point `j` are within the radius and lie in the
/// same or neighbouring cells.
pub open spec fn related(pts: Seq<GridPoint>, cs: i32, r2: int, i: int, j: int) -> bool {
    &&& 0 <= j < i < pts.len()
    &&& overlaps(pts[i], pts[j], r2)
    &&& cell_of(cs, pts[i].1, pts[i].2) is Some
    &&& cell_of(cs, pts[j].1, pts[j].2) is Some
    &&& -1 <= cell_of(cs, pts[i].1, pts[i].2)->Some_0.x - cell_of(cs, pts[j].1, pts[j].2)->Some_0.x <= 1
    &&& -1 <= cell_of(cs, pts[i].1, pts[i].2)->Some_0.y - cell_of(cs, pts[j].1, pts[j].2)->Some_0.y <= 1
}

/// Relation `p` is the pair of a point and an earlier point related to it.
pub open spec fn near_pair(pts: Seq<GridPoint>, cs: i32, r2: int, rel: RelationType, p: (RelationRecord, RelationDelta)) -> bool {
    exists|i: int, j: int| #[trigger] related(pts, cs, r2, i, j) && p == pair_push(pts, i, j, rel)
}

/// Every relation of `ps` is the pair of a point and an earlier point
/// related to it.
pub open spec fn all_related(pts: Seq<GridPoint>, cs: i32, r2: int, rel: RelationType, ps: Seq<(RelationRecord, RelationDelta)>) -> bool {
    forall|t: int| 0 <= t < ps.len() ==> #[trigger] near_pair(pts, cs, r2, rel, ps[t])
}

proof fn lemma_all_related_concat(
    pts: Seq<GridPoint>,
    cs: i32,
    r2: int,
    rel: RelationType,
    a: Seq<(RelationRecord, RelationDelta)>,
    b: Seq<(RelationRecord, RelationDelta)>,
)
    requires
        all_related(pts, cs, r2, rel, a),
        all_related(pts, cs, r2, rel, b),
    ensures
        all_related(pts, cs, r2, rel, a + b),
{
    let ab = a + b;
    assert forall|t: int| 0 <= t < ab.len() implies #[trigger] near_pair(pts, cs, r2, rel, ab[t]) by {
        if t < a.len() {
            assert(ab[t] == a[t]);
        } else {
            assert(ab[t] == b[t - a.len()]);
        }
    }
}

proof fn lemma_members_in_cell(pts: Seq<GridPoint>, cs: i32, c: CellCoord, n: int)
    ensures
        forall|t: int| 0 <= t < members(pts, cs, c, n).len() ==> cell_of(cs, pts[#[trigger] members(pts, cs, c, n)[t]].1, pts[members(pts, cs, c, n)[t]].2) == Some(c),
    decreases n,
{
    if n > 0 {
        lemma_members_in_cell(pts, cs, c, n - 1);
    }
}

proof fn lemma_emit_list_related(pts: Seq<GridPoint>, cs: i32, r2: int, rel: RelationType, i: int, m: Seq<int>, c: CellCoord)
    requires
        0 <= i < pts.len(),
        cell_of(cs, pts[i].1, pts[i].2) is Some,
        -1 <= cell_of(cs, pts[i].1, pts[i].2)->Some_0.x - c.x <= 1,
        -1 <= cell_of(cs, pts[i].1, pts[i].2)->Some_0.y - c.y <= 1,
        forall|t: int| 0 <= t < m.len() ==> 0 <= #[trigger] m[t] < i && cell_of(cs, pts[m[t]].1, pts[m[t]].2) == Some(c),
    ensures
        all_related(pts, cs, r2, rel, emit_list(pts, i, m, r2, rel)),
    decreases m.len(),
{
    if m.len() > 0 {
        lemma_emit_list_related(pts, cs, r2, rel, i, m.drop_last(), c);
        let prev = emit_list(pts, i, m.drop_last(), r2, rel);
        let j = m.last();
        assert(m[m.len() - 1] == j);
        if overlaps(pts[i], pts[j], r2) {
            assert(related(pts, cs, r2, i, j));
            let cur = prev.push(pair_push(pts, i, j, rel));
            assert forall|t: int| 0 <= t < cur.len() implies #[trigger] near_pair(pts, cs, r2, rel, cur[t]) by {
                if t < prev.len() {
                    assert(cur[t] == prev[t]);
                } else {
                    assert(cur[t] == pair_push(pts, i, j, rel));
                }
            }
        }
    }
}

proof fn lemma_probes_related(pts: Seq<GridPoint>, cs: i32, r2: int, rel: RelationType, i: int, k: int)
    requires
        0 <= i < pts.len(),
        0 <= k <= 9,
    ensures
        all_related(pts, cs, r2, rel, probes_upto(pts, cs, r2, rel, i, k)),
    decreases k,
{
    if k > 0 {
        lemma_probes_related(pts, cs, r2, rel, i, k - 1);
        let q = probe_pushes(pts, cs, r2, rel, i, k - 1);
        match cell_of(cs, pts[i].1, pts[i].2) {
            None => {
                assert(all_related(pts, cs, r2, rel, q));
            },
            Some(ci) => match probe(ci, k - 1) {
                None => {
                    assert(all_related(pts, cs, r2, rel, q));
                },
                Some(c) => {
                    let m = members(pts, cs, c, i);
                    lemma_members_bounded(pts, cs, c, i);
                    lemma_members_in_cell(pts, cs, c, i);
                    assert forall|t: int| 0 <= t < m.len() implies 0 <= #[trigger] m[t] < i && cell_of(
                        cs,
                        pts[m[t]].1,
                        pts[m[t]].2,
                    ) == Some(c) by {}
                    lemma_emit_list_related(pts, cs, r2, rel, i, m, c);
                },
            },
        }
        lemma_all_related_concat(pts, cs, r2, rel, probes_upto(pts, cs, r2, rel, i, k - 1), q);
    }
}

proof fn lemma_all_pushes_related(pts: Seq<GridPoint>, cs: i32, r2: int, rel: RelationType, n: int)
    requires
        0 <= n <= pts.len(),
    ensures
        all_related(pts, cs, r2, rel, all_pushes(pts, cs, r2, rel, n)),
    decreases n,
{
    if n > 0 {
        lemma_all_pushes_related(pts, cs, r2, rel, n - 1);
        lemma_probes_related(pts, cs, r2, rel, n - 1, 9);
        lemma_all_related_concat(pts, cs, r2, rel, all_pushes(pts, cs, r2, rel, n - 1), probes_upto(pts, cs, r2, rel, n - 1, 9));
    }
}

/// Every relation the grid emits for a list of points joins a point to an
/// earlier point (the earlier one first) within the radius, in the same or
/// a neighbouring cell, with the offset from the earlier point to the later
/// one.
pub proof fn law_emitted_pairs_are_near(pts: Seq<GridPoint>, config: SpatialHashConfig)
    ensures
        all_related(
            pts,
            config.cell_size,
            radius_sq(config),
            config.relation,
            all_pushes(pts, config.cell_size, radius_sq(config), config.relation, pts.len() as int),
        ),
{
    lemma_all_pushes_related(pts, config.cell_size, radius_sq(config), config.relation, pts.len() as int);
}

proof fn lemma_member_listed(pts: Seq<GridPoint>, cs: i32, c: CellCoord, n: int, j: int)
    requires
        0 <= j < n,
        cell_of(cs, pts[j].1, pts[j].2) == Some(c),
    ensures
        members(pts, cs, c, n).contains(j),
    decreases n,
{
    let m = members(pts, cs, c, n - 1);
    if j < n - 1 {
        lemma_member_listed(pts, cs, c, n - 1, j);
        let q = choose|q: int| 0 <= q < m.len() && m[q] == j;
        if cell_of(cs, pts[n - 1].1, pts[n - 1].2) == Some(c) {
            assert(m.push(n - 1)[q] == j);
        }
    } else {
        assert(m.push(n - 1)[m.len() as int] == j);
    }
}

proof fn lemma_emit_listed(pts: Seq<GridPoint>, i: int, m: Seq<int>, r2: int, rel: RelationType, j: int)
    requires
        m.contains(j),
        overlaps(pts[i], pts[j], r2),
    ensures
        emit_list(pts, i, m, r2, rel).contains(pair_push(pts, i, j, rel)),
    decreases m.len(),
{
    let prev = emit_list(pts, i, m.drop_last(), r2, rel);
    if m.last() == j {
        assert(prev.push(pair_push(pts, i, j, rel))[prev.len() as int] == pair_push(pts, i, j, rel));
    } else {
        let q = choose|q: int| 0 <= q < m.len() && m[q] == j;
        assert(m.drop_last()[q] == j);
        lemma_emit_listed(pts, i, m.drop_last(), r2, rel, j);
        let w = choose|w: int| 0 <= w < prev.len() && prev[w] == pair_push(pts, i, j, rel);
        if overlaps(pts[i], pts[m.last()], r2) {
            assert(prev.push(pair_push(pts, i, m.last(), rel))[w] == pair_push(pts, i, j, rel));
        }
    }
}

proof fn lemma_probe_listed(pts: Seq<GridPoint>, cs: i32, r2: int, rel: RelationType, i: int, k: int, kk: int, x: (RelationRecord, RelationDelta))
    requires
        0 <= k < kk,
        probe_pushes(pts, cs, r2, rel, i, k).contains(x),
    ensures
        probes_upto(pts, cs, r2, rel, i, kk).contains(x),
    decreases kk,
{
    let a = probes_upto(pts, cs, r2, rel, i, kk - 1);
    let b = probe_pushes(pts, cs, r2, rel, i, kk - 1);
    if k == kk - 1 {
        let w = choose|w: int| 0 <= w < b.len() && b[w] == x;
        assert((a + b)[a.len() + w] == x);
    } else {
        lemma_probe_listed(pts, cs, r2, rel, i, k, kk - 1, x);
        let w = choose|w: int| 0 <= w < a.len() && a[w] == x;
        assert((a + b)[w] == x);
    }
}

proof fn lemma_point_listed(pts: Seq<GridPoint>, cs: i32, r2: int, rel: RelationType, i: int, n: int, x: (RelationRecord, RelationDelta))
    requires
        0 <= i < n,
        probes_upto(pts, cs, r2, rel, i, 9).contains(x),
    ensures
        all_pushes(pts, cs, r2, rel, n).contains(x),
    decreases n,
{
    let a = all_pushes(pts, cs, r2, rel, n - 1);
    let b = probes_upto(pts, cs, r2, rel, n - 1, 9);
    if i == n - 1 {
        let w = choose|w: int| 0 <= w < b.len() && b[w] == x;
        assert((a + b)[a.len() + w] == x);
    } else {
        lemma_point_listed(pts, cs, r2, rel, i, n - 1, x);
        let w = choose|w: int| 0 <= w < a.len() && a[w] == x;
        assert((a + b)[w] == x);
    }
}

/// Every point and earlier point within the radius that lie in the same or
/// neighbouring cells are emitted as a pair, the later point as the second
/// entity and the offset from the earlier point.
pub proof fn law_near_pairs_are_emitted(pts: Seq<GridPoint>, config: SpatialHashConfig, i: int, j: int)
    requires
        related(pts, config.cell_size, radius_sq(config), i, j),
    ensures
        all_pushes(pts, config.cell_size, radius_sq(config), config.relation, pts.len() as int).contains(
            pair_push(pts, i, j, config.relation),
        ),
{
    let cs = config.cell_size;
    let r2 = radius_sq(config);
    let rel = config.relation;
    let ci = cell_of(cs, pts[i].1, pts[i].2)->Some_0;
    let cj = cell_of(cs, pts[j].1, pts[j].2)->Some_0;
    let dx = cj.x - ci.x;
    let dy = cj.y - ci.y;
    let k: int = if dx == 0 && dy == 0 {
        0
    } else if dx == 1 && dy == -1 {
        1
    } else if dx == 1 && dy == 0 {
        2
    } else if dx == 1 && dy == 1 {
        3
    } else if dx == 0 && dy == 1 {
        4
    } else if dx == 0 && dy == -1 {
        5
    } else if dx == -1 && dy == -1 {
        6
    } else if dx == -1 && dy == 0 {
        7
    } else {
        8
    };
    assert(probe_offset(k) == (dx, dy));
    assert(probe(ci, k) == Some(cj));
    lemma_member_listed(pts, cs, cj, i, j);
    lemma_emit_listed(pts, i, members(pts, cs, cj, i), r2, rel, j);
    assert(probe_pushes(pts, cs, r2, rel, i, k) == emit_list(pts, i, members(pts, cs, cj, i), r2, rel));
    lemma_probe_listed(pts, cs, r2, rel, i, k, 9, pair_push(pts, i, j, rel));
    lemma_point_listed(pts, cs, r2, rel, i, pts.len() as int, pair_push(pts, i, j, rel));
}

/// No two points carry the same entity.
pub open spec fn distinct_entities(pts: Seq<GridPoint>) -> bool {
    forall|a: int, b: int| 0 <= a < pts.len() && 0 <= b < pts.len() && a != b ==> pts[a].0 != pts[b].0
}

/// Relation `p` is the pair of point `i` with the earlier point `x`.
spec fn is_pair(pts: Seq<GridPoint>, i: int, x: int, rel: RelationType, p: (RelationRecord, RelationDelta)) -> bool {
    p == pair_push(pts, i, x, rel)
}

/// Position, in probing order, of cell `c` among the cells probed around `ci`.
spec fn probe_index(ci: CellCoord, c: CellCoord) -> int {
    let dx = c.x - ci.x;
    let dy = c.y - ci.y;
    if dx == 0 && dy == 0 {
        0
    } else if dx == 1 && dy == -1 {
        1
    } else if dx == 1 && dy == 0 {
        2
    } else if dx == 1 && dy == 1 {
        3
    } else if dx == 0 && dy == 1 {
        4
    } else if dx == 0 && dy == -1 {
        5
    } else if dx == -1 && dy == -1 {
        6
    } else if dx == -1 && dy == 0 {
        7
    } else {
        8
    }
}

/// Relation `p` pairs point `i` with one of the points `m`.
spec fn paired_with_one_of(pts: Seq<GridPoint>, i: int, m: Seq<int>, rel: RelationType, p: (RelationRecord, RelationDelta)) -> bool {
    exists|q: int| 0 <= q < m.len() && #[trigger] is_pair(pts, i, m[q], rel, p)
}

/// Relation `p` pairs point `i` with an earlier point whose cell comes at
/// position `k` (or, with `below`, before position `k`) in the probing order.
spec fn paired_by_probe(pts: Seq<GridPoint>, cs: i32, i: int, k: int, below: bool, rel: RelationType, p: (RelationRecord, RelationDelta)) -> bool {
    exists|x: int|
        {
            &&& 0 <= x < i
            &&& #[trigger] is_pair(pts, i, x, rel, p)
            &&& cell_of(cs, pts[x].1, pts[x].2) is Some
            &&& if below {
                probe_index(cell_of(cs, pts[i].1, pts[i].2)->Some_0, cell_of(cs, pts[x].1, pts[x].2)->Some_0) < k
            } else {
                probe_index(cell_of(cs, pts[i].1, pts[i].2)->Some_0, cell_of(cs, pts[x].1, pts[x].2)->Some_0) == k
            }
        }
}

/// Relation `p` has one of the first `n` points as its second entity.
spec fn for_point_below(pts: Seq<GridPoint>, n: int, p: (RelationRecord, RelationDelta)) -> bool {
    exists|j: int| 0 <= j < n && p.0.entity_b == #[trigger] pts[j].0
}

proof fn lemma_probe_index(ci: CellCoord, k: int, c: CellCoord)
    requires
        0 <= k < 9,
        probe(ci, k) == Some(c),
    ensures
        probe_index(ci, c) == k,
{
}

proof fn lemma_members_facts(pts: Seq<GridPoint>, cs: i32, c: CellCoord, n: int)
    requires
        n <= pts.len(),
    ensures
        forall|q: int| #![auto] 0 <= q < members(pts, cs, c, n).len() ==> {
            &&& 0 <= members(pts, cs, c, n)[q] < n
            &&& cell_of(cs, pts[members(pts, cs, c, n)[q]].1, pts[members(pts, cs, c, n)[q]].2) == Some(c)
        },
        forall|a: int, b: int| #![auto] 0 <= a < b < members(pts, cs, c, n).len() ==> members(pts, cs, c, n)[a] < members(
            pts,
            cs,
            c,
            n,
        )[b],
    decreases n,
{
    if n > 0 {
        lemma_members_facts(pts, cs, c, n - 1);
    }
}

proof fn lemma_emit_once(pts: Seq<GridPoint>, i: int, m: Seq<int>, r2: int, rel: RelationType)
    requires
        distinct_entities(pts),
        forall|q: int| 0 <= q < m.len() ==> 0 <= #[trigger] m[q] < pts.len(),
        forall|a: int, b: int| 0 <= a < b < m.len() ==> #[trigger] m[a] < #[trigger] m[b],
    ensures
        emit_list(pts, i, m, r2, rel).no_duplicates(),
        forall|t: int| 0 <= t < emit_list(pts, i, m, r2, rel).len() ==> #[trigger] paired_with_one_of(
            pts,
            i,
            m,
            rel,
            emit_list(pts, i, m, r2, rel)[t],
        ),
    decreases m.len(),
{
    if m.len() > 0 {
        let d = m.drop_last();
        assert forall|q: int| 0 <= q < d.len() implies 0 <= #[trigger] d[q] < pts.len() by {
            assert(d[q] == m[q]);
        }
        assert forall|a: int, b: int| 0 <= a < b < d.len() implies #[trigger] d[a] < #[trigger] d[b] by {
            assert(d[a] == m[a] && d[b] == m[b]);
        }
        lemma_emit_once(pts, i, d, r2, rel);
        let prev = emit_list(pts, i, d, r2, rel);
        let e = emit_list(pts, i, m, r2, rel);
        assert forall|t: int| 0 <= t < prev.len() implies #[trigger] paired_with_one_of(pts, i, m, rel, prev[t])
            && !is_pair(pts, i, m.last(), rel, prev[t]) by {
            assert(paired_with_one_of(pts, i, d, rel, prev[t]));
            let q = choose|q: int| 0 <= q < d.len() && #[trigger] is_pair(pts, i, d[q], rel, prev[t]);
            assert(d[q] == m[q]);
            assert(is_pair(pts, i, m[q], rel, prev[t]));
            assert(m[q] < m[m.len() - 1]);
            assert(pts[m[q]].0 != pts[m[m.len() - 1]].0);
        }
        if overlaps(pts[i], pts[m.last()], r2) {
            let last = pair_push(pts, i, m.last(), rel);
            assert(e == prev.push(last));
            assert forall|t: int| 0 <= t < e.len() implies #[trigger] paired_with_one_of(pts, i, m, rel, e[t]) by {
                if t < prev.len() {
                    assert(e[t] == prev[t]);
                    assert(paired_with_one_of(pts, i, m, rel, prev[t]));
                } else {
                    assert(is_pair(pts, i, m[m.len() - 1], rel, e[t]));
                }
            }
            assert forall|a: int, b: int| 0 <= a < e.len() && 0 <= b < e.len() && a != b implies e[a] != e[b] by {
                if a < prev.len() && b < prev.len() {
                    assert(e[a] == prev[a] && e[b] == prev[b]);
                } else if a < prev.len() {
                    assert(e[a] == prev[a] && e[b] == last);
                    assert(paired_with_one_of(pts, i, m, rel, prev[a]));
                    assert(!is_pair(pts, i, m.last(), rel, prev[a]));
                } else {
                    assert(e[b] == prev[b] && e[a] == last);
                    assert(paired_with_one_of(pts, i, m, rel, prev[b]));
                    assert(!is_pair(pts, i, m.last(), rel, prev[b]));
                }
            }
        } else {
            assert(e == prev);
            assert forall|t: int| 0 <= t < e.len() implies #[trigger] paired_with_one_of(pts, i, m, rel, e[t]) by {
                assert(paired_with_one_of(pts, i, m, rel, prev[t]));
            }
        }
    }
}

/// Every relation pushed for point `i` from its `k`-th probed cell pairs it
/// with an earlier point of that cell, and none is pushed twice.
proof fn lemma_probe_once(pts: Seq<GridPoint>, cs: i32, r2: int, rel: RelationType, i: int, k: int)
    requires
        distinct_entities(pts),
        0 <= i < pts.len(),
        0 <= k < 9,
    ensures
        probe_pushes(pts, cs, r2, rel, i, k).no_duplicates(),
        forall|t: int| 0 <= t < probe_pushes(pts, cs, r2, rel, i, k).len() ==> #[trigger] paired_by_probe(
            pts,
            cs,
            i,
            k,
            false,
            rel,
            probe_pushes(pts, cs, r2, rel, i, k)[t],
        ),
{
    let e = probe_pushes(pts, cs, r2, rel, i, k);
    if let Some(ci) = cell_of(cs, pts[i].1, pts[i].2) {
        if let Some(c) = probe(ci, k) {
            let m = members(pts, cs, c, i);
            lemma_members_facts(pts, cs, c, i);
            lemma_probe_index(ci, k, c);
            assert forall|q: int| 0 <= q < m.len() implies 0 <= #[trigger] m[q] < pts.len() by {}
            assert forall|a: int, b: int| 0 <= a < b < m.len() implies #[trigger] m[a] < #[trigger] m[b] by {}
            lemma_emit_once(pts, i, m, r2, rel);
            assert(e == emit_list(pts, i, m, r2, rel));
            assert forall|t: int| 0 <= t < e.len() implies #[trigger] paired_by_probe(pts, cs, i, k, false, rel, e[t]) by {
                assert(paired_with_one_of(pts, i, m, rel, e[t]));
                let q = choose|q: int| 0 <= q < m.len() && #[trigger] is_pair(pts, i, m[q], rel, e[t]);
                let x = m[q];
                assert(cell_of(cs, pts[x].1, pts[x].2) == Some(c));
                assert(is_pair(pts, i, x, rel, e[t]));
            }
        }
    }
}

proof fn lemma_probes_upto_once(pts: Seq<GridPoint>, cs: i32, r2: int, rel: RelationType, i: int, k: int)
    requires
        distinct_entities(pts),
        0 <= i < pts.len(),
        0 <= k <= 9,
    ensures
        probes_upto(pts, cs, r2, rel, i, k).no_duplicates(),
        forall|t: int| 0 <= t < probes_upto(pts, cs, r2, rel, i, k).len() ==> #[trigger] paired_by_probe(
            pts,
            cs,
            i,
            k,
            true,
            rel,
            probes_upto(pts, cs, r2, rel, i, k)[t],
        ),
    decreases k,
{
    if k > 0 {
        lemma_probes_upto_once(pts, cs, r2, rel, i, k - 1);
        lemma_probe_once(pts, cs, r2, rel, i, k - 1);
        let a = probes_upto(pts, cs, r2, rel, i, k - 1);
        let b = probe_pushes(pts, cs, r2, rel, i, k - 1);
        let e = probes_upto(pts, cs, r2, rel, i, k);
        let ci = cell_of(cs, pts[i].1, pts[i].2)->Some_0;
        assert(e == a + b);
        assert forall|t: int| 0 <= t < e.len() implies #[trigger] paired_by_probe(pts, cs, i, k, true, rel, e[t]) by {
            if t < a.len() {
                assert(e[t] == a[t]);
                assert(paired_by_probe(pts, cs, i, k - 1, true, rel, a[t]));
                let x = choose|x: int|
                    {
                        &&& 0 <= x < i
                        &&& #[trigger] is_pair(pts, i, x, rel, a[t])
                        &&& cell_of(cs, pts[x].1, pts[x].2) is Some
                        &&& probe_index(ci, cell_of(cs, pts[x].1, pts[x].2)->Some_0) < k - 1
                    };
                assert(is_pair(pts, i, x, rel, e[t]));
            } else {
                assert(e[t] == b[t - a.len()]);
                assert(paired_by_probe(pts, cs, i, k - 1, false, rel, b[t - a.len()]));
                let x = choose|x: int|
                    {
                        &&& 0 <= x < i
                        &&& #[trigger] is_pair(pts, i, x, rel, b[t - a.len()])
                        &&& cell_of(cs, pts[x].1, pts[x].2) is Some
                        &&& probe_index(ci, cell_of(cs, pts[x].1, pts[x].2)->Some_0) == k - 1
                    };
                assert(is_pair(pts, i, x, rel, e[t]));
            }
        }
        assert forall|u: int, w: int| 0 <= u < a.len() && 0 <= w < b.len() implies a[u] != b[w] by {
            assert(paired_by_probe(pts, cs, i, k - 1, true, rel, a[u]));
            assert(paired_by_probe(pts, cs, i, k - 1, false, rel, b[w]));
            let x = choose|x: int|
                {
                    &&& 0 <= x < i
                    &&& #[trigger] is_pair(pts, i, x, rel, a[u])
                    &&& cell_of(cs, pts[x].1, pts[x].2) is Some
                    &&& probe_index(ci, cell_of(cs, pts[x].1, pts[x].2)->Some_0) < k - 1
                };
            let y = choose|y: int|
                {
                    &&& 0 <= y < i
                    &&& #[trigger] is_pair(pts, i, y, rel, b[w])
                    &&& cell_of(cs, pts[y].1, pts[y].2) is Some
                    &&& probe_index(ci, cell_of(cs, pts[y].1, pts[y].2)->Some_0) == k - 1
                };
            if x != y {
                assert(pts[x].0 != pts[y].0);
            }
        }
        assert forall|u: int, w: int| 0 <= u < e.len() && 0 <= w < e.len() && u != w implies e[u] != e[w] by {
            if u < a.len() && w < a.len() {
                assert(e[u] == a[u] && e[w] == a[w]);
            } else if u < a.len() {
                assert(e[u] == a[u] && e[w] == b[w - a.len()]);
            } else if w < a.len() {
                assert(e[w] == a[w] && e[u] == b[u - a.len()]);
            } else {
                assert(e[u] == b[u - a.len()] && e[w] == b[w - a.len()]);
            }
        }
    }
}

proof fn lemma_all_pushes_once(pts: Seq<GridPoint>, cs: i32, r2: int, rel: RelationType, n: int)
    requires
        distinct_entities(pts),
        0 <= n <= pts.len(),
    ensures
        all_pushes(pts, cs, r2, rel, n).no_duplicates(),
        forall|t: int| 0 <= t < all_pushes(pts, cs, r2, rel, n).len() ==> #[trigger] for_point_below(
            pts,
            n,
            all_pushes(pts, cs, r2, rel, n)[t],
        ),
    decreases n,
{
    if n > 0 {
        lemma_all_pushes_once(pts, cs, r2, rel, n - 1);
        lemma_probes_upto_once(pts, cs, r2, rel, n - 1, 9);
        let a = all_pushes(pts, cs, r2, rel, n - 1);
        let b = probes_upto(pts, cs, r2, rel, n - 1, 9);
        let e = all_pushes(pts, cs, r2, rel, n);
        assert(e == a + b);
        assert forall|w: int| 0 <= w < b.len() implies (#[trigger] b[w]).0.entity_b == pts[n - 1].0 by {
            assert(paired_by_probe(pts, cs, n - 1, 9, true, rel, b[w]));
            let x = choose|x: int|
                {
                    &&& 0 <= x < n - 1
                    &&& #[trigger] is_pair(pts, n - 1, x, rel, b[w])
                    &&& cell_of(cs, pts[x].1, pts[x].2) is Some
                    &&& probe_index(cell_of(cs, pts[n - 1].1, pts[n - 1].2)->Some_0, cell_of(cs, pts[x].1, pts[x].2)->Some_0) < 9
                };
        }
        assert forall|t: int| 0 <= t < e.len() implies #[trigger] for_point_below(pts, n, e[t]) by {
            if t < a.len() {
                assert(e[t] == a[t]);
                assert(for_point_below(pts, n - 1, a[t]));
                let j = choose|j: int| 0 <= j < n - 1 && a[t].0.entity_b == #[trigger] pts[j].0;
                assert(e[t].0.entity_b == pts[j].0);
            } else {
                assert(e[t] == b[t - a.len()]);
                assert(e[t].0.entity_b == pts[n - 1].0);
            }
        }
        assert forall|u: int, w: int| 0 <= u < a.len() && 0 <= w < b.len() implies a[u] != b[w] by {
            assert(for_point_below(pts, n - 1, a[u]));
            let j = choose|j: int| 0 <= j < n - 1 && a[u].0.entity_b == #[trigger] pts[j].0;
            assert(pts[j].0 != pts[n - 1].0);
            assert(b[w].0.entity_b == pts[n - 1].0);
        }
        assert forall|u: int, w: int| 0 <= u < e.len() && 0 <= w < e.len() && u != w implies e[u] != e[w] by {
            if u < a.len() && w < a.len() {
                assert(e[u] == a[u] && e[w] == a[w]);
            } else if u < a.len() {
                assert(e[u] == a[u] && e[w] == b[w - a.len()]);
            } else if w < a.len() {
                assert(e[w] == a[w] && e[u] == b[u - a.len()]);
            } else {
                assert(e[u] == b[u - a.len()] && e[w] == b[w - a.len()]);
            }
        }
    }
}

/// When no two points carry the same entity, the grid emits no relation
/// twice: together with the law that every near pair is emitted, each such
/// pair is emitted exactly once.
pub proof fn law_pairs_emitted_once(pts: Seq<GridPoint>, config: SpatialHashConfig)
    requires
        distinct_entities(pts),
    ensures
        all_pushes(pts, config.cell_size, radius_sq(config), config.relation, pts.len() as int).no_duplicates(),
{
    lemma_all_pushes_once(pts, config.cell_size, radius_sq(config), config.relation, pts.len() as int);
}

/// Grid of cells, rebuilt each tick, that emits pairs of nearby entities.
pub struct SpatialHashGrid {
    config: SpatialHashConfig,
    lookup: HashMap<u64, usize>,
    buckets: Vec<Vec<GridEntry>>,
    bucket_pool: Vec<Vec<GridEntry>>,
    metrics: SpatialHashMetricsSnapshot,
}

impl SpatialHashGrid {
    pub closed spec fn spec_config(&self) -> SpatialHashConfig {
        self.config
    }

    pub closed spec fn spec_metrics(&self) -> SpatialHashMetricsSnapshot {
        self.metrics
    }

    /// The cell table points into the cells, each cell once.
    pub closed spec fn wf(&self) -> bool {
        &&& forall|k: u64| #[trigger] self.lookup@.contains_key(k) ==> self.lookup@[k] < self.buckets@.len()
        &&& forall|a: u64, b: u64|
            #![trigger self.lookup@[a], self.lookup@[b]]
            self.lookup@.contains_key(a) && self.lookup@.contains_key(b) && a != b ==> self.lookup@[a] != self.lookup@[b]
    }

    /// Contents of cell `c`; empty when the cell has no bucket.
    closed spec fn bucket_of(&self, c: CellCoord) -> Seq<GridEntry> {
        if self.lookup@.contains_key(cell_key(c)) {
            self.buckets@[self.lookup@[cell_key(c)] as int]@
        } else {
            Seq::empty()
        }
    }

    /// The cells hold exactly the first `n` points of `pts`, each in its
    /// cell, in order.
    pub closed spec fn holds_upto(&self, pts: Seq<GridPoint>, n: int) -> bool {
        &&& self.wf()
        &&& forall|c: CellCoord| #[trigger] self.bucket_of(c) == members(pts, self.config.cell_size, c, n).map_values(
            |j: int| GridEntry { entity: pts[j].0, coord: c, x: pts[j].1, y: pts[j].2 },
        )
    }

    /// The cells hold exactly the points of `pts`, each in its cell, in
    /// order.
    pub open spec fn holds(&self, pts: Seq<GridPoint>) -> bool {
        self.holds_upto(pts, pts.len() as int)
    }

    /// Compare point `p`, number `i` of `pts`, with the points already in
    /// the nine cells around its cell `cell`. Returns whether every push
    /// found room, with the counts gathered.
    fn probe_all(
        &self,
        p: GridPoint,
        cell: CellCoord,
        r2: i64,
        buffer: &mut RelationBuffer,
        Ghost(pts): Ghost<Seq<GridPoint>>,
        Ghost(i): Ghost<int>,
    ) -> (r: (bool, ProbeStats))
        requires
            self.holds_upto(pts, i),
            old(buffer).wf(),
            0 <= i < pts.len(),
            pts[i] == p,
            cell_of(self.config.cell_size, p.1, p.2) == Some(cell),
        ensures
            r.0 ==> buffer_after(
                *old(buffer),
                *final(buffer),
                probes_upto(pts, self.config.cell_size, r2 as int, self.config.relation, i, 9),
            ),
            !r.0 ==> buffer_cut(
                *old(buffer),
                *final(buffer),
                probes_upto(pts, self.config.cell_size, r2 as int, self.config.relation, i, 9),
            ),
    {
        let ghost cs = self.config.cell_size;
        let ghost rel = self.config.relation;
        let ghost b0 = *old(buffer);
        proof {
            lemma_buffer_after_none(b0);
        }
        let mut stats = ProbeStats { lookups: 0, hits: 0, emitted: 0, emit_ns: 0, emit_calls: 0 };
        let mut k: usize = 0;
        while k < 9
            invariant
                k <= 9,
                self.holds_upto(pts, i),
                0 <= i < pts.len(),
                pts[i] == p,
                cell_of(cs, p.1, p.2) == Some(cell),
                cs == self.config.cell_size,
                rel == self.config.relation,
                b0 == *old(buffer),
                buffer_after(b0, *buffer, probes_upto(pts, cs, r2 as int, rel, i, k as int)),
            decreases 9 - k,
        {
            let ghost before = *buffer;
            let ghost pk = probe_pushes(pts, cs, r2 as int, rel, i, k as int);
            proof {
                assert(probes_upto(pts, cs, r2 as int, rel, i, k + 1) == probes_upto(pts, cs, r2 as int, rel, i, k as int) + pk);
            }
            match probe_cell(cell, k) {
                None => {
                    proof {
                        assert(pk =~= Seq::<(RelationRecord, RelationDelta)>::empty());
                        assert(probes_upto(pts, cs, r2 as int, rel, i, k as int) + pk =~= probes_upto(pts, cs, r2 as int, rel, i, k as int));
                    }
                },
                Some(c) => {
                    let key = cell_key_of(c);
                    stats.lookups = stats.lookups.wrapping_add(1);
                    let ghost m = members(pts, cs, c, i);
                    proof {
                        lemma_members_bounded(pts, cs, c, i);
                        assert(self.bucket_of(c) == m.map_values(
                            |j: int| GridEntry { entity: pts[j].0, coord: c, x: pts[j].1, y: pts[j].2 },
                        ));
                    }
                    match self.lookup.get(&key) {
                        None => {
                            proof {
                                assert(m.map_values(
                                    |j: int| GridEntry { entity: pts[j].0, coord: c, x: pts[j].1, y: pts[j].2 },
                                ).len() == 0);
                                assert(m =~= Seq::<int>::empty());
                                assert(pk =~= Seq::<(RelationRecord, RelationDelta)>::empty());
                                assert(probes_upto(pts, cs, r2 as int, rel, i, k as int) + pk =~= probes_upto(pts, cs, r2 as int, rel, i, k as int));
                            }
                        },
                        Some(b) => {
                            stats.hits = stats.hits.wrapping_add(1);
                            let bucket = &self.buckets[*b];
                            let start = instant_now();
                            let (complete, emitted) = emit_against(
                                p,
                                bucket,
                                r2,
                                buffer,
                                self.config.relation,
                                Ghost(pts),
                                Ghost(i),
                                Ghost(m),
                                Ghost(c),
                            );
                            let spent = elapsed_since(&start);
                            stats.emit_ns = stats.emit_ns.wrapping_add(nanos_to_u64(nanos_of(&spent)));
                            stats.emit_calls = stats.emit_calls.wrapping_add(1);
                            stats.emitted = stats.emitted.wrapping_add(emitted);
                            if !complete {
                                proof {
                                    let a = probes_upto(pts, cs, r2 as int, rel, i, k as int);
                                    lemma_buffer_cut_extend(b0, before, *buffer, a, pk, Seq::empty());
                                    assert(a + pk + Seq::<(RelationRecord, RelationDelta)>::empty() =~= a + pk);
                                    lemma_probes_prefix(pts, cs, r2 as int, rel, i, k + 1, 9);
                                    lemma_buffer_cut_prefix(
                                        b0,
                                        *buffer,
                                        a + pk,
                                        probes_upto(pts, cs, r2 as int, rel, i, 9),
                                    );
                                }
                                return (false, stats);
                            }
                            proof {
                                lemma_buffer_after_trans(b0, before, *buffer, probes_upto(pts, cs, r2 as int, rel, i, k as int), pk);
                            }
                        },
                    }
                },
            }
            k = k + 1;
        }
        (true, stats)
    }

    /// Place point `p`, number `i` of `pts`, in its cell `cell`, taking a
    /// bucket from the pool (or a new one) for a cell not yet used.
    fn insert_point(
        &mut self,
        p: GridPoint,
        cell: CellCoord,
        metrics: &mut SpatialHashMetricsSnapshot,
        Ghost(pts): Ghost<Seq<GridPoint>>,
        Ghost(i): Ghost<int>,
    )
        requires
            old(self).holds_upto(pts, i),
            0 <= i < pts.len(),
            pts[i] == p,
            cell_of(old(self).config.cell_size, p.1, p.2) == Some(cell),
        ensures
            final(self).holds_upto(pts, i + 1),
            final(self).config == old(self).config,
    {
        let ghost cs = self.config.cell_size;
        let entry = GridEntry { entity: p.0, coord: cell, x: p.1, y: p.2 };
        let key = cell_key_of(cell);
        let ghost old_lookup = self.lookup@;
        match self.lookup.get(&key) {
            Some(b) => {
                let b = *b;
                let mut bucket = Vec::new();
                std::mem::swap(&mut bucket, &mut self.buckets[b]);
                bucket.push(entry);
                self.buckets.set(b, bucket);
                proof {
                    assert forall|c: CellCoord| #[trigger] self.bucket_of(c) == members(pts, cs, c, i + 1).map_values(
                        |j: int| GridEntry { entity: pts[j].0, coord: c, x: pts[j].1, y: pts[j].2 },
                    ) by {
                        assert(old(self).bucket_of(c) == members(pts, cs, c, i).map_values(
                            |j: int| GridEntry { entity: pts[j].0, coord: c, x: pts[j].1, y: pts[j].2 },
                        ));
                        lemma_cell_key_injective(c, cell);
                        if c == cell {
                            assert(self.bucket_of(c) =~= members(pts, cs, c, i + 1).map_values(
                                |j: int| GridEntry { entity: pts[j].0, coord: c, x: pts[j].1, y: pts[j].2 },
                            ));
                        } else if old_lookup.contains_key(cell_key(c)) {
                            assert(old_lookup[cell_key(c)] != old_lookup[key]);
                        }
                    }
                }
            },
            None => {
                let mut bucket = match self.bucket_pool.pop() {
                    Some(reused) => {
                        metrics.bucket_reuses = metrics.bucket_reuses.wrapping_add(1);
                        reused
                    },
                    None => {
                        metrics.bucket_allocs = metrics.bucket_allocs.wrapping_add(1);
                        Vec::with_capacity(32)
                    },
                };
                bucket.clear();
                bucket.push(entry);
                let idx = self.buckets.len();
                self.buckets.push(bucket);
                self.lookup.insert(key, idx);
                proof {
                    assert forall|k: u64| #[trigger] self.lookup@.contains_key(k) implies self.lookup@[k] < self.buckets@.len() by {
                        if k != key {
                            assert(old_lookup.contains_key(k));
                        }
                    }
                    assert forall|a: u64, b: u64|
                        self.lookup@.contains_key(a) && self.lookup@.contains_key(b) && a != b implies #[trigger] self.lookup@[a]
                            != #[trigger] self.lookup@[b] by {
                        if a != key && b != key {
                            assert(old_lookup[a] != old_lookup[b]);
                        } else if a == key {
                            assert(old_lookup.contains_key(b));
                        } else {
                            assert(old_lookup.contains_key(a));
                        }
                    }
                    assert forall|c: CellCoord| #[trigger] self.bucket_of(c) == members(pts, cs, c, i + 1).map_values(
                        |j: int| GridEntry { entity: pts[j].0, coord: c, x: pts[j].1, y: pts[j].2 },
                    ) by {
                        assert(old(self).bucket_of(c) == members(pts, cs, c, i).map_values(
                            |j: int| GridEntry { entity: pts[j].0, coord: c, x: pts[j].1, y: pts[j].2 },
                        ));
                        lemma_cell_key_injective(c, cell);
                        if c == cell {
                            assert(members(pts, cs, c, i).map_values(
                                |j: int| GridEntry { entity: pts[j].0, coord: c, x: pts[j].1, y: pts[j].2 },
                            ).len() == 0);
                            assert(self.bucket_of(c) =~= members(pts, cs, c, i + 1).map_values(
                                |j: int| GridEntry { entity: pts[j].0, coord: c, x: pts[j].1, y: pts[j].2 },
                            ));
                        } else if old_lookup.contains_key(cell_key(c)) {
                            assert(self.bucket_of(c) == old(self).bucket_of(c));
                        }
                    }
                }
            },
        }
    }

    /// Empty every cell and keep the buckets for reuse.
    fn recycle_buckets(&mut self)
        requires
            old(self).wf(),
        ensures
            final(self).lookup@ == Map::<u64, usize>::empty(),
            final(self).config == old(self).config,
            final(self).metrics == old(self).metrics,
            final(self).wf(),
    {
        self.lookup.clear();
        while self.buckets.len() > 0
            invariant
                self.lookup@ == Map::<u64, usize>::empty(),
                self.config == old(self).config,
                self.metrics == old(self).metrics,
            decreases self.buckets@.len(),
        {
            match self.buckets.pop() {
                Some(mut bucket) => {
                    bucket.clear();
                    self.bucket_pool.push(bucket);
                },
                None => {},
            }
        }
    }

    proof fn lemma_empty_holds(&self, pts: Seq<GridPoint>)
        requires
            self.lookup@ == Map::<u64, usize>::empty(),
        ensures
            self.holds_upto(pts, 0),
    {
        assert forall|c: CellCoord| #[trigger] self.bucket_of(c) == members(pts, self.config.cell_size, c, 0).map_values(
            |j: int| GridEntry { entity: pts[j].0, coord: c, x: pts[j].1, y: pts[j].2 },
        ) by {
            assert(self.bucket_of(c) =~= members(pts, self.config.cell_size, c, 0).map_values(
                |j: int| GridEntry { entity: pts[j].0, coord: c, x: pts[j].1, y: pts[j].2 },
            ));
        }
    }

    /// Empty the grid, then place `points` in order: each point is compared
    /// with the points already placed in the nine cells around its own, a
    /// relation (earlier point first) is pushed for each one within the
    /// radius, and the point joins its cell. A point whose cell falls outside
    /// the `i32` range is skipped. Emission stops at the first relation for
    /// which the buffer has no room.
    pub fn rebuild_from_points(&mut self, points: &[GridPoint], buffer: &mut RelationBuffer)
        requires
            old(self).wf(),
            old(self).spec_config().cell_size != 0,
            old(buffer).wf(),
        ensures
            final(self).wf(),
            final(self).spec_config() == old(self).spec_config(),
            rebuild_outcome(*final(self), *old(buffer), *final(buffer), points@),
    {
        let total_start = instant_now();
        let recycle_start = instant_now();
        self.recycle_buckets();
        let mut metrics = self.metrics;
        let spent = elapsed_since(&recycle_start);
        metrics.recycle_ns = metrics.recycle_ns.wrapping_add(nanos_to_u64(nanos_of(&spent)));
        metrics.recycle_calls = metrics.recycle_calls.wrapping_add(1);
        let ghost pts = points@;
        let ghost cs = self.config.cell_size;
        let ghost rel = self.config.relation;
        let radius = self.config.radius as i64;
        assert(radius * radius <= 0x4000_0000_0000_0000) by (nonlinear_arith)
            requires -2147483648 <= radius <= 2147483647;
        assert(radius * radius >= 0) by (nonlinear_arith);
        let r2: i64 = radius * radius;
        let ghost b0 = *old(buffer);
        proof {
            self.lemma_empty_holds(pts);
            lemma_buffer_after_none(b0);
            assert(r2 as int == radius_sq(self.config));
        }
        let mut i: usize = 0;
        while i < points.len()
            invariant
                i <= pts.len(),
                pts == points@,
                self.holds_upto(pts, i as int),
                self.config == old(self).config,
                cs == self.config.cell_size,
                cs != 0,
                rel == self.config.relation,
                r2 as int == radius_sq(self.config),
                b0 == *old(buffer),
                buffer_after(b0, *buffer, all_pushes(pts, cs, r2 as int, rel, i as int)),
            decreases pts.len() - i,
        {
            let p = points[i];
            metrics.entities = metrics.entities.wrapping_add(1);
            let ghost before = *buffer;
            proof {
                assert(all_pushes(pts, cs, r2 as int, rel, i + 1) == all_pushes(pts, cs, r2 as int, rel, i as int)
                    + probes_upto(pts, cs, r2 as int, rel, i as int, 9));
            }
            match pos_to_cell(self.config.cell_size, p.1, p.2) {
                None => {
                    proof {
                        lemma_probes_skipped(pts, cs, r2 as int, rel, i as int, 9);
                        assert(all_pushes(pts, cs, r2 as int, rel, i + 1) =~= all_pushes(pts, cs, r2 as int, rel, i as int));
                        assert forall|c: CellCoord| #[trigger] self.bucket_of(c) == members(pts, cs, c, i + 1).map_values(
                            |j: int| GridEntry { entity: pts[j].0, coord: c, x: pts[j].1, y: pts[j].2 },
                        ) by {
                            assert(members(pts, cs, c, i + 1) == members(pts, cs, c, i as int));
                        }
                    }
                },
                Some(cell) => {
                    let (complete, stats) = self.probe_all(p, cell, r2, buffer, Ghost(pts), Ghost(i as int));
                    metrics.bucket_lookups = metrics.bucket_lookups.wrapping_add(stats.lookups);
                    metrics.bucket_hits = metrics.bucket_hits.wrapping_add(stats.hits);
                    metrics.relations = metrics.relations.wrapping_add(stats.emitted);
                    metrics.emit_ns = metrics.emit_ns.wrapping_add(stats.emit_ns);
                    metrics.emit_calls = metrics.emit_calls.wrapping_add(stats.emit_calls);
                    if !complete {
                        proof {
                            let a = all_pushes(pts, cs, r2 as int, rel, i as int);
                            let q = probes_upto(pts, cs, r2 as int, rel, i as int, 9);
                            lemma_buffer_cut_extend(b0, before, *buffer, a, q, Seq::empty());
                            assert(a + q + Seq::<(RelationRecord, RelationDelta)>::empty() =~= a + q);
                            lemma_all_prefix(pts, cs, r2 as int, rel, i + 1, pts.len() as int);
                            lemma_buffer_cut_prefix(b0, *buffer, a + q, all_pushes(pts, cs, r2 as int, rel, pts.len() as int));
                        }
                        let spent = elapsed_since(&total_start);
                        metrics.total_ns = metrics.total_ns.wrapping_add(nanos_to_u64(nanos_of(&spent)));
                        metrics.total_calls = metrics.total_calls.wrapping_add(1);
                        self.set_metrics(metrics);
                        return;
                    }
                    proof {
                        lemma_buffer_after_trans(
                            b0,
                            before,
                            *buffer,
                            all_pushes(pts, cs, r2 as int, rel, i as int),
                            probes_upto(pts, cs, r2 as int, rel, i as int, 9),
                        );
                    }
                    self.insert_point(p, cell, &mut metrics, Ghost(pts), Ghost(i as int));
                },
            }
            i = i + 1;
        }
        let spent = elapsed_since(&total_start);
        metrics.total_ns = metrics.total_ns.wrapping_add(nanos_to_u64(nanos_of(&spent)));
        metrics.total_calls = metrics.total_calls.wrapping_add(1);
        self.set_metrics(metrics);
        proof {
            assert(pts.len() == points@.len());
        }
    }

    /// Replace the counters; the cells are untouched.
    fn set_metrics(&mut self, metrics: SpatialHashMetricsSnapshot)
        ensures
            final(self).metrics == metrics,
            final(self).config == old(self).config,
            final(self).lookup == old(self).lookup,
            final(self).buckets == old(self).buckets,
            forall|pts: Seq<GridPoint>, n: int| old(self).holds_upto(pts, n) ==> #[trigger] final(self).holds_upto(pts, n),
    {
        self.metrics = metrics;
        proof {
            assert forall|pts: Seq<GridPoint>, n: int| old(self).holds_upto(pts, n) implies #[trigger] self.holds_upto(pts, n) by {
                assert forall|c: CellCoord| #[trigger] self.bucket_of(c) == members(pts, self.config.cell_size, c, n).map_values(
                    |j: int| GridEntry { entity: pts[j].0, coord: c, x: pts[j].1, y: pts[j].2 },
                ) by {
                    assert(self.bucket_of(c) == old(self).bucket_of(c));
                }
            }
        }
    }

    /// Configuration of the grid.
    pub fn config(&self) -> (c: SpatialHashConfig)
        ensures
            c == self.spec_config(),
    {
        self.config
    }

    /// Type of the relations the grid emits.
    pub fn relation_type(&self) -> (t: RelationType)
        ensures
            t == self.spec_config().relation,
    {
        self.config.relation
    }

    /// Counters gathered so far.
    pub fn metrics(&self) -> (m: SpatialHashMetricsSnapshot)
        ensures
            m == self.spec_metrics(),
    {
        self.metrics
    }

    /// Set every counter to zero.
    pub fn reset_metrics(&mut self)
        requires
            old(self).wf(),
        ensures
            final(self).wf(),
            final(self).spec_metrics().is_zero(),
            final(self).spec_config() == old(self).spec_config(),
            forall|pts: Seq<GridPoint>| old(self).holds(pts) ==> #[trigger] final(self).holds(pts),
    {
        self.set_metrics(SpatialHashMetricsSnapshot::zero());
    }

    /// Positions of the live entities holding the grid's component, read
    /// archetype by archetype and page by page from the first eight bytes of
    /// each row.
    fn collect_points(&self, world: &World) -> (pts: Vec<GridPoint>)
        requires
            world.wf(),
        ensures
            forall|i: int| 0 <= i < pts@.len() ==> (#[trigger] world.locate_result(pts@[i].0)) is Ok,
            points_read(pts@, collected_items(*world, self.spec_config().component_id)),
    {
        let cid = self.config.component_id;
        let archetypes = world.archetypes_with(cid);
        proof {
            lemma_indexed_archetypes(world.index_view(), cid, archetypes@);
        }
        let mut pts: Vec<GridPoint> = Vec::new();
        let mut a: usize = 0;
        while a < archetypes.len()
            invariant
                world.wf(),
                a <= archetypes@.len(),
                cid == self.spec_config().component_id,
                archetypes@ == indexed_archetypes(world.index_view(), cid),
                forall|i: int| 0 <= i < pts@.len() ==> (#[trigger] world.locate_result(pts@[i].0)) is Ok,
                points_read(pts@, archetypes_items(*world, cid, archetypes@, a as int)),
            decreases archetypes@.len() - a,
        {
            let arch = archetypes[a];
            a = a + 1;
            let ghost base = archetypes_items(*world, cid, archetypes@, a - 1);
            let storage = match world.storage(arch) {
                Some(st) => st,
                None => {
                    proof {
                        assert(archetypes_items(*world, cid, archetypes@, a as int) =~= base);
                    }
                    continue;
                },
            };
            let column = match storage.column(cid) {
                Ok(col) => col,
                Err(_) => {
                    proof {
                        assert(archetypes_items(*world, cid, archetypes@, a as int) =~= base);
                    }
                    continue;
                },
            };
            let stride = column.stride();
            let pages = column.page_count();
            let mut page: usize = 0;
            while page < pages
                invariant
                    world.wf(),
                    column.wf(),
                    storage.wf(),
                    stride == column.spec_stride(),
                    pages == pages_for(column.spec_len(), column.spec_rows_per_page()),
                    page <= pages,
                    forall|i: int| 0 <= i < pts@.len() ==> (#[trigger] world.locate_result(pts@[i].0)) is Ok,
                    points_read(pts@, base + column_items(*world, *storage, *column, page as int)),
                decreases pages - page,
            {
                let range = column.page_range(page);
                let ghost pg = page as int;
                page = page + 1;
                let ghost before_page = pts@;
                let prange = core::ops::Range { start: range.start, end: range.end };
                let ids = match storage.entity_ids_slice(prange) {
                    Ok(v) => v,
                    Err(e) => {
                        proof {
                            if let crate::ecs::storage::archetype_storage::StorageError::EntityPool(pe) = e {
                                lemma_tile_value(storage.ids().pages_view(), storage.ids().spec_rows_per_page(), prange, Err(pe));
                            }
                            assert(page_items(*world, *storage, *column, pg) == Seq::<(Entity, Seq<u8>)>::empty());
                            assert(base + column_items(*world, *storage, *column, page as int) =~= base + column_items(*world, *storage, *column, pg));
                        }
                        continue;
                    },
                };
                proof {
                    let w = choose|w: Vec<EntityId>| w@ == ids@ && #[trigger] storage.ids().slice_tile_result(prange, Ok::<Vec<EntityId>, crate::pool::paged_pool::PoolError>(w));
                    lemma_tile_value(storage.ids().pages_view(), storage.ids().spec_rows_per_page(), prange, Ok(w));
                }
                let bytes = match column.slice_read(range) {
                    Ok(b) => b,
                    Err(_) => {
                        proof {
                            assert(page_items(*world, *storage, *column, pg) == Seq::<(Entity, Seq<u8>)>::empty());
                            assert(base + column_items(*world, *storage, *column, page as int) =~= base + column_items(*world, *storage, *column, pg));
                        }
                        continue;
                    },
                };
                let byte_count = bytes.len();
                let ghost blen = bytes@.len() as int;
                assert(bytes@.len() == byte_count);
                let ghost acc = base + column_items(*world, *storage, *column, pg);
                proof {
                    assert(page_items(*world, *storage, *column, pg) == row_items(*world, ids@, bytes@, stride as int, ids@.len() as int));
                    assert(acc + row_items(*world, ids@, bytes@, stride as int, 0) =~= acc);
                }
                let mut row: usize = 0;
                let mut done = false;
                while row < ids.len() && !done
                    invariant
                        world.wf(),
                        row <= ids@.len(),
                        blen == bytes@.len(),
                        bytes@.len() <= usize::MAX,
                        forall|i: int| 0 <= i < pts@.len() ==> (#[trigger] world.locate_result(pts@[i].0)) is Ok,
                        !done ==> points_read(pts@, acc + row_items(*world, ids@, bytes@, stride as int, row as int)),
                        done ==> points_read(pts@, acc + row_items(*world, ids@, bytes@, stride as int, ids@.len() as int)),
                    decreases ids@.len() - row, if done { 0int } else { 1int },
                {
                    let fits = match row.checked_mul(stride) {
                        Some(base) => match base.checked_add(8) {
                            Some(end) => end <= bytes.len(),
                            None => false,
                        },
                        None => false,
                    };
                    if !fits {
                        proof {
                            assert(row * stride + 8 > blen);
                            lemma_row_items_stop(*world, ids@, bytes@, stride as int, row as int, ids@.len() as int);
                        }
                        done = true;
                    } else {
                        let base = row * stride;
                        let xb = [bytes[base], bytes[base + 1], bytes[base + 2], bytes[base + 3]];
                        let yb = [bytes[base + 4], bytes[base + 5], bytes[base + 6], bytes[base + 7]];
                        let x = i32_from_ne_bytes(xb);
                        let y = i32_from_ne_bytes(yb);
                        let ghost item_bytes = bytes@.subrange(base as int, base + 8);
                        proof {
                            assert(xb@ =~= item_bytes.subrange(0, 4));
                            assert(yb@ =~= item_bytes.subrange(4, 8));
                        }
                        let ghost prev = pts@;
                        match world.resolve_entity(ids[row]) {
                            Some(entity) => {
                                proof {
                                    assert(world.locate_result(entity) is Ok);
                                }
                                pts.push((entity, x, y));
                                proof {
                                    lemma_points_push(prev, acc + row_items(*world, ids@, bytes@, stride as int, row as int), (entity, x, y), (entity, item_bytes));
                                    assert(acc + row_items(*world, ids@, bytes@, stride as int, row + 1) =~= (acc + row_items(*world, ids@, bytes@, stride as int, row as int)).push((entity, item_bytes)));
                                }
                            },
                            None => {
                                proof {
                                    assert(row_items(*world, ids@, bytes@, stride as int, row + 1) == row_items(*world, ids@, bytes@, stride as int, row as int));
                                }
                            },
                        }
                        row = row + 1;
                    }
                }
                proof {
                    assert(acc + row_items(*world, ids@, bytes@, stride as int, ids@.len() as int) =~= base + column_items(*world, *storage, *column, page as int));
                }
            }
            proof {
                assert(base + column_items(*world, *storage, *column, pages as int) =~= archetypes_items(*world, cid, archetypes@, a as int));
            }
        }
        proof {
            assert(archetypes@.len() == a);
        }
        pts
    }

    /// Empty the grid and place the live entities holding the grid's
    /// component, read archetype by archetype and page by page (the first
    /// eight bytes of a row are its position), emitting their pairs as
    /// [`Self::rebuild_from_points`] does.
    pub fn rebuild(&mut self, world: &World, buffer: &mut RelationBuffer)
        requires
            old(self).wf(),
            old(self).spec_config().cell_size != 0,
            world.wf(),
            old(buffer).wf(),
        ensures
            final(self).wf(),
            final(self).spec_config() == old(self).spec_config(),
            exists|pts: Seq<GridPoint>|
                #![trigger rebuild_outcome(*final(self), *old(buffer), *final(buffer), pts)]
                (forall|i: int| 0 <= i < pts.len() ==> (#[trigger] world.locate_result(pts[i].0)) is Ok)
                    && points_read(pts, collected_items(*world, old(self).spec_config().component_id))
                    && rebuild_outcome(*final(self), *old(buffer), *final(buffer), pts),
    {
        let points = self.collect_points(world);
        self.rebuild_from_points(points.as_slice(), buffer);
        proof {
            assert(rebuild_outcome(*self, *old(buffer), *buffer, points@));
        }
    }

    /// An empty grid.
    pub fn new(config: SpatialHashConfig) -> (g: Self)
        ensures
            g.holds(Seq::empty()),
            g.spec_config() == config,
            g.spec_metrics().is_zero(),
    {
        let g = SpatialHashGrid {
            config,
            lookup: HashMap::new(),
            buckets: Vec::new(),
            bucket_pool: Vec::new(),
            metrics: SpatialHashMetricsSnapshot::zero(),
        };
        proof {
            let e = Seq::<GridPoint>::empty();
            assert forall|c: CellCoord| #[trigger] g.bucket_of(c) == members(e, g.config.cell_size, c, 0).map_values(
                |j: int| GridEntry { entity: e[j].0, coord: c, x: e[j].1, y: e[j].2 },
            ) by {
                assert(g.bucket_of(c) =~= members(e, config.cell_size, c, 0).map_values(
                    |j: int| GridEntry { entity: e[j].0, coord: c, x: e[j].1, y: e[j].2 },
                ));
            }
        }
        g
    }
}

} // verus!
