//! Buffer of entity relations emitted during a tick.
//!
//! Records and payload bytes live in paged pools that only grow until the
//! buffer is cleared, so record `i` is the `i`-th record pushed. Each pushed
//! relation is also listed, from the point of view of each of its two
//! entities, in a per-entity bucket.
use vstd::prelude::*;
use std::collections::HashMap;
use core::ops::Range;
use crate::ecs::entity::{Entity, EntityId, bits_index};
use crate::pool::PagedPool;
use crate::pool::paged_pool::is_power_of_two;
use crate::pool::packed::{flat, packed, lemma_packed_target, lemma_packed_append, lemma_packed_bulk, lemma_chunks_contiguous, lemma_packed_row, lemma_flat_len, lemma_packed_shape, lemma_packed_tile, lemma_pool_written, chunks};

verus! {

broadcast use vstd::std_specs::hash::group_hash_axioms;

/// Identifier describing the meaning of a relation.
#[derive(Clone, Copy, Debug, PartialEq, Eq, Structural, Hash)]
pub struct RelationType(u16);

impl RelationType {
    pub closed spec fn spec_raw(&self) -> u16 {
        self.0
    }

    pub fn new(raw: u16) -> (t: Self)
        ensures
            t.spec_raw() == raw,
    {
        RelationType(raw)
    }

    pub fn raw(self) -> (r: u16)
        ensures
            r == self.spec_raw(),
    {
        self.0
    }
}

/// Payload bytes `start .. start + len` of a relation.
#[derive(Clone, Copy, Debug, PartialEq, Eq, Structural)]
pub struct RelationPayloadRange {
    pub start: u32,
    pub len: u32,
}

impl RelationPayloadRange {
    pub fn is_empty(&self) -> (b: bool)
        ensures
            b == (self.len == 0),
    {
        self.len == 0
    }
}

/// A pair of related entities.
#[derive(Clone, Copy, Debug, PartialEq, Eq, Structural)]
pub struct RelationRecord {
    pub entity_a: Entity,
    pub entity_b: Entity,
    pub relation_type: RelationType,
    pub payload: Option<RelationPayloadRange>,
}

impl RelationRecord {
    pub fn new(a: Entity, b: Entity, relation_type: RelationType, payload: Option<RelationPayloadRange>) -> (r: Self)
        ensures
            r == (RelationRecord { entity_a: a, entity_b: b, relation_type, payload }),
    {
        RelationRecord { entity_a: a, entity_b: b, relation_type, payload }
    }
}

/// Offset from one entity of a relation to the other.
#[derive(Clone, Copy, Debug, PartialEq, Eq, Structural)]
pub struct RelationDelta {
    pub dx: i32,
    pub dy: i32,
}

/// The delta seen from the other entity.
pub open spec fn flip(d: RelationDelta) -> RelationDelta {
    RelationDelta { dx: (-d.dx) as i32, dy: (-d.dy) as i32 }
}

/// Both components can be negated.
pub open spec fn flippable(d: RelationDelta) -> bool {
    d.dx != i32::MIN && d.dy != i32::MIN
}

impl RelationDelta {
    /// The same offset seen from the other entity.
    pub fn flipped(self) -> (r: Self)
        requires
            flippable(self),
        ensures
            r == flip(self),
    {
        RelationDelta { dx: -self.dx, dy: -self.dy }
    }
}

/// A relation as seen from one of its entities.
#[derive(Clone, Copy, Debug, PartialEq, Eq, Structural)]
pub struct EntityRelationEntry {
    pub other: Entity,
    pub relation_type: RelationType,
    pub payload: Option<RelationPayloadRange>,
    pub delta: Option<RelationDelta>,
}

/// `es` after an entry `e` is added to the bucket of `target`, as seen by
/// entity `id`.
pub open spec fn add_edge(es: Seq<EntityRelationEntry>, id: u32, target: u32, e: EntityRelationEntry) -> Seq<EntityRelationEntry> {
    if id == target { es.push(e) } else { es }
}

/// The payload range given to a relation pushed with `len` payload bytes
/// when `count` payload bytes are stored.
pub open spec fn payload_range(count: nat, len: nat) -> Option<RelationPayloadRange> {
    if len == 0 { None } else { Some(RelationPayloadRange { start: count as u32, len: len as u32 }) }
}

/// Smallest power of two not below `n`; 1 for 0.
pub open spec fn is_ceil_pow2(r: nat, n: nat) -> bool {
    is_power_of_two(r) && n <= r && (r == 1 || r < 2 * n)
}

/// Smallest power of two not below `n`, or 1.
pub fn next_power_of_two(n: usize) -> (r: usize)
    requires
        n <= usize::MAX / 2 + 1,
    ensures
        is_ceil_pow2(r as nat, n as nat),
{
    let mut p: usize = 1;
    while p < n
        invariant
            is_power_of_two(p as nat),
            n <= usize::MAX / 2 + 1,
            p == 1 || p < 2 * n,
            p >= 1,
        decreases usize::MAX - p,
    {
        proof {
            assert((2 * p) as nat / 2 == p as nat);
            assert(is_power_of_two((2 * p) as nat));
        }
        p = 2 * p;
    }
    p
}

struct EntityRelationBucket {
    entity_id: EntityId,
    entries: Vec<EntityRelationEntry>,
}

/// Paged arena of relation records and payload bytes, with each entity's
/// relations listed per entity.
pub struct RelationBuffer {
    records: PagedPool<RelationRecord>,
    payload_bytes: PagedPool<u8>,
    record_count: usize,
    payload_count: usize,
    entity_buckets: Vec<EntityRelationBucket>,
    active_buckets: Vec<usize>,
    free_buckets: Vec<usize>,
    bucket_lookup: HashMap<EntityId, usize>,
}

/// The rows of a packed pool, every one of them written.
pub open spec fn all_written<A>(rows: Seq<Option<A>>) -> bool {
    forall|i: int| 0 <= i < rows.len() ==> (#[trigger] rows[i]) is Some
}

impl RelationBuffer {
    /// Records pushed since the last clear, in order.
    pub closed spec fn records_view(&self) -> Seq<RelationRecord> {
        flat(self.records.pages_view()).map_values(|o: Option<RelationRecord>| o->Some_0)
    }

    /// Payload bytes pushed since the last clear, in order.
    pub closed spec fn payload_view(&self) -> Seq<u8> {
        flat(self.payload_bytes.pages_view()).map_values(|o: Option<u8>| o->Some_0)
    }

    /// Relations of entity `id`, in push order.
    pub closed spec fn entries_of(&self, id: u32) -> Seq<EntityRelationEntry> {
        if self.bucket_lookup@.contains_key(id) {
            self.entity_buckets@[self.bucket_lookup@[id] as int].entries@
        } else {
            Seq::empty()
        }
    }

    pub closed spec fn record_rows_per_page(&self) -> nat {
        self.records.spec_rows_per_page() as nat
    }

    pub closed spec fn payload_rows_per_page(&self) -> nat {
        self.payload_bytes.spec_rows_per_page() as nat
    }

    pub closed spec fn record_pages(&self) -> nat {
        self.records.pages_view().len()
    }

    pub closed spec fn payload_pages(&self) -> nat {
        self.payload_bytes.pages_view().len()
    }

    pub closed spec fn inv(&self) -> bool {
        &&& self.records.wf()
        &&& self.payload_bytes.wf()
        &&& packed(self.records.pages_view(), self.records.spec_rows_per_page() as nat, self.record_count as nat)
        &&& packed(self.payload_bytes.pages_view(), self.payload_bytes.spec_rows_per_page() as nat, self.payload_count as nat)
        &&& all_written(flat(self.records.pages_view()))
        &&& all_written(flat(self.payload_bytes.pages_view()))
        &&& forall|id: u32| #[trigger] self.bucket_lookup@.contains_key(id) ==> {
            &&& self.bucket_lookup@[id] < self.entity_buckets@.len()
            &&& self.active_buckets@.contains(self.bucket_lookup@[id])
        }
        &&& forall|a: u32, b: u32|
            #![trigger self.bucket_lookup@[a], self.bucket_lookup@[b]]
            self.bucket_lookup@.contains_key(a) && self.bucket_lookup@.contains_key(b) && a != b
                ==> self.bucket_lookup@[a] != self.bucket_lookup@[b]
        &&& self.active_buckets@.no_duplicates()
        &&& self.free_buckets@.no_duplicates()
        &&& forall|i: int| 0 <= i < self.active_buckets@.len() ==> (#[trigger] self.active_buckets@[i]) < self.entity_buckets@.len()
            && !self.free_buckets@.contains(self.active_buckets@[i])
        &&& forall|i: int| 0 <= i < self.free_buckets@.len() ==> (#[trigger] self.free_buckets@[i]) < self.entity_buckets@.len()
    }

    pub open spec fn wf(&self) -> bool {
        self.inv()
    }

    proof fn lemma_views(&self)
        requires
            self.inv(),
        ensures
            self.records_view().len() == self.record_count,
            self.payload_view().len() == self.payload_count,
            self.record_count <= self.record_pages() * self.record_rows_per_page(),
            self.payload_count <= self.payload_pages() * self.payload_rows_per_page(),
    {
        lemma_flat_len(self.records.pages_view(), self.records.spec_rows_per_page() as nat, self.record_count as nat);
        lemma_flat_len(self.payload_bytes.pages_view(), self.payload_bytes.spec_rows_per_page() as nat, self.payload_count as nat);
        let rl = self.records.pages_view().len() as int;
        let rr = self.records.spec_rows_per_page() as int;
        if rl > 0 {
            assert((rl - 1) * rr + rr == rl * rr) by (nonlinear_arith);
        }
        let pl = self.payload_bytes.pages_view().len() as int;
        let pr = self.payload_bytes.spec_rows_per_page() as int;
        if pl > 0 {
            assert((pl - 1) * pr + pr == pl * pr) by (nonlinear_arith);
        }
    }

    /// Pages of either pool hold at most one page's worth of rows more than
    /// the rows pushed: the page counts grow only as rows are pushed.
    pub proof fn lemma_page_bounds(&self)
        requires
            self.wf(),
        ensures
            self.record_pages() * self.record_rows_per_page() <= self.records_view().len() + self.record_rows_per_page(),
            self.payload_pages() * self.payload_rows_per_page() <= self.payload_view().len() + self.payload_rows_per_page(),
    {
        self.lemma_views();
        let rl = self.records.pages_view().len() as int;
        let rr = self.records.spec_rows_per_page() as int;
        if rl > 0 {
            assert(self.record_count == (rl - 1) * rr + self.records.pages_view().last().len());
            assert(rl * rr == (rl - 1) * rr + rr) by (nonlinear_arith);
        } else {
            assert(rl * rr == 0) by (nonlinear_arith) requires rl == 0;
        }
        assert(self.record_pages() * self.record_rows_per_page() == rl * rr);
        let pl = self.payload_bytes.pages_view().len() as int;
        let pr = self.payload_bytes.spec_rows_per_page() as int;
        if pl > 0 {
            assert(self.payload_count == (pl - 1) * pr + self.payload_bytes.pages_view().last().len());
            assert(pl * pr == (pl - 1) * pr + pr) by (nonlinear_arith);
        } else {
            assert(pl * pr == 0) by (nonlinear_arith) requires pl == 0;
        }
        assert(self.payload_pages() * self.payload_rows_per_page() == pl * pr);
    }

    /// An empty buffer whose pools have pages of `record_rows_per_page`
    /// records and `payload_bytes_per_page` bytes, each raised to a power of
    /// two (at least 1).
    pub fn new(record_rows_per_page: usize, payload_bytes_per_page: usize) -> (b: Self)
        requires
            record_rows_per_page <= usize::MAX / 2 + 1,
            payload_bytes_per_page <= usize::MAX / 2 + 1,
        ensures
            b.wf(),
            b.records_view() == Seq::<RelationRecord>::empty(),
            b.payload_view() == Seq::<u8>::empty(),
            forall|id: u32| b.entries_of(id) == Seq::<EntityRelationEntry>::empty(),
            is_ceil_pow2(b.record_rows_per_page(), if record_rows_per_page == 0 { 1 } else { record_rows_per_page as nat }),
            is_ceil_pow2(b.payload_rows_per_page(), if payload_bytes_per_page == 0 { 1 } else { payload_bytes_per_page as nat }),
            b.record_pages() == 0,
            b.payload_pages() == 0,
            b.record_pages() * b.record_rows_per_page() == 0,
            b.payload_pages() * b.payload_rows_per_page() == 0,
    {
        let r = if record_rows_per_page < 1 { 1 } else { record_rows_per_page };
        let p = if payload_bytes_per_page < 1 { 1 } else { payload_bytes_per_page };
        let b = RelationBuffer {
            records: PagedPool::with_rows_per_page(next_power_of_two(r)),
            payload_bytes: PagedPool::with_rows_per_page(next_power_of_two(p)),
            record_count: 0,
            payload_count: 0,
            entity_buckets: Vec::new(),
            active_buckets: Vec::new(),
            free_buckets: Vec::new(),
            bucket_lookup: HashMap::new(),
        };
        assert(b.records_view() =~= Seq::<RelationRecord>::empty());
        assert(b.payload_view() =~= Seq::<u8>::empty());
        proof {
            let rp = b.record_pages() as int;
            let rr = b.record_rows_per_page() as int;
            let pp = b.payload_pages() as int;
            let pr = b.payload_rows_per_page() as int;
            assert(rp * rr == 0) by (nonlinear_arith)
                requires rp == 0;
            assert(pp * pr == 0) by (nonlinear_arith)
                requires pp == 0;
        }
        b
    }

    /// Number of records pushed since the last clear.
    pub fn len(&self) -> (n: usize)
        requires
            self.wf(),
        ensures
            n == self.records_view().len(),
    {
        proof {
            self.lemma_views();
        }
        self.record_count
    }
    /// Forget every record, payload byte and per-entity list. Pages and
    /// buckets are kept for reuse.
    pub fn clear(&mut self)
        requires
            old(self).wf(),
        ensures
            final(self).wf(),
            final(self).records_view() == Seq::<RelationRecord>::empty(),
            final(self).payload_view() == Seq::<u8>::empty(),
            forall|id: u32| final(self).entries_of(id) == Seq::<EntityRelationEntry>::empty(),
            final(self).record_rows_per_page() == old(self).record_rows_per_page(),
            final(self).payload_rows_per_page() == old(self).payload_rows_per_page(),
            final(self).record_pages() <= 1,
            final(self).payload_pages() <= 1,
    {
        self.records.clear();
        self.payload_bytes.clear();
        assert(self.records.pages_view().len() <= 1);
        assert(self.payload_bytes.pages_view().len() <= 1);
        self.record_count = 0;
        self.payload_count = 0;
        let ghost active0 = self.active_buckets@;
        let ghost free0 = self.free_buckets@;
        let ghost records1 = self.records;
        let ghost payload1 = self.payload_bytes;
        let n = self.active_buckets.len();
        let mut i: usize = 0;
        while i < n
            invariant
                i <= n,
                n == active0.len(),
                self.active_buckets@ == active0,
                self.free_buckets@ == free0 + active0.take(i as int),
                self.records == records1,
                self.payload_bytes == payload1,
                self.record_count == 0,
                self.payload_count == 0,
                active0.no_duplicates(),
                free0.no_duplicates(),
                forall|k: int| 0 <= k < active0.len() ==> (#[trigger] active0[k]) < self.entity_buckets@.len()
                    && !free0.contains(active0[k]),
                forall|k: int| 0 <= k < free0.len() ==> (#[trigger] free0[k]) < self.entity_buckets@.len(),
            decreases n - i,
        {
            let idx = self.active_buckets[i];
            self.entity_buckets[idx].entries.clear();
            self.free_buckets.push(idx);
            i = i + 1;
            assert(self.free_buckets@ =~= free0 + active0.take(i as int));
        }
        self.active_buckets.clear();
        self.bucket_lookup.clear();
        proof {
            assert(active0.take(n as int) =~= active0);
            let f = self.free_buckets@;
            assert forall|a: int, b: int| 0 <= a < b < f.len() implies f[a] != f[b] by {
                if b < free0.len() {
                } else if a >= free0.len() {
                    assert(f[a] == active0[a - free0.len()]);
                    assert(f[b] == active0[b - free0.len()]);
                } else {
                    assert(f[b] == active0[b - free0.len()]);
                    assert(free0.contains(f[a]));
                }
            }
            assert forall|k: int| 0 <= k < f.len() implies (#[trigger] f[k]) < self.entity_buckets@.len() by {
                if k >= free0.len() {
                    assert(f[k] == active0[k - free0.len()]);
                }
            }
            let rp = self.records.pages_view();
            let pp = self.payload_bytes.pages_view();
            if rp.len() > 0 {
                assert(rp.drop_last() =~= Seq::<Seq<Option<RelationRecord>>>::empty());
                assert(flat(rp.drop_last()) =~= Seq::<Option<RelationRecord>>::empty());
            }
            if pp.len() > 0 {
                assert(pp.drop_last() =~= Seq::<Seq<Option<u8>>>::empty());
                assert(flat(pp.drop_last()) =~= Seq::<Option<u8>>::empty());
            }
            assert(flat(rp) =~= Seq::<Option<RelationRecord>>::empty());
            assert(flat(pp) =~= Seq::<Option<u8>>::empty());
            assert(self.records_view() =~= Seq::<RelationRecord>::empty());
            assert(self.payload_view() =~= Seq::<u8>::empty());
        }
    }

    /// Index of the bucket of `entity_id`, taking a free or new bucket when
    /// it has none.
    fn bucket_index(&mut self, entity_id: EntityId) -> (idx: usize)
        requires
            old(self).inv(),
        ensures
            final(self).inv(),
            idx < final(self).entity_buckets@.len(),
            final(self).bucket_lookup@.contains_key(entity_id),
            final(self).bucket_lookup@[entity_id] == idx,
            forall|id: u32| final(self).entries_of(id) == old(self).entries_of(id),
            final(self).records == old(self).records,
            final(self).payload_bytes == old(self).payload_bytes,
            final(self).record_count == old(self).record_count,
            final(self).payload_count == old(self).payload_count,
    {
        match self.bucket_lookup.get(&entity_id) {
            Some(i) => {
                return *i;
            },
            None => {},
        }
        let idx = match self.free_buckets.pop() {
            Some(free_idx) => {
                self.entity_buckets[free_idx].entity_id = entity_id;
                self.entity_buckets[free_idx].entries.clear();
                free_idx
            },
            None => {
                self.entity_buckets.push(EntityRelationBucket { entity_id, entries: Vec::new() });
                self.entity_buckets.len() - 1
            },
        };
        let ghost lookup0 = self.bucket_lookup@;
        self.active_buckets.push(idx);
        self.bucket_lookup.insert(entity_id, idx);
        proof {
            assert(!lookup0.contains_key(entity_id));
            assert forall|id: u32| self.bucket_lookup@.contains_key(id) && id != entity_id implies self.bucket_lookup@[id] != idx by {
                assert(old(self).active_buckets@.contains(lookup0[id]));
            }
            assert forall|id: u32| #[trigger] self.entries_of(id) == old(self).entries_of(id) by {
                if id != entity_id && lookup0.contains_key(id) {
                    assert(self.bucket_lookup@[id] != idx);
                    assert(self.entity_buckets@[lookup0[id] as int] == old(self).entity_buckets@[lookup0[id] as int]);
                }
            }
            assert forall|id: u32| #[trigger] self.bucket_lookup@.contains_key(id) implies self.active_buckets@.contains(
                self.bucket_lookup@[id],
            ) by {
                let a = self.active_buckets@;
                if id == entity_id {
                    assert(a[a.len() - 1] == idx);
                } else {
                    let a0 = old(self).active_buckets@;
                    let j = choose|j: int| 0 <= j < a0.len() && a0[j] == lookup0[id];
                    assert(a[j] == a0[j]);
                }
            }
        }
        idx
    }
    /// Iterator over the records, in push order.
    pub fn iter(&self) -> (it: RelationIter<'_>)
        requires
            self.wf(),
        ensures
            it.spec_buffer() == self,
            it.spec_cursor() == 0,
    {
        RelationIter { buffer: self, cursor: 0 }
    }

    /// Relations of entity `entity_id`, in push order.
    pub fn relations_for_entity_id(&self, entity_id: EntityId) -> (r: &[EntityRelationEntry])
        requires
            self.wf(),
        ensures
            r@ == self.entries_of(entity_id),
    {
        match self.bucket_lookup.get(&entity_id) {
            Some(idx) => self.entity_buckets[*idx].entries.as_slice(),
            None => &[],
        }
    }

    /// Relations of `entity`.
    pub fn relations_for(&self, entity: Entity) -> (r: &[EntityRelationEntry])
        requires
            self.wf(),
        ensures
            r@ == self.entries_of(bits_index(entity.0)),
    {
        self.relations_for_entity_id(entity.index())
    }

    /// Copy of the payload bytes of `range`: empty for an empty range, the
    /// bytes when they were all stored, `None` when the range starts past
    /// the stored bytes. A non-empty range that starts inside the stored
    /// bytes and ends past them is excluded: the copy would never finish.
    pub fn payload_slice(&self, range: RelationPayloadRange) -> (r: Option<Vec<u8>>)
        requires
            self.wf(),
            range.len > 0 ==> range.start + range.len + self.payload_rows_per_page() <= usize::MAX,
            !(range.len > 0 && range.start <= self.payload_view().len() < range.start + range.len),
        ensures
            match r {
                Some(v) => if range.len == 0 {
                    v@ == Seq::<u8>::empty()
                } else {
                    range.start + range.len <= self.payload_view().len() && v@ == self.payload_view().subrange(
                        range.start as int,
                        range.start + range.len,
                    )
                },
                None => range.len > 0 && range.start > self.payload_view().len(),
            },
    {
        proof {
            self.lemma_views();
        }
        if range.is_empty() {
            return Some(Vec::new());
        }
        let start = range.start as usize;
        let end = start + range.len as usize;
        let count = self.payload_count;
        let ghost rpp = self.payload_bytes.spec_rows_per_page() as nat;
        let ghost pv = self.payload_bytes.pages_view();
        let mut bytes: Vec<u8> = Vec::new();
        let mut cursor = start;
        while cursor < end
            invariant
                self.wf(),
                pv == self.payload_bytes.pages_view(),
                rpp == self.payload_bytes.spec_rows_per_page(),
                count == self.payload_count,
                self.payload_view().len() == count,
                start <= cursor <= end,
                start == range.start,
                range.len > 0,
                end == range.start + range.len,
                end + rpp <= usize::MAX,
                (end <= count && bytes@ == self.payload_view().subrange(start as int, cursor as int)) || (start > count
                    && cursor == start),
            decreases end - cursor,
        {
            proof {
                lemma_flat_len(pv, rpp, count as nat);
                lemma_pool_written(&self.payload_bytes, count as nat);
                assert(self.payload_bytes.spec_len() == count);
                let r = rpp as int;
                vstd::arithmetic::div_mod::lemma_fundamental_div_mod(cursor as int, r);
                vstd::arithmetic::div_mod::lemma_mod_bound(cursor as int, r);
            }
            let tile = self.payload_bytes.clamp_to_page(cursor, end - cursor, count);
            let tile_end = tile.end;
            proof {
                let r = rpp as int;
                let c = cursor as int;
                let e = tile_end as int;
                if end <= count {
                    assert(c < e);
                    assert((e - 1) / r == c / r) by {
                        vstd::arithmetic::div_mod::lemma_fundamental_div_mod(e - 1, r);
                        vstd::arithmetic::div_mod::lemma_mod_bound(e - 1, r);
                        assert((e - 1) / r == c / r) by (nonlinear_arith)
                            requires
                                c == r * (c / r) + c % r,
                                e - 1 == r * ((e - 1) / r) + (e - 1) % r,
                                0 <= c % r < r,
                                0 <= (e - 1) % r < r,
                                c <= e - 1,
                                e - 1 < c - c % r + r,
                                r > 0;
                    }
                    lemma_packed_tile(pv, rpp, count as nat, c, e);
                    assert(tile.start <= tile.end);
                    assert(tile.end <= self.payload_bytes.spec_len());
                    assert((tile.start as int) / r == (tile.end - 1) / r);
                    assert(c / r < pv.len());
                    assert(c % r + (e - c) <= pv[c / r].len());
                }
            }
            match self.payload_bytes.slice_tile(tile) {
                Ok(slice) => {
                    proof {
                        let ghost piece = flat(pv).subrange(cursor as int, tile_end as int);
                        assert(slice@ =~= piece.map_values(|o: Option<u8>| o->Some_0));
                        assert(self.payload_view().subrange(start as int, tile_end as int) =~= self.payload_view().subrange(
                            start as int,
                            cursor as int,
                        ) + slice@);
                    }
                    bytes.extend_from_slice(slice.as_slice());
                    cursor = tile_end;
                },
                Err(_) => {
                    return None;
                },
            }
        }
        Some(bytes)
    }

    /// Add `entry` to the relations of entity `entity_id`.
    fn append_bucket_edge(&mut self, entity_id: EntityId, entry: EntityRelationEntry)
        requires
            old(self).inv(),
        ensures
            final(self).inv(),
            forall|id: u32| #[trigger] final(self).entries_of(id) == add_edge(old(self).entries_of(id), id, entity_id, entry),
            final(self).records_view() == old(self).records_view(),
            final(self).payload_view() == old(self).payload_view(),
            final(self).records == old(self).records,
            final(self).payload_bytes == old(self).payload_bytes,
            final(self).record_count == old(self).record_count,
            final(self).payload_count == old(self).payload_count,
    {
        let idx = self.bucket_index(entity_id);
        let ghost mid = *self;
        self.entity_buckets[idx].entries.push(entry);
        proof {
            assert forall|id: u32| #[trigger] self.entries_of(id) == add_edge(old(self).entries_of(id), id, entity_id, entry) by {
                assert(mid.entries_of(id) == old(self).entries_of(id));
                if id != entity_id && mid.bucket_lookup@.contains_key(id) {
                    assert(mid.bucket_lookup@[id] != idx);
                }
            }
        }
    }

    /// Append `bytes` (not empty) to the payload pool; returns the index of
    /// the first.
    fn store_payload(&mut self, bytes: &[u8]) -> (start: usize)
        requires
            old(self).inv(),
            bytes@.len() > 0,
            old(self).payload_count + bytes@.len() + old(self).payload_rows_per_page() <= usize::MAX,
        ensures
            final(self).inv(),
            start == old(self).payload_count,
            final(self).payload_view() == old(self).payload_view() + bytes@,
            final(self).payload_rows_per_page() == old(self).payload_rows_per_page(),
            final(self).records == old(self).records,
            final(self).record_count == old(self).record_count,
            final(self).entity_buckets == old(self).entity_buckets,
            final(self).active_buckets == old(self).active_buckets,
            final(self).free_buckets == old(self).free_buckets,
            final(self).bucket_lookup == old(self).bucket_lookup,
    {
        proof {
            self.lemma_views();
        }
        let ghost ppv0 = self.payload_view();
        let start = self.payload_count;
        let len = bytes.len();
        let ghost prpp = self.payload_bytes.spec_rows_per_page() as nat;
        let ghost f0 = flat(self.payload_bytes.pages_view());
        proof {
            lemma_packed_bulk(self.payload_bytes.pages_view(), prpp, start as nat, len as nat);
            lemma_flat_len(self.payload_bytes.pages_view(), prpp, start as nat);
            self.payload_bytes.lemma_rows();
            lemma_chunks_contiguous(start as nat, len as nat, prpp);
            assert(f0 + bytes@.take(0).map_values(|b: u8| Some(b)) + Seq::new(len as nat, |i: int| None::<u8>)
                =~= f0 + Seq::new(len as nat, |i: int| None::<u8>));
        }
        let spans = self.payload_bytes.alloc_bulk(len);
        let mut k: usize = 0;
        while k < spans.len()
            invariant
                spans@ == chunks(start as nat, len as nat, prpp),
                spans@.len() > 0,
                spans@[0].start == start,
                spans@.last().end == start + len,
                forall|j: int| 0 <= j < spans@.len() ==> (#[trigger] spans@[j]).start < spans@[j].end,
                forall|j: int| 0 <= j < spans@.len() - 1 ==> (#[trigger] spans@[j]).end == spans@[j + 1].start,
                k <= spans@.len(),
                len == bytes@.len(),
                start + len <= usize::MAX,
                f0.len() == start,
                self.payload_count == start,
                self.records == old(self).records,
                self.record_count == old(self).record_count,
                self.entity_buckets == old(self).entity_buckets,
                self.active_buckets == old(self).active_buckets,
                self.free_buckets == old(self).free_buckets,
                self.bucket_lookup == old(self).bucket_lookup,
                self.payload_bytes.wf(),
                self.payload_bytes.spec_rows_per_page() == prpp,
                packed(self.payload_bytes.pages_view(), prpp, (start + len) as nat),
                ({
                    let done: int = if k < spans@.len() { spans@[k as int].start - start } else { len as int };
                    &&& 0 <= done <= len
                    &&& flat(self.payload_bytes.pages_view()) == f0 + bytes@.take(done).map_values(|b: u8| Some(b))
                        + Seq::new((len - done) as nat, |i: int| None::<u8>)
                }),
            decreases spans@.len() - k,
        {
            let from = spans[k].start;
            let to = spans[k].end;
            proof {
                if k + 1 < spans@.len() {
                    assert(spans@[k + 1].start == to);
                    assert(spans@[k + 1].start < spans@[k + 1].end);
                }
                if k > 0 {
                    assert(spans@[k - 1].end == from);
                }
                assert(to <= start + len) by {
                    if k + 1 < spans@.len() {
                        lemma_spans_bound(spans@, k as int, start + len);
                    }
                }
            }
            fill_rows(&mut self.payload_bytes, from, to, start, bytes, Ghost(f0), Ghost(prpp));
            k = k + 1;
        }
        self.payload_count = self.payload_count + len;
        proof {
            assert(bytes@.take(len as int) =~= bytes@);
            assert(flat(self.payload_bytes.pages_view()) =~= f0 + bytes@.map_values(|b: u8| Some(b)));
            assert(f0.map_values(|o: Option<u8>| o->Some_0) == ppv0);
            assert(self.payload_view() =~= ppv0 + bytes@);
            assert(all_written(flat(self.payload_bytes.pages_view())));
        }
        start
    }

    /// Append `stored` to the record pool.
    fn store_record(&mut self, stored: RelationRecord)
        requires
            old(self).inv(),
            (old(self).record_pages() + 1) * old(self).record_rows_per_page() <= usize::MAX,
        ensures
            final(self).inv(),
            final(self).records_view() == old(self).records_view().push(stored),
            final(self).record_rows_per_page() == old(self).record_rows_per_page(),
            final(self).payload_bytes == old(self).payload_bytes,
            final(self).payload_count == old(self).payload_count,
            final(self).entity_buckets == old(self).entity_buckets,
            final(self).active_buckets == old(self).active_buckets,
            final(self).free_buckets == old(self).free_buckets,
            final(self).bucket_lookup == old(self).bucket_lookup,
    {
        proof {
            self.lemma_views();
            let rl = self.records.pages_view().len() as int;
            let rr = self.records.spec_rows_per_page() as int;
            assert(self.record_count + 1 <= usize::MAX) by (nonlinear_arith)
                requires self.record_count <= rl * rr, (rl + 1) * rr <= usize::MAX, rr > 0;
        }
        let ghost rpp = self.records.spec_rows_per_page() as nat;
        let ghost n = self.record_count as nat;
        let ghost pv0 = self.records.pages_view();
        let ghost rv0 = self.records_view();
        proof {
            lemma_packed_target(pv0, rpp, n);
            let t = crate::pool::paged_pool::alloc_target(pv0, rpp);
            let ps = crate::pool::paged_pool::with_target_page(pv0, t);
            assert(ps.last() == ps[t]);
            lemma_packed_append(ps, rpp, n, seq![None::<RelationRecord>]);
            assert(ps[t] + seq![None::<RelationRecord>] =~= ps[t].push(None));
        }
        let index = self.records.alloc_one();
        let ghost pv1 = self.records.pages_view();
        proof {
            lemma_packed_row(pv1, rpp, n + 1, index as int, Some(stored));
        }
        self.records.write_at(index, stored);
        self.record_count = self.record_count + 1;
        proof {
            lemma_packed_shape(pv1, self.records.pages_view(), rpp, n + 1);
            let f = flat(self.records.pages_view());
            assert(f =~= flat(pv0).push(Some(stored)));
            assert(self.records_view() =~= rv0.push(stored));
            assert(all_written(f));
        }
    }

    /// Both pools can take one more page: for records, and for payload
    /// bytes after `payload_len` more bytes.
    pub open spec fn room_for(&self, payload_len: nat) -> bool {
        &&& self.records_view().len() + 2 * self.record_rows_per_page() <= usize::MAX
        &&& self.payload_view().len() + payload_len + self.payload_rows_per_page() <= usize::MAX
    }

    /// Whether [`Self::room_for`] holds.
    pub fn has_room_for(&self, payload_len: usize) -> (b: bool)
        requires
            self.wf(),
        ensures
            b == self.room_for(payload_len as nat),
    {
        proof {
            self.lemma_views();
        }
        let rr = self.records.rows_per_page();
        let pr = self.payload_bytes.rows_per_page();
        let a = match self.record_count.checked_add(rr) {
            Some(v) => v,
            None => {
                return false;
            },
        };
        match a.checked_add(rr) {
            Some(_) => {},
            None => {
                return false;
            },
        }
        let b = match self.payload_count.checked_add(payload_len) {
            Some(v) => v,
            None => {
                return false;
            },
        };
        match b.checked_add(pr) {
            Some(_) => true,
            None => false,
        }
    }

    /// Store `record` with its payload bytes and list it for both of its
    /// entities: for entity A with B as the other side and `delta`, for
    /// entity B with A as the other side and the flipped delta. A relation
    /// with payload gets the range of the bytes just stored.
    pub fn push_relation(&mut self, record: RelationRecord, payload_bytes: &[u8], delta: Option<RelationDelta>)
        requires
            old(self).wf(),
            delta matches Some(d) ==> flippable(d),
            old(self).room_for(payload_bytes@.len()),
        ensures
            final(self).wf(),
            final(self).record_rows_per_page() == old(self).record_rows_per_page(),
            final(self).payload_rows_per_page() == old(self).payload_rows_per_page(),
            final(self).record_pages() * final(self).record_rows_per_page() <= final(self).records_view().len()
                + final(self).record_rows_per_page(),
            final(self).payload_pages() * final(self).payload_rows_per_page() <= final(self).payload_view().len()
                + final(self).payload_rows_per_page(),
            ({
                let p = payload_range(old(self).payload_view().len(), payload_bytes@.len());
                let stored = RelationRecord { payload: p, ..record };
                let ea = EntityRelationEntry {
                    other: record.entity_b,
                    relation_type: record.relation_type,
                    payload: p,
                    delta,
                };
                let eb = EntityRelationEntry {
                    other: record.entity_a,
                    relation_type: record.relation_type,
                    payload: p,
                    delta: match delta {
                        Some(d) => Some(flip(d)),
                        None => None,
                    },
                };
                let ia = bits_index(record.entity_a.0);
                let ib = bits_index(record.entity_b.0);
                &&& final(self).records_view() == old(self).records_view().push(stored)
                &&& final(self).payload_view() == old(self).payload_view() + payload_bytes@
                &&& forall|id: u32| #[trigger] final(self).entries_of(id) == add_edge(
                    add_edge(old(self).entries_of(id), id, ia, ea),
                    id,
                    ib,
                    eb,
                )
            }),
    {
        proof {
            self.lemma_views();
            self.lemma_page_bounds();
            let rp = self.record_pages() as int;
            let rr = self.record_rows_per_page() as int;
            assert((rp + 1) * rr == rp * rr + rr) by (nonlinear_arith);
        }
        let ghost rpv0 = self.records_view();
        let ghost ppv0 = self.payload_view();
        let payload = if payload_bytes.len() == 0 {
            None
        } else {
            let start = self.store_payload(payload_bytes);
            Some(RelationPayloadRange { start: start as u32, len: payload_bytes.len() as u32 })
        };
        let mut stored = record;
        stored.payload = payload;
        self.store_record(stored);
        let delta_b = match delta {
            Some(d) => Some(d.flipped()),
            None => None,
        };
        self.append_bucket_edge(stored.entity_a.index(), EntityRelationEntry {
            other: stored.entity_b,
            relation_type: stored.relation_type,
            payload: stored.payload,
            delta,
        });
        self.append_bucket_edge(stored.entity_b.index(), EntityRelationEntry {
            other: stored.entity_a,
            relation_type: stored.relation_type,
            payload: stored.payload,
            delta: delta_b,
        });
        proof {
            self.lemma_page_bounds();
        }
    }
}


/// Iterator over the records of a [`RelationBuffer`].
pub struct RelationIter<'a> {
    buffer: &'a RelationBuffer,
    cursor: usize,
}

impl<'a> RelationIter<'a> {
    pub closed spec fn spec_buffer(&self) -> &'a RelationBuffer {
        self.buffer
    }

    pub closed spec fn spec_cursor(&self) -> nat {
        self.cursor as nat
    }

    /// The next record, or `None` after the last.
    pub fn next(&mut self) -> (r: Option<RelationRecord>)
        requires
            old(self).spec_buffer().wf(),
        ensures
            final(self).spec_buffer() == old(self).spec_buffer(),
            ({
                let rv = old(self).spec_buffer().records_view();
                let c = old(self).spec_cursor();
                if c < rv.len() {
                    r == Some(rv[c as int]) && final(self).spec_cursor() == c + 1
                } else {
                    r is None && final(self).spec_cursor() == c
                }
            }),
    {
        proof {
            self.buffer.lemma_views();
        }
        if self.cursor >= self.buffer.record_count {
            return None;
        }
        let gidx = self.cursor;
        self.cursor = self.cursor + 1;
        proof {
            let b = self.buffer;
            let rpp = b.records.spec_rows_per_page() as nat;
            let pv = b.records.pages_view();
            lemma_packed_row(pv, rpp, b.record_count as nat, gidx as int, flat(pv)[gidx as int]);
            assert(flat(pv)[gidx as int] is Some);
        }
        match self.buffer.records.get(gidx) {
            Ok(record) => Some(*record),
            Err(_) => None,
        }
    }
}

proof fn lemma_spans_bound(c: Seq<Range<usize>>, k: int, end: int)
    requires
        0 <= k < c.len() - 1,
        c.last().end == end,
        forall|j: int| 0 <= j < c.len() ==> (#[trigger] c[j]).start < c[j].end,
        forall|j: int| 0 <= j < c.len() - 1 ==> (#[trigger] c[j]).end == c[j + 1].start,
    ensures
        c[k].end <= end,
    decreases c.len() - k,
{
    if k + 1 < c.len() - 1 {
        lemma_spans_bound(c, k + 1, end);
    }
    assert(c[k + 1].start < c[k + 1].end);
}

/// Write `bytes[from - base .. to - base]` into rows `from .. to` of a packed
/// byte pool holding `base + bytes.len()` rows.
fn fill_rows(
    pool: &mut PagedPool<u8>,
    from: usize,
    to: usize,
    base: usize,
    bytes: &[u8],
    Ghost(f0): Ghost<Seq<Option<u8>>>,
    Ghost(rpp): Ghost<nat>,
)
    requires
        old(pool).wf(),
        old(pool).spec_rows_per_page() == rpp,
        base <= from <= to <= base + bytes@.len(),
        base + bytes@.len() <= usize::MAX,
        f0.len() == base,
        packed(old(pool).pages_view(), rpp, (base + bytes@.len()) as nat),
        flat(old(pool).pages_view()) == f0 + bytes@.take(from - base).map_values(|b: u8| Some(b))
            + Seq::new((bytes@.len() - (from - base)) as nat, |i: int| None::<u8>),
    ensures
        final(pool).wf(),
        final(pool).spec_rows_per_page() == rpp,
        packed(final(pool).pages_view(), rpp, (base + bytes@.len()) as nat),
        flat(final(pool).pages_view()) == f0 + bytes@.take(to - base).map_values(|b: u8| Some(b))
            + Seq::new((bytes@.len() - (to - base)) as nat, |i: int| None::<u8>),
{
    let len = bytes.len();
    let mut g = from;
    while g < to
        invariant
            from <= g <= to,
            to <= base + len,
            base + len <= usize::MAX,
            len == bytes@.len(),
            f0.len() == base,
            base <= from,
            pool.wf(),
            pool.spec_rows_per_page() == rpp,
            packed(pool.pages_view(), rpp, (base + len) as nat),
            flat(pool.pages_view()) == f0 + bytes@.take(g - base).map_values(|b: u8| Some(b))
                + Seq::new((len - (g - base)) as nat, |i: int| None::<u8>),
        decreases to - g,
    {
        let ghost pv = pool.pages_view();
        let b = bytes[g - base];
        proof {
            lemma_packed_row(pv, rpp, (base + len) as nat, g as int, Some(b));
        }
        pool.write_at(g, b);
        proof {
            lemma_packed_shape(pv, pool.pages_view(), rpp, (base + len) as nat);
            assert(flat(pool.pages_view()) =~= f0 + bytes@.take(g + 1 - base).map_values(|b: u8| Some(b))
                + Seq::new((len - (g + 1 - base)) as nat, |i: int| None::<u8>));
        }
        g = g + 1;
    }
}


/// Flipping an offset twice gives it back.
/// The payload bytes of a pushed relation are read back from the range it
/// was given, as long as the buffer has only grown since (later pushes
/// append, `clear` is not called): that range lies inside the stored
/// bytes, where `payload_slice` returns them.
pub proof fn law_payload_round_trip(
    before: RelationBuffer,
    after: RelationBuffer,
    later: RelationBuffer,
    record: RelationRecord,
    bytes: Seq<u8>,
)
    requires
        before.payload_view().len() + bytes.len() <= u32::MAX,
        after.records_view() == before.records_view().push(
            RelationRecord { payload: payload_range(before.payload_view().len(), bytes.len()), ..record },
        ),
        after.payload_view() == before.payload_view() + bytes,
        later.payload_view().len() >= after.payload_view().len(),
        later.payload_view().subrange(0, after.payload_view().len() as int) == after.payload_view(),
    ensures
        after.records_view().last().payload == payload_range(before.payload_view().len(), bytes.len()),
        payload_range(before.payload_view().len(), bytes.len()) matches Some(r) ==> {
            &&& r.start + r.len <= later.payload_view().len()
            &&& later.payload_view().subrange(r.start as int, r.start + r.len) == bytes
        },
{
    let n = before.payload_view().len();
    if bytes.len() > 0 {
        assert(later.payload_view().subrange(n as int, (n + bytes.len()) as int) =~= after.payload_view().subrange(n as int, (n + bytes.len()) as int));
        assert(after.payload_view().subrange(n as int, (n + bytes.len()) as int) =~= bytes);
    }
}

/// After `clear`, the next relation pushed is the only record, its payload
/// (if it has any bytes) starts at 0, and the stored payload is its bytes.
pub proof fn law_clear_then_push(cleared: RelationBuffer, pushed: RelationBuffer, record: RelationRecord, bytes: Seq<u8>)
    requires
        bytes.len() <= u32::MAX,
        cleared.records_view() == Seq::<RelationRecord>::empty(),
        cleared.payload_view() == Seq::<u8>::empty(),
        pushed.records_view() == cleared.records_view().push(
            RelationRecord { payload: payload_range(cleared.payload_view().len(), bytes.len()), ..record },
        ),
        pushed.payload_view() == cleared.payload_view() + bytes,
    ensures
        pushed.records_view().len() == 1,
        pushed.records_view()[0].payload == (if bytes.len() == 0 {
            None
        } else {
            Some(RelationPayloadRange { start: 0, len: bytes.len() as u32 })
        }),
        pushed.payload_view() == bytes,
{
    assert(pushed.payload_view() =~= bytes);
}

pub proof fn law_flip_twice(d: RelationDelta)
    requires
        flippable(d),
    ensures
        flippable(flip(d)),
        flip(flip(d)) == d,
{
}

/// A relation between two distinct entities is listed once for each: for
/// the first with the second as the other side and the offset as pushed,
/// for the second with the first as the other side and the offset flipped.
/// Every other entity's list is unchanged.
pub proof fn law_relation_listed_both_ways(
    before: RelationBuffer,
    after: RelationBuffer,
    record: RelationRecord,
    p: Option<RelationPayloadRange>,
    delta: Option<RelationDelta>,
)
    requires
        bits_index(record.entity_a.0) != bits_index(record.entity_b.0),
        forall|id: u32| #[trigger] after.entries_of(id) == add_edge(
            add_edge(
                before.entries_of(id),
                id,
                bits_index(record.entity_a.0),
                EntityRelationEntry { other: record.entity_b, relation_type: record.relation_type, payload: p, delta },
            ),
            id,
            bits_index(record.entity_b.0),
            EntityRelationEntry {
                other: record.entity_a,
                relation_type: record.relation_type,
                payload: p,
                delta: match delta {
                    Some(d) => Some(flip(d)),
                    None => None,
                },
            },
        ),
    ensures
        after.entries_of(bits_index(record.entity_a.0)).last().other == record.entity_b,
        after.entries_of(bits_index(record.entity_a.0)).last().delta == delta,
        after.entries_of(bits_index(record.entity_b.0)).last().other == record.entity_a,
        delta matches Some(d) ==> after.entries_of(bits_index(record.entity_b.0)).last().delta == Some(flip(d)),
        after.entries_of(bits_index(record.entity_a.0)).len() == before.entries_of(bits_index(record.entity_a.0)).len() + 1,
        after.entries_of(bits_index(record.entity_b.0)).len() == before.entries_of(bits_index(record.entity_b.0)).len() + 1,
        forall|id: u32| id != bits_index(record.entity_a.0) && id != bits_index(record.entity_b.0) ==> #[trigger] after.entries_of(id)
            == before.entries_of(id),
{
    let ia = bits_index(record.entity_a.0);
    let ib = bits_index(record.entity_b.0);
    assert(after.entries_of(ia) == add_edge(
        add_edge(
            before.entries_of(ia),
            ia,
            ia,
            EntityRelationEntry { other: record.entity_b, relation_type: record.relation_type, payload: p, delta },
        ),
        ia,
        ib,
        EntityRelationEntry {
            other: record.entity_a,
            relation_type: record.relation_type,
            payload: p,
            delta: match delta {
                Some(d) => Some(flip(d)),
                None => None,
            },
        },
    ));
    assert(after.entries_of(ib) == add_edge(
        add_edge(
            before.entries_of(ib),
            ib,
            ia,
            EntityRelationEntry { other: record.entity_b, relation_type: record.relation_type, payload: p, delta },
        ),
        ib,
        ib,
        EntityRelationEntry {
            other: record.entity_a,
            relation_type: record.relation_type,
            payload: p,
            delta: match delta {
                Some(d) => Some(flip(d)),
                None => None,
            },
        },
    ));
}

} // verus!
