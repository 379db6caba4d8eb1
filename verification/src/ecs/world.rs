//! The world: entity slots, archetype storages and registered systems.
//!
//! An entity handle names a slot and the slot's generation. A despawned
//! entity leaves its location at once; its row is freed, its slot's
//! generation bumped and the slot recycled at the next flush.
use vstd::prelude::*;
use crate::ecs::archetype::{ArchetypeId, ArchetypeLayout, archetype_hash};
use crate::ecs::builder::{ComponentBytes, EntityBuilder, EntityBuilderError, component_error, first_error, ids_of};
use crate::ecs::ids::strictly_sorted;
use crate::ecs::storage::column::ComponentColumn;
use crate::ecs::component::{ComponentId, ComponentMeta, ComponentRegistry, meta_eq};
use crate::ecs::entity::{Entity, EntityId, EntityLoc, Generation, bits_generation, bits_index};
use crate::ecs::storage::archetype_storage::{ArchetypeStorage, StorageError, col_grew_one, column_index, copy_indices, plan_ok};
use crate::pool::packed::packed;
use crate::ecs::storage::plan::{PageBudget, PlanError, plan_archetype, scan_row_bytes};
use crate::ecs::system_descriptor::SystemDescriptor;
use crate::ecs::system_handle::SystemHandle;
use crate::ecs::system_registration_error::SystemRegistrationError;
use crate::ecs::system_registry::{SystemRegistry, registration_result};
use crate::pool::sort::{dedup_sorted, index_set, lemma_index_set_is, sort_indices, sorted_usize, strictly_sorted_usize};
use crate::pool::paged_pool::{pool_bulk_remove, first_at_least};
use crate::ecs::storage::archetype_storage::{bulk_remove_result, col_bulk_removed, first_too_short};
use crate::ecs::storage::column::bulk_row_moves;

verus! {

struct ArchetypeEntry {
    storage: ArchetypeStorage,
    pending_despawns: Vec<usize>,
}

impl ArchetypeEntry {
    fn take_pending(&mut self) -> (v: Vec<usize>)
        ensures
            v@ == old(self).pending_despawns@,
            final(self).pending_despawns@ == Seq::<usize>::empty(),
            final(self).storage == old(self).storage,
    {
        let mut v: Vec<usize> = Vec::new();
        std::mem::swap(&mut v, &mut self.pending_despawns);
        v
    }

    fn set_pending(&mut self, v: Vec<usize>)
        ensures
            final(self).pending_despawns@ == v@,
            final(self).storage == old(self).storage,
    {
        self.pending_despawns = v;
    }
}

/// Where a live entity is stored.
#[derive(Copy, Clone, Debug, PartialEq, Eq, Structural)]
pub struct SlotLocation {
    pub archetype: ArchetypeId,
    pub row: usize,
}

struct EntitySlot {
    generation: Generation,
    location: Option<SlotLocation>,
}

/// Errors of the world.
#[derive(Debug, PartialEq, Eq, Structural)]
pub enum WorldError {
    Builder(EntityBuilderError),
    Plan(PlanError),
    Storage(StorageError),
    UnknownEntity { entity: Entity },
    StaleEntity { entity: Entity },
    EntityNotAlive { entity: Entity },
    EntityIndexOverflow { index: usize },
    UnknownEntityIndex { entity_id: EntityId },
    MissingArchetype { archetype_id: ArchetypeId },
}

/// The generation after `g`, wrapping to zero.
pub open spec fn next_generation(g: u32) -> u32 {
    if g == u32::MAX { 0 } else { (g + 1) as u32 }
}

/// `index` after recording archetype `a` under component `c`.
pub open spec fn index_add(index: Seq<(u32, Seq<u64>)>, c: u32, a: u64) -> Seq<(u32, Seq<u64>)> {
    if exists|k: int| 0 <= k < index.len() && (#[trigger] index[k]).0 == c {
        let k = choose|k: int| 0 <= k < index.len() && (#[trigger] index[k]).0 == c;
        index.update(k, (c, index[k].1.push(a)))
    } else {
        index.push((c, seq![a]))
    }
}

/// `index` after recording archetype `a` under each component of `cs`.
pub open spec fn index_add_all(index: Seq<(u32, Seq<u64>)>, cs: Seq<u32>, a: u64) -> Seq<(u32, Seq<u64>)>
    decreases cs.len(),
{
    if cs.len() == 0 {
        index
    } else {
        index_add(index_add_all(index, cs.drop_last(), a), cs.last(), a)
    }
}

/// Position of `id` in `ids`, if present.
pub open spec fn position_of(ids: Seq<u64>, id: u64) -> Option<int> {
    if exists|k: int| 0 <= k < ids.len() && ids[k] == id {
        Some(choose|k: int| 0 <= k < ids.len() && ids[k] == id)
    } else {
        None
    }
}

/// In a list without repeats, the position of the id at `k` is `k`.
pub proof fn lemma_position_of(ids: Seq<u64>, k: int)
    requires
        ids.no_duplicates(),
        0 <= k < ids.len(),
    ensures
        position_of(ids, ids[k]) == Some(k),
{
    let c = choose|c: int| 0 <= c < ids.len() && ids[c] == ids[k];
    if c != k {
        assert(ids[c] == ids[k]);
    }
}

/// Appending a new id to a list without repeats keeps every old id where it
/// was.
proof fn lemma_position_of_push(ids: Seq<u64>, a: u64, b: u64)
    requires
        ids.push(a).no_duplicates(),
        ids.contains(b),
    ensures
        position_of(ids.push(a), b) == position_of(ids, b),
        position_of(ids, b) is Some,
{
    let c = choose|c: int| 0 <= c < ids.len() && ids[c] == b;
    assert(ids.no_duplicates()) by {
        assert forall|x: int, y: int| 0 <= x < ids.len() && 0 <= y < ids.len() && x != y implies ids[x] != ids[y] by {
            assert(ids.push(a)[x] == ids[x] && ids.push(a)[y] == ids[y]);
        }
    }
    lemma_position_of(ids, c);
    assert(ids.push(a)[c] == b);
    lemma_position_of(ids.push(a), c);
}

/// Storage `b` is storage `a` with the rows `rows` (ascending, each once)
/// swap-removed: the id pool as [`pool_bulk_remove`] says, every column as
/// its own bulk removal says, and the row count that of the id pool. With
/// no rows the storage is unchanged.
pub open spec fn rows_freed(a: ArchetypeStorage, b: ArchetypeStorage, rows: Seq<usize>) -> bool {
    if rows.len() == 0 {
        b == a
    } else {
        &&& b.spec_plan() == a.spec_plan()
        &&& b.ids().spec_rows_per_page() == a.ids().spec_rows_per_page()
        &&& b.ids().pages_view() == pool_bulk_remove(a.ids().pages_view(), a.ids().spec_rows_per_page() as nat, rows)
        &&& b.cols().len() == a.cols().len()
        &&& forall|i: int| 0 <= i < a.cols().len() ==> col_bulk_removed(
            a.cols()[i],
            #[trigger] b.cols()[i],
            rows,
            bulk_row_moves(a.cols()[i].spec_len(), index_set(rows)).reverse(),
        )
        &&& b.spec_len() == b.ids().spec_len()
    }
}

/// Freeing `rows` (ascending, each once, all below `len`) moves rows whose
/// destination lies inside what is left: no row moved into a freed row is
/// moved again.
pub open spec fn chain_free(len: nat, rows: Seq<usize>) -> bool {
    forall|q: int| 0 <= q < bulk_row_moves(len, rows).len() ==> (#[trigger] bulk_row_moves(len, rows)[q]).1 < len - rows.len()
}

/// What flushing storage `s` with waiting rows `pending` needs to succeed,
/// with `nslots` entity slots: the storage is dense, the waiting rows lie
/// inside it, every row records an existing slot, and no moved row is
/// moved again.
pub open spec fn flushable(s: ArchetypeStorage, pending: Seq<usize>, nslots: nat) -> bool {
    &&& dense(s)
    &&& forall|j: int| 0 <= j < pending.len() ==> #[trigger] pending[j] < s.spec_len()
    &&& forall|row: int| 0 <= row < s.spec_len() ==> (#[trigger] s.ids().slot(row) matches Some(i) && i < nslots)
    &&& chain_free(s.spec_len(), index_set(pending))
}

/// Removing ascending distinct rows below the length: the moves depend on
/// the length only, each removal takes one row, and every row left was a
/// row before.
proof fn lemma_moves_by_length<A>(s: Seq<A>, u: Seq<usize>)
    requires
        strictly_sorted_usize(u),
        forall|j: int| 0 <= j < u.len() ==> #[trigger] u[j] < s.len(),
        s.len() <= usize::MAX,
    ensures
        crate::pool::page::bulk_moves(s, u) == bulk_row_moves(s.len(), u),
        crate::pool::page::bulk_remove(s, u).len() == s.len() - u.len(),
        forall|i: int| 0 <= i < crate::pool::page::bulk_remove(s, u).len() ==> s.contains(
            #[trigger] crate::pool::page::bulk_remove(s, u)[i],
        ),
    decreases u.len(),
{
    if u.len() > 0 {
        let t = u.last();
        let rest = u.drop_last();
        let s2 = crate::pool::page::swap_remove_step(s, t as int);
        assert(strictly_sorted_usize(rest));
        assert forall|j: int| 0 <= j < rest.len() implies #[trigger] rest[j] < s2.len() by {
            assert(u[j] < u[u.len() - 1]);
        }
        lemma_moves_by_length(s2, rest);
        assert(s2.len() == s.len() - 1);
        assert(crate::pool::page::bulk_moves(s, u) == bulk_row_moves(s.len(), u)) by {
            assert(bulk_row_moves(s.len(), u) == (if t != (s.len() - 1) as usize {
                seq![((s.len() - 1) as usize, t)] + bulk_row_moves((s.len() - 1) as nat, rest)
            } else {
                bulk_row_moves((s.len() - 1) as nat, rest)
            }));
        }
        let r = crate::pool::page::bulk_remove(s, u);
        assert(r == crate::pool::page::bulk_remove(s2, rest));
        assert forall|i: int| 0 <= i < r.len() implies s.contains(#[trigger] r[i]) by {
            assert(r[i] == crate::pool::page::bulk_remove(s2, rest)[i]);
            assert(s2.contains(r[i]));
            let j2 = choose|j2: int| 0 <= j2 < s2.len() && s2[j2] == r[i];
            if j2 == t as int {
                assert(r[i] == s[s.len() - 1]);
            } else {
                assert(r[i] == s[j2]);
            }
        }
    } else {
        let r = crate::pool::page::bulk_remove(s, u);
        assert forall|i: int| 0 <= i < r.len() implies s.contains(#[trigger] r[i]) by {
            assert(r[i] == s[i]);
        }
    }
}

/// A move found in a concatenation of move lists is in one of them.
proof fn lemma_concat_all_member(ms: Seq<Seq<(usize, usize)>>, m: (usize, usize))
    requires
        crate::ecs::storage::archetype_storage::concat_all(ms).contains(m),
    ensures
        exists|i: int| 0 <= i < ms.len() && #[trigger] ms[i].contains(m),
    decreases ms.len(),
{
    let c = crate::ecs::storage::archetype_storage::concat_all(ms);
    let d = crate::ecs::storage::archetype_storage::concat_all(ms.drop_last());
    assert(c == d + ms.last());
    let q = choose|q: int| 0 <= q < c.len() && c[q] == m;
    if q < d.len() {
        assert(d[q] == m);
        lemma_concat_all_member(ms.drop_last(), m);
        let i = choose|i: int| 0 <= i < ms.drop_last().len() && #[trigger] ms.drop_last()[i].contains(m);
        assert(ms[i] == ms.drop_last()[i]);
    } else {
        assert(ms.last()[q - d.len()] == m);
        assert(ms[ms.len() - 1].contains(m));
    }
}

proof fn lemma_first_at_least_none(s: Seq<usize>, bound: int)
    requires
        forall|j: int| 0 <= j < s.len() ==> #[trigger] s[j] < bound,
    ensures
        first_at_least(s, bound) == s.len(),
    decreases s.len(),
{
    if s.len() > 0 {
        assert forall|j: int| 0 <= j < s.drop_last().len() implies #[trigger] s.drop_last()[j] < bound by {
            assert(s.drop_last()[j] == s[j]);
        }
        lemma_first_at_least_none(s.drop_last(), bound);
    }
}

proof fn lemma_first_too_short_none(cols: Seq<ComponentColumn>, g: int)
    requires
        forall|i: int| 0 <= i < cols.len() ==> g < (#[trigger] cols[i]).spec_len(),
    ensures
        first_too_short(cols, g) == cols.len(),
    decreases cols.len(),
{
    if cols.len() > 0 {
        assert forall|i: int| 0 <= i < cols.drop_last().len() implies g < (#[trigger] cols.drop_last()[i]).spec_len() by {
            assert(cols.drop_last()[i] == cols[i]);
        }
        lemma_first_too_short_none(cols.drop_last(), g);
        assert(cols.last() == cols[cols.len() - 1]);
    }
}

/// The rows waiting in a flushable storage, each once in ascending order,
/// lie inside it and record existing slots.
proof fn lemma_flushable_rows(s0: ArchetypeStorage, p0: Seq<usize>, rows: Seq<usize>, n: nat)
    requires
        s0.wf(),
        flushable(s0, p0, n),
        rows.to_set() == p0.to_set(),
    ensures
        s0.ids().spec_len() == s0.spec_len(),
        forall|j: int| 0 <= j < rows.len() ==> {
            &&& s0.ids().allocated(#[trigger] rows[j] as int)
            &&& (rows[j] as int) < s0.spec_len()
            &&& s0.ids().slot(rows[j] as int) matches Some(x) && x < n
        },
{
    s0.ids().lemma_rows();
    assert forall|j: int| 0 <= j < rows.len() implies {
        &&& s0.ids().allocated(#[trigger] rows[j] as int)
        &&& (rows[j] as int) < s0.spec_len()
        &&& s0.ids().slot(rows[j] as int) matches Some(x) && x < n
    } by {
        assert(rows.to_set().contains(rows[j]));
        assert(p0.to_set().contains(rows[j]));
        let q = choose|q: int| 0 <= q < p0.len() && p0[q] == rows[j];
        assert(p0[q] < s0.spec_len());
    }
}

/// In a flushable storage, removing the waiting rows `g` (ascending, each
/// once) from the storage succeeds, every move reported lands inside the
/// rows left, and every row left records an existing slot.
proof fn lemma_flush_free_ok(
    s0: ArchetypeStorage,
    sa: ArchetypeStorage,
    p0: Seq<usize>,
    g: Seq<usize>,
    res: Result<Vec<(usize, usize)>, StorageError>,
    sg: Seq<usize>,
    pm: Seq<(usize, usize)>,
    rp: Result<(), crate::pool::PoolError>,
    ms: Seq<Seq<(usize, usize)>>,
    n: nat,
)
    requires
        s0.wf(),
        sa.wf(),
        flushable(s0, p0, n),
        strictly_sorted_usize(g),
        g.to_set() == p0.to_set(),
        g.len() > 0,
        bulk_remove_result(s0, sa, g, res, sg, pm, rp, ms),
    ensures
        res is Ok,
        sa.ids().spec_len() == s0.spec_len() - g.len(),
        forall|q: int| 0 <= q < res->Ok_0@.len() ==> (#[trigger] res->Ok_0@[q]).1 < sa.ids().spec_len(),
        forall|t: int| 0 <= t < sa.ids().spec_len() ==> (#[trigger] sa.ids().slot(t) matches Some(x) && x < n),
{
    let len = s0.spec_len();
    let ov = s0.ids().pages_view();
    let rpp = s0.ids().spec_rows_per_page() as nat;
    lemma_flushable_rows(s0, p0, g, n);
    s0.ids().lemma_rows();
    lemma_sorted_same(sg, g);
    lemma_index_set_is(g, g);
    lemma_index_set_is(p0, g);
    // every waiting row lies in an existing page
    let np = ov.len() as int;
    assert(len <= np * rpp) by {
        if np > 0 {
            assert(ov.last().len() <= rpp);
            assert((np - 1) * rpp + rpp == np * rpp) by (nonlinear_arith);
        }
    }
    assert forall|j: int| 0 <= j < sg.len() implies #[trigger] sg[j] < (ov.len() * rpp) as int by {
        assert((g[j] as int) < len);
    }
    lemma_first_at_least_none(sg, (ov.len() * rpp) as int);
    assert(rp is Ok);
    // every column is longer than the last waiting row
    let gl = index_set(g).last();
    assert((gl as int) < len) by {
        assert(g[g.len() - 1] == gl);
    }
    assert forall|i: int| 0 <= i < s0.cols().len() implies gl < (#[trigger] s0.cols()[i]).spec_len() by {
        assert(s0.cols()[i].spec_len() == len);
    }
    lemma_first_too_short_none(s0.cols(), gl as int);
    assert(res is Ok);
    // the rows left
    crate::pool::packed::lemma_flat_len(ov, rpp, len);
    s0.ids().lemma_len_fits();
    lemma_moves_by_length(crate::pool::packed::flat(ov), g);
    crate::pool::paged_pool::law_bulk_removal_on_rows(ov, rpp, len, g);
    let nv = sa.ids().pages_view();
    sa.ids().lemma_rows();
    crate::pool::packed::lemma_flat_len(nv, rpp, sa.ids().spec_len());
    assert(sa.ids().spec_len() == len - g.len());
    // moves
    let mv = bulk_row_moves(len, g);
    assert(pm == mv);
    assert forall|q: int| 0 <= q < res->Ok_0@.len() implies (#[trigger] res->Ok_0@[q]).1 < sa.ids().spec_len() by {
        let m = res->Ok_0@[q];
        assert(res->Ok_0@.to_set().contains(m));
        let all = pm + crate::ecs::storage::archetype_storage::concat_all(ms);
        assert(all.to_set().contains(m));
        let c = choose|c: int| 0 <= c < all.len() && all[c] == m;
        if c < pm.len() {
            assert(mv[c] == m);
        } else {
            let cc = crate::ecs::storage::archetype_storage::concat_all(ms);
            assert(cc[c - pm.len()] == m);
            assert(cc.contains(m));
            lemma_concat_all_member(ms, m);
            let i = choose|i: int| 0 <= i < ms.len() && #[trigger] ms[i].contains(m);
            assert(col_bulk_removed(s0.cols()[i], sa.cols()[i], g, ms[i]));
            assert(s0.cols()[i].spec_len() == len);
            let w = choose|w: int| 0 <= w < ms[i].len() && ms[i][w] == m;
            assert(ms[i] == mv.reverse());
            assert(mv[mv.len() - 1 - w] == m);
        }
    }
    // rows left record existing slots
    assert forall|t: int| 0 <= t < sa.ids().spec_len() implies (#[trigger] sa.ids().slot(t) matches Some(x) && x < n) by {
        let fo = crate::pool::packed::flat(ov);
        let fr = crate::pool::page::bulk_remove(fo, g);
        assert(sa.ids().slot(t) == sa.ids().rows()[t]);
        assert(sa.ids().rows() == fr);
        assert(fo.contains(fr[t]));
        let j = choose|j: int| 0 <= j < fo.len() && fo[j] == fr[t];
        assert(s0.ids().slot(j) == fo[j]);
    }
}

/// Removing the waiting rows of a dense storage whose waiting rows lie
/// inside it leaves, when it succeeds, one id row fewer per waiting row.
proof fn lemma_freed_len(
    s0: ArchetypeStorage,
    sa: ArchetypeStorage,
    p0: Seq<usize>,
    g: Seq<usize>,
    res: Result<Vec<(usize, usize)>, StorageError>,
    sg: Seq<usize>,
    pm: Seq<(usize, usize)>,
    rp: Result<(), crate::pool::PoolError>,
    ms: Seq<Seq<(usize, usize)>>,
)
    requires
        s0.wf(),
        sa.wf(),
        dense(s0),
        forall|j: int| 0 <= j < p0.len() ==> #[trigger] p0[j] < s0.spec_len(),
        strictly_sorted_usize(g),
        g.to_set() == p0.to_set(),
        g.len() > 0,
        bulk_remove_result(s0, sa, g, res, sg, pm, rp, ms),
        res is Ok,
    ensures
        sa.ids().spec_len() == s0.spec_len() - g.len(),
{
    let len = s0.spec_len();
    let ov = s0.ids().pages_view();
    let rpp = s0.ids().spec_rows_per_page() as nat;
    lemma_sorted_same(sg, g);
    lemma_index_set_is(p0, g);
    lemma_index_set_is(g, g);
    assert(rp is Ok);
    crate::pool::packed::lemma_flat_len(ov, rpp, len);
    s0.ids().lemma_rows();
    s0.ids().lemma_len_fits();
    assert forall|j: int| 0 <= j < g.len() implies #[trigger] g[j] < crate::pool::packed::flat(ov).len() by {
        assert(g.to_set().contains(g[j]));
        assert(p0.to_set().contains(g[j]));
    }
    lemma_moves_by_length(crate::pool::packed::flat(ov), g);
    crate::pool::paged_pool::law_bulk_removal_on_rows(ov, rpp, len, g);
    sa.ids().lemma_rows();
    crate::pool::packed::lemma_flat_len(sa.ids().pages_view(), rpp, sa.ids().spec_len());
}

/// Row `t` of storage `k` is the destination of a move when the rows
/// `u` (ascending, each once) are freed from its `len` rows.
pub open spec fn moved_into(len: nat, u: Seq<usize>, t: int) -> bool {
    exists|q: int| 0 <= q < bulk_row_moves(len, u).len() && #[trigger] bulk_row_moves(len, u)[q].1 == t
}

/// The entity in row `t` of storage `k` of `w` has a location whose row
/// in that storage records it.
pub open spec fn recorded_at(w: World, k: int, t: int) -> bool {
    &&& w.stores()[k].ids().slot(t) matches Some(x)
    &&& (x as int) < w.locs().len()
    &&& w.locs()[x as int] matches Some(l)
    &&& id_row_records(w.stores()[k], l.row as int, x as int)
}

/// The entity in row `t` of storage `k` of `w` has a location whose row
/// records it in some storage.
pub open spec fn recorded_somewhere(w: World, k: int, t: int) -> bool {
    &&& w.stores()[k].ids().slot(t) matches Some(x)
    &&& (x as int) < w.locs().len()
    &&& w.locs()[x as int] matches Some(l)
    &&& exists|c: int| 0 <= c < w.stores().len() && #[trigger] id_row_records(w.stores()[c], l.row as int, x as int)
}

/// Some move of `moves` has destination `t`.
pub open spec fn target_in(moves: Seq<(usize, usize)>, t: int) -> bool {
    exists|p: int| 0 <= p < moves.len() && #[trigger] moves[p].1 == t
}

/// Every destination of `mv` is the destination of a move in `moves`.
pub open spec fn covers_targets(moves: Seq<(usize, usize)>, mv: Seq<(usize, usize)>) -> bool {
    forall|q: int| 0 <= q < mv.len() ==> #[trigger] target_in(moves, mv[q].1 as int)
}

/// Removing the waiting rows of a dense storage whose waiting rows lie
/// inside it reports, when it succeeds, a move into every destination of
/// the swap-removal.
proof fn lemma_targets_reported(
    s0: ArchetypeStorage,
    sa: ArchetypeStorage,
    p0: Seq<usize>,
    g: Seq<usize>,
    res: Result<Vec<(usize, usize)>, StorageError>,
    sg: Seq<usize>,
    pm: Seq<(usize, usize)>,
    rp: Result<(), crate::pool::PoolError>,
    ms: Seq<Seq<(usize, usize)>>,
)
    requires
        s0.wf(),
        dense(s0),
        forall|j: int| 0 <= j < p0.len() ==> #[trigger] p0[j] < s0.spec_len(),
        strictly_sorted_usize(g),
        g.to_set() == p0.to_set(),
        g.len() > 0,
        bulk_remove_result(s0, sa, g, res, sg, pm, rp, ms),
        res is Ok,
    ensures
        covers_targets(res->Ok_0@, bulk_row_moves(s0.spec_len(), index_set(p0))),
{
    let len = s0.spec_len();
    let ov = s0.ids().pages_view();
    let rpp = s0.ids().spec_rows_per_page() as nat;
    lemma_sorted_same(sg, g);
    lemma_index_set_is(p0, g);
    assert(rp is Ok);
    crate::pool::packed::lemma_flat_len(ov, rpp, len);
    s0.ids().lemma_rows();
    s0.ids().lemma_len_fits();
    assert forall|j: int| 0 <= j < g.len() implies #[trigger] g[j] < crate::pool::packed::flat(ov).len() by {
        assert(g.to_set().contains(g[j]));
        assert(p0.to_set().contains(g[j]));
        let q = choose|q: int| 0 <= q < p0.len() && p0[q] == g[j];
        assert(p0[q] < len);
    }
    assert(crate::pool::packed::flat(ov).len() <= usize::MAX);
    lemma_moves_by_length(crate::pool::packed::flat(ov), g);
    let mv = bulk_row_moves(len, g);
    assert(pm == Seq::<(usize, usize)>::empty() + crate::pool::page::bulk_moves(crate::pool::packed::flat(ov), sg));
    assert(pm =~= mv);
    let all = pm + crate::ecs::storage::archetype_storage::concat_all(ms);
    assert forall|q: int| 0 <= q < mv.len() implies #[trigger] target_in(res->Ok_0@, mv[q].1 as int) by {
        assert(all[q] == mv[q]);
        assert(all.to_set().contains(mv[q]));
        assert(res->Ok_0@.to_set().contains(mv[q]));
        let p = choose|p: int| 0 <= p < res->Ok_0@.len() && res->Ok_0@[p] == mv[q];
        assert(res->Ok_0@[p].1 == mv[q].1);
    }
    assert(covers_targets(res->Ok_0@, mv));
    assert(index_set(p0) == g);
}

/// A sorted list with the same items as a strictly sorted one is that list.
proof fn lemma_sorted_same(a: Seq<usize>, b: Seq<usize>)
    requires
        sorted_usize(a),
        strictly_sorted_usize(b),
        a.to_multiset() == b.to_multiset(),
    ensures
        a == b,
{
    let leq = |x: usize, y: usize| x <= y;
    assert(vstd::relations::sorted_by(a, leq));
    assert(vstd::relations::sorted_by(b, leq));
    vstd::seq_lib::lemma_sorted_unique(a, b, leq);
}

/// Row `row` of storage `st`'s id pool exists and records slot `i`.
pub open spec fn id_row_records(st: ArchetypeStorage, row: int, i: int) -> bool {
    0 <= row < st.ids().spec_len() && st.ids().slot(row) == Some(i as u32)
}

/// Row `row` of the id pool `ids` of the storage of archetype `a` records
/// an entity that is located at that row, or the row waits in `pend`.
pub open spec fn row_accounted(
    ids: crate::pool::paged_pool::PagedPool<EntityId>,
    pend: Seq<usize>,
    a: ArchetypeId,
    locs: Seq<Option<SlotLocation>>,
    row: int,
) -> bool {
    &&& ids.slot(row) matches Some(x)
    &&& (x as int) < locs.len()
    &&& ((locs[x as int] matches Some(l) && l.archetype == a && l.row as int == row) || waits(pend, row))
}

/// Row `row` is among the rows `pend`.
pub open spec fn waits(pend: Seq<usize>, row: int) -> bool {
    exists|q: int| 0 <= q < pend.len() && #[trigger] pend[q] as int == row
}

/// The entity recorded at waiting row `row` is not located and not free.
pub open spec fn pending_dead(
    ids: crate::pool::paged_pool::PagedPool<EntityId>,
    locs: Seq<Option<SlotLocation>>,
    free: Seq<EntityId>,
    row: int,
) -> bool {
    &&& ids.slot(row) matches Some(x)
    &&& (x as int) < locs.len()
    &&& locs[x as int] is None
    &&& !free.contains(x)
}

/// Number of slots of `locs` that hold a live entity.
pub open spec fn live_slots(locs: Seq<Option<SlotLocation>>) -> nat
    decreases locs.len(),
{
    if locs.len() == 0 {
        0
    } else {
        live_slots(locs.drop_last()) + if locs.last() is Some { 1nat } else { 0nat }
    }
}

/// Changing one slot changes the live count by what the slot held and holds.
proof fn lemma_live_slots_update(locs: Seq<Option<SlotLocation>>, i: int, v: Option<SlotLocation>)
    requires
        0 <= i < locs.len(),
    ensures
        live_slots(locs.update(i, v)) + (if locs[i] is Some { 1int } else { 0int }) == live_slots(locs) + (if v is Some {
            1int
        } else {
            0int
        }),
    decreases locs.len(),
{
    let u = locs.update(i, v);
    if i < locs.len() - 1 {
        assert(u.drop_last() =~= locs.drop_last().update(i, v));
        assert(u.last() == locs.last());
        lemma_live_slots_update(locs.drop_last(), i, v);
    } else {
        assert(u.drop_last() =~= locs.drop_last());
    }
}

proof fn lemma_live_slots_same(a: Seq<Option<SlotLocation>>, b: Seq<Option<SlotLocation>>)
    requires
        a.len() == b.len(),
        forall|i: int| 0 <= i < a.len() ==> (#[trigger] a[i] is Some) == (b[i] is Some),
    ensures
        live_slots(a) == live_slots(b),
    decreases a.len(),
{
    if a.len() > 0 {
        assert forall|i: int| 0 <= i < a.drop_last().len() implies (#[trigger] a.drop_last()[i] is Some) == (b.drop_last()[i] is Some) by {
            assert(a.drop_last()[i] == a[i] && b.drop_last()[i] == b[i]);
        }
        lemma_live_slots_same(a.drop_last(), b.drop_last());
        assert(a.last() == a[a.len() - 1] && b.last() == b[b.len() - 1]);
    }
}

/// The rows moved in the storages flushed so far keep recording located
/// entities when one more storage is flushed.
proof fn lemma_records_step(o: World, cur: World, f: World, k: int)
    requires
        0 <= k < o.stores().len(),
        cur.stores().len() == o.stores().len(),
        f.stores().len() == o.stores().len(),
        cur.stores()[k] == o.stores()[k],
        cur.pendings()[k] == o.pendings()[k],
        forall|j: int| 0 <= j < k ==> #[trigger] f.stores()[j] == cur.stores()[j],
        f.locs().len() == cur.locs().len(),
        forall|j: int, t: int|
            0 <= j < k && #[trigger] moved_into(o.stores()[j].spec_len(), index_set(o.pendings()[j]), t) ==> {
                &&& cur.stores()[j].ids().slot(t) matches Some(x)
                &&& (x as int) < cur.locs().len()
                &&& cur.locs()[x as int] matches Some(l)
                &&& exists|c: int| 0 <= c < k && #[trigger] id_row_records(cur.stores()[c], l.row as int, x as int)
            },
        forall|i: int|
            0 <= i < f.locs().len() && #[trigger] f.locs()[i] != cur.locs()[i] ==> (f.locs()[i] matches Some(l)
                && id_row_records(f.stores()[k], l.row as int, i)),
        forall|t: int| #[trigger] moved_into(o.stores()[k].spec_len(), index_set(o.pendings()[k]), t) ==> recorded_at(f, k, t),
    ensures
        forall|j: int, t: int|
            0 <= j < k + 1 && #[trigger] moved_into(o.stores()[j].spec_len(), index_set(o.pendings()[j]), t) ==> {
                &&& f.stores()[j].ids().slot(t) matches Some(x)
                &&& (x as int) < f.locs().len()
                &&& f.locs()[x as int] matches Some(l)
                &&& exists|c: int| 0 <= c < k + 1 && #[trigger] id_row_records(f.stores()[c], l.row as int, x as int)
            },
{
    assert forall|j: int, t: int|
        0 <= j < k + 1 && #[trigger] moved_into(o.stores()[j].spec_len(), index_set(o.pendings()[j]), t) implies {
            &&& f.stores()[j].ids().slot(t) matches Some(x)
            &&& (x as int) < f.locs().len()
            &&& f.locs()[x as int] matches Some(l)
            &&& exists|c: int| 0 <= c < k + 1 && #[trigger] id_row_records(f.stores()[c], l.row as int, x as int)
        } by {
        if j == k {
            assert(recorded_at(f, k, t));
            let x = f.stores()[j].ids().slot(t)->Some_0;
            let l = f.locs()[x as int]->Some_0;
            assert(id_row_records(f.stores()[k], l.row as int, x as int));
        } else {
            assert(f.stores()[j] == cur.stores()[j]);
            let x = cur.stores()[j].ids().slot(t)->Some_0;
            let l0 = cur.locs()[x as int]->Some_0;
            let c0 = choose|c: int| 0 <= c < k && #[trigger] id_row_records(cur.stores()[c], l0.row as int, x as int);
            if f.locs()[x as int] != cur.locs()[x as int] {
                let l = f.locs()[x as int]->Some_0;
                assert(id_row_records(f.stores()[k], l.row as int, x as int));
            } else {
                assert(f.stores()[c0] == cur.stores()[c0]);
                assert(id_row_records(f.stores()[c0], l0.row as int, x as int));
            }
        }
    }
}

/// What flushing storage `k` of the consistent world `o` gave `f`, as far
/// as the flush itself states it.
pub open spec fn flushed_one(o: World, f: World, k: int) -> bool {
    &&& o.wf()
    &&& f.wf()
    &&& o.consistent()
    &&& 0 <= k < o.stores().len()
    &&& flush_frame(f, o, k)
    &&& locations_kept(o.locs(), f.locs())
    &&& f.pendings()[k].len() == 0
    &&& f.free() == o.free() + victims_of(o.stores()[k], o.pendings()[k])
    &&& f.gens().len() == o.gens().len()
    &&& forall|i: int|
        0 <= i < f.locs().len() && #[trigger] f.locs()[i] != o.locs()[i] ==> (f.locs()[i] matches Some(l) && id_row_records(
            f.stores()[k],
            l.row as int,
            i,
        ) && i <= u32::MAX)
    &&& rows_freed(o.stores()[k], f.stores()[k], index_set(o.pendings()[k]))
    &&& strictly_sorted_usize(index_set(o.pendings()[k]))
    &&& index_set(o.pendings()[k]).to_set() == o.pendings()[k].to_set()
    &&& forall|t: int| #[trigger] moved_into(o.stores()[k].spec_len(), index_set(o.pendings()[k]), t) ==> recorded_at(f, k, t)
}

/// Row `r` of storage `k` of `o` records `x` and does not wait for removal.
pub open spec fn survivor_of(o: World, k: int, r: int, x: EntityId) -> bool {
    &&& 0 <= r < o.stores()[k].spec_len()
    &&& !waits(o.pendings()[k], r)
    &&& o.stores()[k].ids().slot(r) == Some(x)
}

/// The rows of the flushed storage: they hold the entities of the rows
/// that did not wait, each once, and each such entity is located at its
/// row; every location that changed was in the flushed storage.
proof fn lemma_flushed_store(o: World, f: World, k: int)
    requires
        flushed_one(o, f, k),
    ensures
        f.stores()[k].spec_len() == o.stores()[k].spec_len() - index_set(o.pendings()[k]).len(),
        dense(f.stores()[k]),
        forall|t: int| 0 <= t < f.stores()[k].spec_len() ==> (#[trigger] f.stores()[k].ids().slot(t) matches Some(x) && exists|r: int|
            #[trigger] survivor_of(o, k, r, x)),
        forall|t1: int, t2: int| 0 <= t1 < f.stores()[k].spec_len() && 0 <= t2 < f.stores()[k].spec_len() && t1 != t2
            ==> #[trigger] f.stores()[k].ids().slot(t1) != #[trigger] f.stores()[k].ids().slot(t2),
        forall|r: int, x: EntityId| #[trigger] survivor_of(o, k, r, x) ==> {
            &&& (x as int) < f.locs().len()
            &&& f.locs()[x as int] matches Some(l)
            &&& l.archetype == o.arch_ids()[k]
            &&& (l.row as int) < f.stores()[k].spec_len()
            &&& f.stores()[k].ids().slot(l.row as int) == Some(x)
        },
        forall|i: int| 0 <= i < f.locs().len() && #[trigger] f.locs()[i] != o.locs()[i] ==> (o.locs()[i] matches Some(l0)
            && l0.archetype == o.arch_ids()[k]),
{
    let s0 = o.stores()[k];
    let sa = f.stores()[k];
    let p0 = o.pendings()[k];
    let g = index_set(p0);
    let ak = o.arch_ids()[k];
    let rpp = s0.ids().spec_rows_per_page() as nat;
    let ov = s0.ids().pages_view();
    assert(s0.wf());
    assert(dense(s0));
    s0.ids().lemma_rows();
    s0.ids().lemma_len_fits();
    crate::pool::packed::lemma_flat_len(ov, rpp, s0.spec_len());
    let fr = s0.ids().rows();
    assert(fr.len() == s0.spec_len());
    assert forall|j: int| 0 <= j < g.len() implies #[trigger] g[j] < fr.len() by {
        assert(g.to_set().contains(g[j]));
        assert(p0.to_set().contains(g[j]));
        let q = choose|q: int| 0 <= q < p0.len() && p0[q] == g[j];
        assert(p0[q] < s0.spec_len());
    }
    assert(crate::pool::swap_removal::removable(fr, g));
    // which rows wait
    assert forall|r: int| 0 <= r < fr.len() implies (g.contains(r as usize) <==> #[trigger] waits(p0, r)) by {
        if g.contains(r as usize) {
            assert(g.to_set().contains(r as usize));
            assert(p0.to_set().contains(r as usize));
            let q = choose|q: int| 0 <= q < p0.len() && p0[q] == r as usize;
            assert(p0[q] as int == r);
        }
        if waits(p0, r) {
            let q = choose|q: int| 0 <= q < p0.len() && #[trigger] p0[q] as int == r;
            assert(p0.to_set().contains(r as usize));
            assert(g.to_set().contains(r as usize));
        }
    }
    // the rows left
    crate::pool::swap_removal::lemma_kept_rows(fr, g);
    let fr2 = crate::pool::page::bulk_remove(fr, g);
    assert(sa.wf());
    sa.ids().lemma_rows();
    if g.len() == 0 {
        assert(sa == s0);
        assert(fr2 == fr);
    } else {
        crate::pool::paged_pool::law_bulk_removal_on_rows(ov, rpp, s0.spec_len(), g);
        assert(sa.ids().rows() == fr2);
    }
    assert(sa.ids().rows() == fr2);
    assert(sa.spec_len() == sa.ids().spec_len()) by {
        if g.len() > 0 {
        }
    }
    let n2 = sa.spec_len();
    assert(n2 == fr.len() - g.len());
    // dense
    lemma_index_set_is(g, g);
    assert forall|i: int| 0 <= i < sa.cols().len() implies (#[trigger] sa.cols()[i]).spec_len() == sa.spec_len() by {
        if g.len() > 0 {
            assert(crate::ecs::storage::archetype_storage::col_bulk_removed(
                s0.cols()[i],
                sa.cols()[i],
                g,
                bulk_row_moves(s0.cols()[i].spec_len(), index_set(g)).reverse(),
            ));
            assert(s0.cols()[i].spec_len() == s0.spec_len());
        }
    }
    assert(dense(sa));
    // survivors are distinct
    assert forall|a: int, b: int| 0 <= a < fr.len() && 0 <= b < fr.len() && a != b && !g.contains(a as usize) && !g.contains(
        b as usize,
    ) implies #[trigger] fr[a] != #[trigger] fr[b] by {
        assert(!waits(p0, a) && !waits(p0, b));
        assert(row_accounted(s0.ids(), p0, ak, o.locs(), a));
        assert(row_accounted(s0.ids(), p0, ak, o.locs(), b));
        assert(s0.ids().slot(a) == fr[a] && s0.ids().slot(b) == fr[b]);
    }
    crate::pool::swap_removal::lemma_kept_distinct(fr, g);
    // every row left comes from a survivor
    assert forall|t: int| 0 <= t < n2 implies (#[trigger] sa.ids().slot(t) matches Some(x) && exists|r: int|
        #[trigger] survivor_of(o, k, r, x)) by {
        crate::pool::swap_removal::lemma_rows_from_kept(fr, g, t);
        let r = choose|r: int| 0 <= r < fr.len() && !g.contains(r as usize) && #[trigger] fr[r] == fr2[t];
        assert(sa.ids().slot(t) == fr2[t]);
        assert(row_accounted(s0.ids(), p0, ak, o.locs(), r));
        assert(s0.ids().slot(r) == fr[r]);
        let x = fr[r]->Some_0;
        assert(survivor_of(o, k, r, x));
    }
    assert forall|t1: int, t2: int| 0 <= t1 < n2 && 0 <= t2 < n2 && t1 != t2 implies #[trigger] sa.ids().slot(t1)
        != #[trigger] sa.ids().slot(t2) by {
        assert(sa.ids().slot(t1) == fr2[t1] && sa.ids().slot(t2) == fr2[t2]);
    }
    // changed locations were in this storage
    assert forall|i: int| 0 <= i < f.locs().len() && #[trigger] f.locs()[i] != o.locs()[i] implies (o.locs()[i] matches Some(l0)
        && l0.archetype == ak) by {
        let l = f.locs()[i]->Some_0;
        assert(id_row_records(sa, l.row as int, i));
        let t = l.row as int;
        let x = sa.ids().slot(t)->Some_0;
        let r = choose|r: int| #[trigger] survivor_of(o, k, r, x);
        assert(row_accounted(s0.ids(), p0, ak, o.locs(), r));
        assert(x as int == i);
    }
    // where survivors are located
    assert forall|r: int, x: EntityId| #[trigger] survivor_of(o, k, r, x) implies {
        &&& (x as int) < f.locs().len()
        &&& f.locs()[x as int] matches Some(l)
        &&& l.archetype == ak
        &&& (l.row as int) < n2
        &&& sa.ids().slot(l.row as int) == Some(x)
    } by {
        assert(row_accounted(s0.ids(), p0, ak, o.locs(), r));
        assert(s0.ids().slot(r) == fr[r]);
        let xi = x as int;
        assert(o.locs()[xi] matches Some(l0) && l0.archetype == ak && l0.row as int == r);
        assert(f.locs().len() == o.locs().len());
        assert(f.locs()[xi] is Some);
        if f.locs()[xi] != o.locs()[xi] {
            let l = f.locs()[xi]->Some_0;
            assert(id_row_records(sa, l.row as int, xi));
        } else if r < n2 {
            assert(!g.contains(r as usize));
            assert(fr2[r] == fr[r]);
            assert(sa.ids().slot(r) == fr2[r]);
        } else {
            assert(!g.contains(r as usize));
            crate::pool::swap_removal::lemma_moved_rows(fr, g, r);
            let t = choose|t: int| 0 <= t < fr.len() - g.len() && g.contains(t as usize) && #[trigger] fr2[t] == fr[r];
            crate::pool::swap_removal::lemma_removed_rows_are_targets(fr.len(), g, t);
            assert(moved_into(s0.spec_len(), g, t));
            assert(recorded_at(f, k, t));
            assert(sa.ids().slot(t) == fr2[t]);
            let l = f.locs()[xi]->Some_0;
            assert(id_row_records(sa, l.row as int, xi));
            assert(false);
        }
    }
}

/// Flushing one storage of a consistent world leaves it consistent.
proof fn lemma_flush_keeps_consistent(o: World, f: World, k: int)
    requires
        flushed_one(o, f, k),
    ensures
        f.consistent(),
{
    lemma_flushed_store(o, f, k);
    let s0 = o.stores()[k];
    let sa = f.stores()[k];
    let p0 = o.pendings()[k];
    let g = index_set(p0);
    let ak = o.arch_ids()[k];
    let v = victims_of(s0, p0);
    let n2 = sa.spec_len();
    assert(f.arch_ids() == o.arch_ids());
    assert(f.stores().len() == o.stores().len());
    assert(f.pendings().len() == o.pendings().len());
    assert(f.locs().len() == o.locs().len());
    assert forall|j: int| 0 <= j < o.stores().len() && j != k implies #[trigger] f.stores()[j] == o.stores()[j]
        && f.pendings()[j] == o.pendings()[j] by {}
    // unchanged locations outside this storage; Some-ness is kept
    assert forall|i: int| 0 <= i < f.locs().len() implies (#[trigger] f.locs()[i] is Some) == (o.locs()[i] is Some) by {
        if o.locs()[i] is Some {
        } else if f.locs()[i] != o.locs()[i] {
        }
    }
    // the victims: each a waiting row's entity, not located, not free
    assert forall|a: int| 0 <= a < v.len() implies {
        &&& (#[trigger] v[a] as int) < o.locs().len()
        &&& o.locs()[v[a] as int] is None
        &&& !o.free().contains(v[a])
        &&& exists|j: int| 0 <= j < p0.len() && p0[j] == g[a] && s0.ids().slot(p0[j] as int) == Some(v[a])
    } by {
        assert(g.to_set().contains(g[a]));
        assert(p0.to_set().contains(g[a]));
        let j = choose|j: int| 0 <= j < p0.len() && p0[j] == g[a];
        assert(pending_dead(s0.ids(), o.locs(), o.free(), p0[j] as int));
    }
    // dense, bounds, rows
    assert forall|c: int| 0 <= c < f.stores().len() implies dense(#[trigger] f.stores()[c]) by {
        if c != k {
            assert(dense(o.stores()[c]));
        }
    }
    assert forall|c: int, j: int| 0 <= c < f.pendings().len() && 0 <= j < f.pendings()[c].len() implies (#[trigger] f.pendings()[c][j])
        < f.stores()[c].spec_len() by {
        assert(c != k);
        assert(f.stores()[c] == o.stores()[c]);
        assert(f.pendings()[c] == o.pendings()[c]);
        assert(o.pendings()[c][j] < o.stores()[c].spec_len());
    }
    assert forall|c: int, row: int| 0 <= c < f.stores().len() && 0 <= row < f.stores()[c].spec_len() implies (#[trigger] f.stores()[
        c
    ].ids().slot(row) matches Some(i) && i < f.gens().len()) by {
        if c != k {
            assert(o.stores()[c].ids().slot(row) matches Some(i) && i < o.gens().len());
        } else {
            let x = sa.ids().slot(row)->Some_0;
            let r = choose|r: int| #[trigger] survivor_of(o, k, r, x);
            assert(o.stores()[k].ids().slot(r) matches Some(i) && i < o.gens().len());
        }
    }
    // locations record their rows
    assert forall|i: int| 0 <= i < f.locs().len() && (#[trigger] f.locs()[i]) is Some implies {
        let l = f.locs()[i]->Some_0;
        World::row_holds(f.stores()[position_of(f.arch_ids(), l.archetype)->Some_0], l.row as int, i)
    } by {
        let l = f.locs()[i]->Some_0;
        let l0 = o.locs()[i]->Some_0;
        assert(l.archetype == l0.archetype);
        assert(o.arch_ids().contains(l0.archetype));
        let c0 = choose|c: int| 0 <= c < o.arch_ids().len() && o.arch_ids()[c] == l0.archetype;
        lemma_position_of(o.arch_ids(), c0);
        assert(World::row_holds(o.stores()[c0], l0.row as int, i));
        if f.locs()[i] != o.locs()[i] {
            assert(c0 == k);
            assert(id_row_records(sa, l.row as int, i));
        } else if c0 != k {
            assert(f.stores()[c0] == o.stores()[c0]);
        } else {
            let x = s0.ids().slot(l0.row as int)->Some_0;
            assert(x as int == i);
            assert(row_accounted(s0.ids(), p0, ak, o.locs(), l0.row as int));
            assert(!waits(p0, l0.row as int)) by {
                if waits(p0, l0.row as int) {
                    let q = choose|q: int| 0 <= q < p0.len() && #[trigger] p0[q] as int == l0.row as int;
                    assert(pending_dead(s0.ids(), o.locs(), o.free(), p0[q] as int));
                }
            }
            assert(survivor_of(o, k, l0.row as int, x));
        }
    }
    // live count
    lemma_live_slots_same(o.locs(), f.locs());
    // free list
    assert(f.free().no_duplicates()) by {
        assert forall|a: int, b: int| 0 <= a < b < f.free().len() implies f.free()[a] != f.free()[b] by {
            let m = o.free().len() as int;
            if b < m {
                assert(f.free()[a] == o.free()[a] && f.free()[b] == o.free()[b]);
            } else if a < m {
                assert(f.free()[a] == o.free()[a] && f.free()[b] == v[b - m]);
                assert(!o.free().contains(v[b - m]));
            } else {
                assert(f.free()[a] == v[a - m] && f.free()[b] == v[b - m]);
                let ja = choose|j: int| 0 <= j < p0.len() && p0[j] == g[a - m] && s0.ids().slot(p0[j] as int) == Some(v[a - m]);
                let jb = choose|j: int| 0 <= j < p0.len() && p0[j] == g[b - m] && s0.ids().slot(p0[j] as int) == Some(v[b - m]);
                if v[a - m] == v[b - m] {
                    assert(s0.ids().slot(p0[ja] as int) == s0.ids().slot(p0[jb] as int));
                    assert(p0[ja] == p0[jb]);
                    assert(g[a - m] < g[b - m]);
                }
            }
        }
    }
    assert forall|j: int| 0 <= j < f.free().len() implies (#[trigger] f.locs()[f.free()[j] as int]) is None by {
        let m = o.free().len() as int;
        if j < m {
            assert(f.free()[j] == o.free()[j]);
            assert(o.locs()[o.free()[j] as int] is None);
        } else {
            assert(f.free()[j] == v[j - m]);
        }
    }
    // accounted rows
    assert forall|c: int, row: int| 0 <= c < f.stores().len() && 0 <= row < f.stores()[c].spec_len() implies #[trigger] row_accounted(
        f.stores()[c].ids(),
        f.pendings()[c],
        f.arch_ids()[c],
        f.locs(),
        row,
    ) by {
        if c != k {
            assert(row_accounted(o.stores()[c].ids(), o.pendings()[c], o.arch_ids()[c], o.locs(), row));
            let x = o.stores()[c].ids().slot(row)->Some_0;
            if !waits(o.pendings()[c], row) {
                if f.locs()[x as int] != o.locs()[x as int] {
                    assert(o.arch_ids()[c] == ak);
                    assert(false);
                }
            }
        } else {
            let x = sa.ids().slot(row)->Some_0;
            let r = choose|r: int| #[trigger] survivor_of(o, k, r, x);
            let l = f.locs()[x as int]->Some_0;
            assert(sa.ids().slot(l.row as int) == Some(x));
            assert(l.row as int == row);
        }
    }
    assert forall|c: int, j: int| 0 <= c < f.pendings().len() && 0 <= j < f.pendings()[c].len() implies #[trigger] pending_dead(
        f.stores()[c].ids(),
        f.locs(),
        f.free(),
        f.pendings()[c][j] as int,
    ) by {
        assert(c != k);
        assert(f.stores()[c] == o.stores()[c]);
        assert(f.pendings()[c] == o.pendings()[c]);
        assert(pending_dead(o.stores()[c].ids(), o.locs(), o.free(), o.pendings()[c][j] as int));
        let x = o.stores()[c].ids().slot(o.pendings()[c][j] as int)->Some_0;
        assert(f.locs()[x as int] == o.locs()[x as int]);
        assert(!f.free().contains(x)) by {
            if f.free().contains(x) {
                let q = choose|q: int| 0 <= q < f.free().len() && f.free()[q] == x;
                let m = o.free().len() as int;
                if q < m {
                    assert(o.free()[q] == x);
                } else {
                    let a = q - m;
                    assert(f.free()[q] == v[a]);
                    let ja = choose|jj: int| 0 <= jj < p0.len() && p0[jj] == g[a] && s0.ids().slot(p0[jj] as int) == Some(v[a]);
                    assert(o.stores()[c].ids().slot(o.pendings()[c][j] as int) == o.stores()[k].ids().slot(o.pendings()[k][ja] as int));
                }
            }
        }
    }
    assert forall|k1: int, j1: int, k2: int, j2: int|
        0 <= k1 < f.pendings().len() && 0 <= j1 < f.pendings()[k1].len() && 0 <= k2 < f.pendings().len() && 0 <= j2
            < f.pendings()[k2].len() && #[trigger] f.stores()[k1].ids().slot(f.pendings()[k1][j1] as int)
            == #[trigger] f.stores()[k2].ids().slot(f.pendings()[k2][j2] as int) implies k1 == k2 && f.pendings()[k1][j1]
        == f.pendings()[k2][j2] by {
        assert(k1 != k && k2 != k);
        assert(o.stores()[k1].ids().slot(o.pendings()[k1][j1] as int) == o.stores()[k2].ids().slot(o.pendings()[k2][j2] as int));
    }
}

/// Storages `k` to `n` of `w` and their waiting rows are those of `o`.
pub open spec fn untouched(w: World, o: World, k: int, n: int) -> bool {
    forall|j: int| k <= j < n ==> #[trigger] w.stores()[j] == o.stores()[j] && w.pendings()[j] == o.pendings()[j]
}

/// Storage `s` has, for each component of `comps` in order, an empty
/// column of that component as wide as `reg` records it.
pub open spec fn fresh_columns(s: ArchetypeStorage, reg: Seq<ComponentMeta>, comps: Seq<ComponentId>) -> bool {
    &&& s.cols().len() == comps.len()
    &&& forall|i: int| 0 <= i < comps.len() ==> {
        &&& (#[trigger] s.cols()[i]).spec_plan().component_id == comps[i]
        &&& s.cols()[i].spec_stride() == reg[comps[i] as int].stride
        &&& s.cols()[i].spec_len() == 0
    }
}

/// Storage `s` is dense: its id pool has no gaps and holds as many rows as
/// every column.
pub open spec fn dense(s: ArchetypeStorage) -> bool {
    &&& packed(s.ids().pages_view(), s.ids().spec_rows_per_page() as nat, s.spec_len())
    &&& forall|i: int| 0 <= i < s.cols().len() ==> (#[trigger] s.cols()[i]).spec_len() == s.spec_len()
}

/// Storage `s` takes the components `entries`: each has a column there,
/// whose rows are as wide as its bytes.
pub open spec fn storage_accepts(s: ArchetypeStorage, entries: Seq<ComponentBytes>) -> bool {
    forall|j: int| 0 <= j < entries.len() ==> {
        &&& column_index(s.cols(), (#[trigger] entries[j]).spec_component_id()) is Some
        &&& entries[j].spec_bytes().len() == s.cols()[column_index(s.cols(), entries[j].spec_component_id())->Some_0].spec_stride()
    }
}

/// A storage that a spawn writes into without failing: dense, and taking
/// every component of the entity.
pub open spec fn spawn_ready(s: ArchetypeStorage, entries: Seq<ComponentBytes>) -> bool {
    dense(s) && storage_accepts(s, entries)
}

/// After a spawn of entity `e` with component bytes `entries`, the slot of
/// `e` names a row of its archetype's storage that is allocated, records
/// the slot, and holds, in the column of each component, that component's
/// bytes in the buffer that is read.
pub open spec fn spawned_row(w: World, e: Entity, entries: Seq<ComponentBytes>) -> bool {
    let idx = bits_index(e.0) as int;
    &&& w.locs()[idx] is Some
    &&& position_of(w.arch_ids(), w.locs()[idx]->Some_0.archetype) is Some
    &&& ({
        let l = w.locs()[idx]->Some_0;
        let st = w.stores()[position_of(w.arch_ids(), l.archetype)->Some_0];
        &&& st.ids().allocated(l.row as int)
        &&& st.ids().slot(l.row as int) == Some(idx as u32)
        &&& forall|j: int| 0 <= j < entries.len() ==> {
            &&& column_index(st.cols(), (#[trigger] entries[j]).spec_component_id()) is Some
            &&& st.cols()[column_index(st.cols(), entries[j].spec_component_id())->Some_0].cur_row(l.row as int)
                == entries[j].spec_bytes()
        }
    })
}

proof fn lemma_column_index_same(a: Seq<ComponentColumn>, b: Seq<ComponentColumn>, cid: ComponentId)
    requires
        a.len() == b.len(),
        forall|i: int| 0 <= i < a.len() ==> (#[trigger] a[i]).spec_plan().component_id == b[i].spec_plan().component_id,
    ensures
        column_index(a, cid) == column_index(b, cid),
    decreases a.len(),
{
    if a.len() > 0 {
        assert(a.last().spec_plan().component_id == b.last().spec_plan().component_id);
        assert forall|i: int| 0 <= i < a.drop_last().len() implies (#[trigger] a.drop_last()[i]).spec_plan().component_id
            == b.drop_last()[i].spec_plan().component_id by {
            assert(a.drop_last()[i] == a[i]);
            assert(b.drop_last()[i] == b[i]);
        }
        lemma_column_index_same(a.drop_last(), b.drop_last(), cid);
    }
}

proof fn lemma_column_index_sorted(cols: Seq<ComponentColumn>, comps: Seq<ComponentId>, j: int)
    requires
        cols.len() == comps.len(),
        forall|i: int| 0 <= i < comps.len() ==> (#[trigger] cols[i]).spec_plan().component_id == comps[i],
        strictly_sorted(comps),
        0 <= j < comps.len(),
    ensures
        column_index(cols, comps[j]) == Some(j),
    decreases cols.len(),
{
    let n = cols.len() - 1;
    assert(cols[n].spec_plan().component_id == comps[n]);
    if j < n {
        assert(comps[j] < comps[n]);
        let c2 = comps.drop_last();
        assert forall|i: int| 0 <= i < c2.len() implies (#[trigger] cols.drop_last()[i]).spec_plan().component_id == c2[i] by {
            assert(cols.drop_last()[i] == cols[i]);
        }
        assert(strictly_sorted(c2));
        lemma_column_index_sorted(cols.drop_last(), c2, j);
    }
}

proof fn lemma_first_error_none(metas: Seq<ComponentMeta>, cs: Seq<ComponentBytes>, j: int)
    requires
        first_error(metas, cs) is None,
        0 <= j < cs.len(),
    ensures
        component_error(metas, cs[j]) is None,
    decreases cs.len(),
{
    if j < cs.len() - 1 {
        assert(cs.drop_last()[j] == cs[j]);
        lemma_first_error_none(metas, cs.drop_last(), j);
    }
}

/// Entities, archetype storages and systems.
pub struct World {
    page_budget: PageBudget,
    storages: Vec<(ArchetypeId, ArchetypeEntry)>,
    component_index: Vec<(ComponentId, Vec<ArchetypeId>)>,
    systems: SystemRegistry,
    slots: Vec<EntitySlot>,
    free_list: Vec<EntityId>,
    live_count: usize,
}

impl World {
    /// Generation of each entity slot.
    pub closed spec fn gens(&self) -> Seq<Generation> {
        self.slots@.map_values(|s: EntitySlot| s.generation)
    }

    /// Location of each entity slot; `None` when the slot holds no live
    /// entity.
    pub closed spec fn locs(&self) -> Seq<Option<SlotLocation>> {
        self.slots@.map_values(|s: EntitySlot| s.location)
    }

    /// Slots ready for reuse, the next one last.
    pub closed spec fn free(&self) -> Seq<EntityId> {
        self.free_list@
    }

    pub closed spec fn live(&self) -> usize {
        self.live_count
    }

    pub closed spec fn budget(&self) -> PageBudget {
        self.page_budget
    }

    /// Archetype ids of the storages, in creation order.
    pub closed spec fn arch_ids(&self) -> Seq<ArchetypeId> {
        self.storages@.map_values(|e: (ArchetypeId, ArchetypeEntry)| e.0)
    }

    /// The storages, in creation order.
    pub closed spec fn stores(&self) -> Seq<ArchetypeStorage> {
        self.storages@.map_values(|e: (ArchetypeId, ArchetypeEntry)| e.1.storage)
    }

    /// Rows awaiting removal in each storage.
    pub closed spec fn pendings(&self) -> Seq<Seq<usize>> {
        self.storages@.map_values(|e: (ArchetypeId, ArchetypeEntry)| e.1.pending_despawns@)
    }

    /// For each component, the archetypes holding it.
    pub closed spec fn index_view(&self) -> Seq<(ComponentId, Seq<ArchetypeId>)> {
        self.component_index@.map_values(|e: (ComponentId, Vec<ArchetypeId>)| (e.0, e.1@))
    }

    pub closed spec fn registry(&self) -> SystemRegistry {
        self.systems
    }

    pub open spec fn wf(&self) -> bool {
        &&& self.registry().wf()
        &&& self.budget().l2_bytes > 0
        &&& self.gens().len() == self.locs().len()
        &&& self.stores().len() == self.arch_ids().len()
        &&& self.pendings().len() == self.arch_ids().len()
        &&& self.arch_ids().no_duplicates()
        &&& forall|k: int| 0 <= k < self.stores().len() ==> (#[trigger] self.stores()[k]).wf()
        &&& forall|i: int| 0 <= i < self.locs().len() && (#[trigger] self.locs()[i]) is Some
            ==> self.arch_ids().contains(self.locs()[i]->Some_0.archetype)
        &&& forall|i: int| 0 <= i < self.free().len() ==> ((#[trigger] self.free()[i]) as int) < self.gens().len()
        &&& forall|a: int, b: int| 0 <= a < b < self.index_view().len() ==> (#[trigger] self.index_view()[a]).0
            != (#[trigger] self.index_view()[b]).0
    }

    /// Row `row` of storage `st` exists and records entity slot `i`.
    pub open spec fn row_holds(st: ArchetypeStorage, row: int, i: int) -> bool {
        0 <= row < st.spec_len() && st.ids().slot(row) == Some(i as u32)
    }

    /// Slots and storages agree: every storage is dense and its waiting rows
    /// lie inside it, and the row of every live entity records that
    /// entity's slot.
    pub open spec fn consistent(&self) -> bool {
        &&& forall|k: int| 0 <= k < self.stores().len() ==> dense(#[trigger] self.stores()[k])
        &&& forall|k: int, j: int|
            0 <= k < self.pendings().len() && 0 <= j < self.pendings()[k].len() ==> (#[trigger] self.pendings()[k][j])
                < self.stores()[k].spec_len()
        &&& forall|i: int| 0 <= i < self.locs().len() && (#[trigger] self.locs()[i]) is Some ==> {
            let l = self.locs()[i]->Some_0;
            Self::row_holds(self.stores()[position_of(self.arch_ids(), l.archetype)->Some_0], l.row as int, i)
        }
        &&& forall|k: int, row: int| 0 <= k < self.stores().len() && 0 <= row < self.stores()[k].spec_len()
            ==> (#[trigger] self.stores()[k].ids().slot(row) matches Some(i) && i < self.gens().len())
        &&& self.live() == live_slots(self.locs())
        &&& self.free().no_duplicates()
        &&& forall|j: int| 0 <= j < self.free().len() ==> (#[trigger] self.locs()[self.free()[j] as int]) is None
        &&& self.accounted()
    }

    /// Every row records an entity located there, unless the row waits for
    /// removal; the entities of waiting rows are neither located nor free,
    /// and each waits in one row only.
    pub open spec fn accounted(&self) -> bool {
        &&& self.locs().len() <= 0x1_0000_0000
        &&& forall|k: int, row: int| 0 <= k < self.stores().len() && 0 <= row < self.stores()[k].spec_len() ==> #[trigger] row_accounted(
            self.stores()[k].ids(),
            self.pendings()[k],
            self.arch_ids()[k],
            self.locs(),
            row,
        )
        &&& forall|k: int, j: int| 0 <= k < self.pendings().len() && 0 <= j < self.pendings()[k].len() ==> #[trigger] pending_dead(
            self.stores()[k].ids(),
            self.locs(),
            self.free(),
            self.pendings()[k][j] as int,
        )
        &&& forall|k1: int, j1: int, k2: int, j2: int|
            0 <= k1 < self.pendings().len() && 0 <= j1 < self.pendings()[k1].len() && 0 <= k2 < self.pendings().len() && 0 <= j2
                < self.pendings()[k2].len() && #[trigger] self.stores()[k1].ids().slot(self.pendings()[k1][j1] as int)
                == #[trigger] self.stores()[k2].ids().slot(self.pendings()[k2][j2] as int) ==> k1 == k2 && self.pendings()[k1][j1]
                == self.pendings()[k2][j2]
    }

    proof fn lemma_views(&self)
        ensures
            self.gens().len() == self.slots@.len(),
            self.locs().len() == self.slots@.len(),
            self.arch_ids().len() == self.storages@.len(),
            self.stores().len() == self.storages@.len(),
            self.pendings().len() == self.storages@.len(),
            self.index_view().len() == self.component_index@.len(),
            forall|i: int| 0 <= i < self.slots@.len() ==> #[trigger] self.gens()[i] == self.slots@[i].generation
                && self.locs()[i] == self.slots@[i].location,
            forall|k: int| 0 <= k < self.storages@.len() ==> #[trigger] self.arch_ids()[k] == self.storages@[k].0
                && self.stores()[k] == self.storages@[k].1.storage && self.pendings()[k] == self.storages@[k].1.pending_despawns@,
            forall|k: int| 0 <= k < self.component_index@.len() ==> #[trigger] self.index_view()[k] == (
                self.component_index@[k].0,
                self.component_index@[k].1@,
            ),
    {
    }

    /// An empty world whose archetype pages follow `page_budget`.
    pub fn with_page_budget(page_budget: PageBudget) -> (w: Self)
        requires
            page_budget.l2_bytes > 0,
        ensures
            w.wf(),
            w.consistent(),
            w.budget() == page_budget,
            w.gens().len() == 0,
            w.free().len() == 0,
            w.live() == 0,
            w.arch_ids().len() == 0,
            w.index_view().len() == 0,
            w.registry().descs().len() == 0,
    {
        let w = World {
            page_budget,
            storages: Vec::new(),
            component_index: Vec::new(),
            systems: SystemRegistry::new(),
            slots: Vec::new(),
            free_list: Vec::new(),
            live_count: 0,
        };
        proof {
            w.lemma_views();
            assert(w.arch_ids() =~= Seq::<ArchetypeId>::empty());
            assert(w.locs() =~= Seq::<Option<SlotLocation>>::empty());
        }
        w
    }

    pub fn page_budget(&self) -> (b: PageBudget)
        ensures
            b == self.budget(),
    {
        self.page_budget
    }

    /// Use `budget` for archetypes created from now on.
    pub fn set_page_budget(&mut self, budget: PageBudget)
        requires
            old(self).wf(),
            budget.l2_bytes > 0,
        ensures
            final(self).wf(),
            old(self).consistent() ==> final(self).consistent(),
            final(self).budget() == budget,
            final(self).gens() == old(self).gens(),
            final(self).locs() == old(self).locs(),
            final(self).stores() == old(self).stores(),
            final(self).arch_ids() == old(self).arch_ids(),
    {
        self.page_budget = budget;
        proof {
            self.lemma_views();
            old(self).lemma_views();
            assert(self.gens() =~= old(self).gens());
            assert(self.locs() =~= old(self).locs());
            assert(self.stores() =~= old(self).stores());
            assert(self.arch_ids() =~= old(self).arch_ids());
            assert(self.pendings() =~= old(self).pendings());
            assert(self.free() =~= old(self).free());
            assert(self.index_view() =~= old(self).index_view());
        }
    }

    /// Number of live entities.
    pub fn live_entity_count(&self) -> (n: usize)
        ensures
            n == self.live(),
    {
        self.live_count
    }

    /// Number of entity slots ever created.
    pub fn allocated_slots(&self) -> (n: usize)
        ensures
            n == self.gens().len(),
    {
        proof {
            self.lemma_views();
        }
        self.slots.len()
    }

    /// Number of live entities.
    pub fn entity_count(&self) -> (n: usize)
        ensures
            n == self.live(),
    {
        self.live_count
    }

    /// Where `entity` lives, or why it cannot be found: its slot does not
    /// exist, holds a newer generation, or holds no live entity.
    pub open spec fn locate_result(&self, entity: Entity) -> Result<EntityLoc, WorldError> {
        let i = bits_index(entity.0) as int;
        if i >= self.gens().len() {
            Err(WorldError::UnknownEntity { entity })
        } else if self.gens()[i] != bits_generation(entity.0) {
            Err(WorldError::StaleEntity { entity })
        } else {
            match self.locs()[i] {
                None => Err(WorldError::EntityNotAlive { entity }),
                Some(loc) => Ok(EntityLoc { archetype: loc.archetype, index: loc.row, generation: self.gens()[i] }),
            }
        }
    }

    /// Where `entity` is stored: refused for an index without a slot, for a
    /// stale generation, and for an entity that is not alive.
    pub fn locate(&self, entity: Entity) -> (r: Result<EntityLoc, WorldError>)
        requires
            self.wf(),
        ensures
            r == self.locate_result(entity),
    {
        proof {
            self.lemma_views();
        }
        let index = entity.index() as usize;
        if index >= self.slots.len() {
            return Err(WorldError::UnknownEntity { entity });
        }
        let slot = &self.slots[index];
        if slot.generation != entity.generation() {
            return Err(WorldError::StaleEntity { entity });
        }
        match slot.location {
            None => Err(WorldError::EntityNotAlive { entity }),
            Some(location) => Ok(EntityLoc::new(location.archetype, location.row, slot.generation)),
        }
    }

    /// In a consistent world, the row that locating a live entity names
    /// exists in the storage of its archetype and records the entity's slot.
    pub proof fn law_located_row_holds_entity(&self, entity: Entity)
        requires
            self.wf(),
            self.consistent(),
            self.locate_result(entity) is Ok,
        ensures
            ({
                let loc = self.locate_result(entity)->Ok_0;
                &&& position_of(self.arch_ids(), loc.archetype) is Some
                &&& Self::row_holds(
                    self.stores()[position_of(self.arch_ids(), loc.archetype)->Some_0],
                    loc.index as int,
                    bits_index(entity.0) as int,
                )
            }),
    {
        let i = bits_index(entity.0) as int;
        let l = self.locs()[i]->Some_0;
        assert(self.arch_ids().contains(l.archetype));
        let c = choose|c: int| 0 <= c < self.arch_ids().len() && self.arch_ids()[c] == l.archetype;
        assert(self.arch_ids()[c] == l.archetype);
    }

    fn find_index_entry(&self, c: ComponentId) -> (r: Option<usize>)
        ensures
            match r {
                Some(k) => k < self.component_index@.len() && self.component_index@[k as int].0 == c,
                None => forall|k: int| 0 <= k < self.component_index@.len() ==> (#[trigger] self.component_index@[k]).0 != c,
            },
    {
        let mut k: usize = 0;
        while k < self.component_index.len()
            invariant
                k <= self.component_index@.len(),
                forall|j: int| 0 <= j < k ==> (#[trigger] self.component_index@[j]).0 != c,
            decreases self.component_index@.len() - k,
        {
            if self.component_index[k].0 == c {
                return Some(k);
            }
            k = k + 1;
        }
        None
    }

    fn find_storage(&self, archetype: ArchetypeId) -> (r: Option<usize>)
        ensures
            match r {
                Some(k) => k < self.storages@.len() && self.storages@[k as int].0 == archetype,
                None => forall|k: int| 0 <= k < self.storages@.len() ==> (#[trigger] self.storages@[k]).0 != archetype,
            },
    {
        let mut k: usize = 0;
        while k < self.storages.len()
            invariant
                k <= self.storages@.len(),
                forall|j: int| 0 <= j < k ==> (#[trigger] self.storages@[j]).0 != archetype,
            decreases self.storages@.len() - k,
        {
            if self.storages[k].0 == archetype {
                return Some(k);
            }
            k = k + 1;
        }
        None
    }

    /// Storage of archetype `archetype`, if it exists.
    pub fn storage(&self, archetype: ArchetypeId) -> (r: Option<&ArchetypeStorage>)
        requires
            self.wf(),
        ensures
            match position_of(self.arch_ids(), archetype) {
                Some(k) => r == Some(&self.stores()[k]),
                None => r is None,
            },
    {
        proof {
            self.lemma_views();
        }
        match self.find_storage(archetype) {
            Some(k) => {
                proof {
                    assert(self.arch_ids()[k as int] == archetype);
                    let c = choose|j: int| 0 <= j < self.arch_ids().len() && self.arch_ids()[j] == archetype;
                    if c != k as int {
                        assert(self.arch_ids()[c] == self.arch_ids()[k as int]);
                    }
                }
                Some(&self.storages[k].1.storage)
            },
            None => {
                proof {
                    if exists|j: int| 0 <= j < self.arch_ids().len() && self.arch_ids()[j] == archetype {
                        let c = choose|j: int| 0 <= j < self.arch_ids().len() && self.arch_ids()[j] == archetype;
                        assert(self.storages@[c].0 == archetype);
                    }
                }
                None
            },
        }
    }

    /// A world whose storage `k` alone changed, to a well-formed one, stays
    /// well-formed: what a caller of `storage_mut` uses to go on with the
    /// world after writing through the storage.
    pub proof fn lemma_wf_store_update(a: World, b: World, k: int)
        requires
            a.wf(),
            0 <= k < a.stores().len(),
            b.stores() == a.stores().update(k, b.stores()[k]),
            b.stores()[k].wf(),
            b.arch_ids() == a.arch_ids(),
            b.pendings() == a.pendings(),
            b.gens() == a.gens(),
            b.locs() == a.locs(),
            b.free() == a.free(),
            b.budget() == a.budget(),
            b.index_view() == a.index_view(),
            b.registry() == a.registry(),
        ensures
            b.wf(),
    {
        assert forall|j: int| 0 <= j < b.stores().len() implies (#[trigger] b.stores()[j]).wf() by {
            if j != k {
                assert(b.stores()[j] == a.stores()[j]);
            }
        }
    }

    /// Storage of archetype `archetype`, if it exists, for writing. What the
    /// caller leaves in it is what the world holds afterwards; nothing else
    /// of the world changes.
    pub fn storage_mut(&mut self, archetype: ArchetypeId) -> (r: Option<&mut ArchetypeStorage>)
        requires
            old(self).wf(),
        ensures
            match position_of(old(self).arch_ids(), archetype) {
                Some(k) => {
                    &&& r is Some
                    &&& *(r->Some_0) == old(self).stores()[k]
                    &&& final(self).stores() == old(self).stores().update(k, *final(r->Some_0))
                },
                None => r is None && *final(self) == *old(self),
            },
            final(self).arch_ids() == old(self).arch_ids(),
            final(self).pendings() == old(self).pendings(),
            final(self).gens() == old(self).gens(),
            final(self).locs() == old(self).locs(),
            final(self).free() == old(self).free(),
            final(self).live() == old(self).live(),
            final(self).budget() == old(self).budget(),
            final(self).index_view() == old(self).index_view(),
            final(self).registry() == old(self).registry(),
    {
        proof {
            self.lemma_views();
        }
        match self.find_storage(archetype) {
            Some(k) => {
                proof {
                    assert(self.arch_ids()[k as int] == archetype);
                    let c = choose|j: int| 0 <= j < self.arch_ids().len() && self.arch_ids()[j] == archetype;
                    if c != k as int {
                        assert(self.arch_ids()[c] == self.arch_ids()[k as int]);
                    }
                }
                Some(&mut self.storages[k].1.storage)
            },
            None => {
                proof {
                    if exists|j: int| 0 <= j < self.arch_ids().len() && self.arch_ids()[j] == archetype {
                        let c = choose|j: int| 0 <= j < self.arch_ids().len() && self.arch_ids()[j] == archetype;
                        assert(self.storages@[c].0 == archetype);
                    }
                }
                None
            },
        }
    }

    /// Archetypes that hold component `component_id`, in creation order.
    pub fn archetypes_with(&self, component_id: ComponentId) -> (r: &[ArchetypeId])
        requires
            self.wf(),
        ensures
            (exists|k: int| 0 <= k < self.index_view().len() && (#[trigger] self.index_view()[k]).0 == component_id && r@
                == self.index_view()[k].1) || (r@.len() == 0 && forall|k: int| 0 <= k < self.index_view().len()
                ==> (#[trigger] self.index_view()[k]).0 != component_id),
    {
        proof {
            self.lemma_views();
        }
        let mut k: usize = 0;
        while k < self.component_index.len()
            invariant
                k <= self.component_index@.len(),
                self.index_view().len() == self.component_index@.len(),
                forall|j: int| 0 <= j < self.component_index@.len() ==> #[trigger] self.index_view()[j] == (
                    self.component_index@[j].0,
                    self.component_index@[j].1@,
                ),
                forall|j: int| 0 <= j < k ==> (#[trigger] self.component_index@[j]).0 != component_id,
            decreases self.component_index@.len() - k,
        {
            if self.component_index[k].0 == component_id {
                proof {
                    assert(self.index_view()[k as int].0 == component_id);
                }
                return self.component_index[k].1.as_slice();
            }
            k = k + 1;
        }
        &[]
    }

    /// Register a system with the world's registry.
    pub fn register_system(&mut self, descriptor: SystemDescriptor) -> (r: Result<SystemHandle, SystemRegistrationError>)
        requires
            old(self).wf(),
            descriptor.wf(),
        ensures
            final(self).wf(),
            old(self).consistent() ==> final(self).consistent(),
            registration_result(old(self).registry().descs(), descriptor, r),
            r is Ok ==> final(self).registry().descs() == old(self).registry().descs().push(descriptor),
            r is Err ==> final(self).registry().descs() == old(self).registry().descs(),
            final(self).gens() == old(self).gens(),
            final(self).locs() == old(self).locs(),
            final(self).stores() == old(self).stores(),
    {
        let r = self.systems.register(descriptor);
        proof {
            self.lemma_views();
            old(self).lemma_views();
            assert(self.gens() =~= old(self).gens());
            assert(self.locs() =~= old(self).locs());
            assert(self.stores() =~= old(self).stores());
            assert(self.arch_ids() =~= old(self).arch_ids());
            assert(self.pendings() =~= old(self).pendings());
            assert(self.free() =~= old(self).free());
            assert(self.index_view() =~= old(self).index_view());
        }
        r
    }

    pub fn system_descriptor(&self, handle: SystemHandle) -> (r: Option<&SystemDescriptor>)
        requires
            self.wf(),
        ensures
            (handle.spec_index() as int) < self.registry().descs().len() ==> r == Some(
                &self.registry().descs()[handle.spec_index() as int],
            ),
            (handle.spec_index() as int) >= self.registry().descs().len() ==> r is None,
    {
        self.systems.descriptor(handle)
    }

    pub fn system_components(&self, handle: SystemHandle) -> (r: Option<&[ComponentId]>)
        requires
            self.wf(),
        ensures
            (handle.spec_index() as int) < self.registry().descs().len() ==> (r matches Some(c) && c@
                == self.registry().descs()[handle.spec_index() as int].spec_components()),
            (handle.spec_index() as int) >= self.registry().descs().len() ==> r is None,
    {
        self.systems.component_filter(handle)
    }

    pub fn system_read_components(&self, handle: SystemHandle) -> (r: Option<&[ComponentId]>)
        requires
            self.wf(),
        ensures
            (handle.spec_index() as int) < self.registry().descs().len() ==> (r matches Some(c) && c@
                == self.registry().descs()[handle.spec_index() as int].spec_reads()),
            (handle.spec_index() as int) >= self.registry().descs().len() ==> r is None,
    {
        self.systems.read_components(handle)
    }

    pub fn system_write_components(&self, handle: SystemHandle) -> (r: Option<&[ComponentId]>)
        requires
            self.wf(),
        ensures
            (handle.spec_index() as int) < self.registry().descs().len() ==> (r matches Some(c) && c@
                == self.registry().descs()[handle.spec_index() as int].spec_writes()),
            (handle.spec_index() as int) >= self.registry().descs().len() ==> r is None,
    {
        self.systems.write_components(handle)
    }

    /// Every registered system with its handle, in registration order.
    pub fn systems(&self) -> (v: Vec<(SystemHandle, &SystemDescriptor)>)
        requires
            self.wf(),
        ensures
            v@.len() == self.registry().descs().len(),
            forall|i: int| 0 <= i < v@.len() ==> (#[trigger] v@[i]).0.spec_index() == i as u32 && v@[i].1
                == &self.registry().descs()[i],
    {
        self.systems.iter()
    }
    /// Despawn `entity`: it leaves its location now and its row is queued
    /// for removal at the next flush. Refused for an index without a slot,
    /// for a stale generation, and for an entity that is not alive.
    pub fn despawn(&mut self, entity: Entity) -> (r: Result<(), WorldError>)
        requires
            old(self).wf(),
        ensures
            final(self).wf(),
            r is Ok ==> final(self).locate_result(entity) == Err::<EntityLoc, WorldError>(WorldError::EntityNotAlive { entity }),
            old(self).consistent() ==> final(self).consistent(),
            old(self).consistent() && r is Ok ==> final(self).live() == old(self).live() - 1,
            ({
                let i = bits_index(entity.0) as int;
                if i >= old(self).gens().len() {
                    r == Err::<(), WorldError>(WorldError::UnknownEntity { entity }) && *final(self) == *old(self)
                } else if old(self).gens()[i] != bits_generation(entity.0) {
                    r == Err::<(), WorldError>(WorldError::StaleEntity { entity }) && *final(self) == *old(self)
                } else {
                    match old(self).locs()[i] {
                        None => r == Err::<(), WorldError>(WorldError::EntityNotAlive { entity }) && *final(self)
                            == *old(self),
                        Some(loc) => {
                            let k = position_of(old(self).arch_ids(), loc.archetype)->Some_0;
                            &&& r is Ok
                            &&& position_of(old(self).arch_ids(), loc.archetype) is Some
                            &&& final(self).locs() == old(self).locs().update(i, None)
                            &&& final(self).gens() == old(self).gens()
                            &&& final(self).pendings() == old(self).pendings().update(k, old(self).pendings()[k].push(loc.row))
                            &&& final(self).live() == if old(self).live() == 0 { 0 } else { (old(self).live() - 1) as usize }
                            &&& final(self).stores() == old(self).stores()
                            &&& final(self).arch_ids() == old(self).arch_ids()
                            &&& final(self).free() == old(self).free()
                            &&& final(self).index_view() == old(self).index_view()
                            &&& final(self).registry() == old(self).registry()
                            &&& final(self).budget() == old(self).budget()
                        },
                    }
                }
            }),
    {
        proof {
            self.lemma_views();
        }
        let index = entity.index() as usize;
        if index >= self.slots.len() {
            return Err(WorldError::UnknownEntity { entity });
        }
        let generation = self.slots[index].generation;
        if generation != entity.generation() {
            return Err(WorldError::StaleEntity { entity });
        }
        let location = match self.slots[index].location {
            Some(loc) => loc,
            None => {
                return Err(WorldError::EntityNotAlive { entity });
            },
        };
        self.slots.set(index, EntitySlot { generation, location: None });
        let k = match self.find_storage(location.archetype) {
            Some(k) => k,
            None => {
                proof {
                    assert(old(self).locs()[index as int] is Some);
                    let c = choose|c: int| 0 <= c < old(self).arch_ids().len() && old(self).arch_ids()[c] == location.archetype;
                    assert(self.storages@[c].0 == location.archetype);
                }
                return Err(WorldError::MissingArchetype { archetype_id: location.archetype });
            },
        };
        self.storages[k].1.pending_despawns.push(location.row);
        self.live_count = if self.live_count == 0 { 0 } else { self.live_count - 1 };
        proof {
            self.lemma_views();
            let o = old(self);
            let ai = o.arch_ids();
            assert(ai[k as int] == location.archetype);
            let c = choose|c: int| 0 <= c < ai.len() && ai[c] == location.archetype;
            if c != k as int {
                assert(ai[c] == ai[k as int]);
            }
            assert(self.locs() =~= o.locs().update(index as int, None));
            assert(self.gens() =~= o.gens());
            assert(self.arch_ids() =~= o.arch_ids());
            assert(self.stores() =~= o.stores());
            assert(self.pendings() =~= o.pendings().update(k as int, o.pendings()[k as int].push(location.row)));
            assert(self.free() =~= o.free());
            assert(self.index_view() =~= o.index_view());
            assert forall|j: int| 0 <= j < self.locs().len() && (#[trigger] self.locs()[j]) is Some implies self.arch_ids().contains(
                self.locs()[j]->Some_0.archetype,
            ) by {
                assert(o.locs()[j] is Some);
            }
            if o.consistent() {
                lemma_live_slots_update(o.locs(), index as int, None);
                assert(Self::row_holds(o.stores()[k as int], location.row as int, index as int));
                assert forall|x: int, y: int|
                    0 <= x < self.pendings().len() && 0 <= y < self.pendings()[x].len() implies (#[trigger] self.pendings()[x][y])
                        < self.stores()[x].spec_len() by {
                    if x == k as int && y == o.pendings()[x].len() {
                        assert(self.pendings()[x][y] == location.row);
                    } else if x == k as int {
                        assert(self.pendings()[x][y] == o.pendings()[x][y]);
                    }
                }
                assert forall|j: int| 0 <= j < self.locs().len() && (#[trigger] self.locs()[j]) is Some implies {
                    let l = self.locs()[j]->Some_0;
                    Self::row_holds(self.stores()[position_of(self.arch_ids(), l.archetype)->Some_0], l.row as int, j)
                } by {
                    assert(o.locs()[j] is Some);
                }
                let idx = index as int;
                let kk = k as int;
                let lr = location.row;
                assert(o.stores()[kk].ids().slot(lr as int) == Some(index as u32));
                assert(!o.free().contains(index as u32)) by {
                    if o.free().contains(index as u32) {
                        let q = choose|q: int| 0 <= q < o.free().len() && o.free()[q] == index as u32;
                        assert(o.locs()[o.free()[q] as int] is None);
                    }
                }
                assert forall|c: int, row: int| 0 <= c < self.stores().len() && 0 <= row < self.stores()[c].spec_len() implies #[trigger] row_accounted(
                    self.stores()[c].ids(),
                    self.pendings()[c],
                    self.arch_ids()[c],
                    self.locs(),
                    row,
                ) by {
                    assert(row_accounted(o.stores()[c].ids(), o.pendings()[c], o.arch_ids()[c], o.locs(), row));
                    assert(self.stores()[c] == o.stores()[c]);
                    assert(self.arch_ids()[c] == o.arch_ids()[c]);
                    let x = o.stores()[c].ids().slot(row)->Some_0;
                    if waits(o.pendings()[c], row) {
                        let q = choose|q: int| 0 <= q < o.pendings()[c].len() && #[trigger] o.pendings()[c][q] as int == row;
                        if c == kk {
                            assert(self.pendings()[c] == o.pendings()[c].push(lr));
                        } else {
                            assert(self.pendings()[c] == o.pendings()[c]);
                        }
                        assert(self.pendings()[c][q] as int == row);
                    } else if x as int == idx {
                        assert(o.arch_ids()[c] == o.arch_ids()[kk]);
                        assert(c == kk);
                        assert(self.pendings()[kk] == o.pendings()[kk].push(lr));
                        assert(self.pendings()[kk][o.pendings()[kk].len() as int] as int == row);
                    } else {
                        assert(self.locs()[x as int] == o.locs()[x as int]);
                    }
                }
                assert forall|c: int, j: int| 0 <= c < self.pendings().len() && 0 <= j < self.pendings()[c].len() implies #[trigger] pending_dead(
                    self.stores()[c].ids(),
                    self.locs(),
                    self.free(),
                    self.pendings()[c][j] as int,
                ) by {
                    if c == kk && j == o.pendings()[kk].len() {
                        assert(self.pendings()[c][j] == lr);
                    } else {
                        assert(self.pendings()[c][j] == o.pendings()[c][j]);
                        assert(pending_dead(o.stores()[c].ids(), o.locs(), o.free(), o.pendings()[c][j] as int));
                        let x = o.stores()[c].ids().slot(o.pendings()[c][j] as int)->Some_0;
                        assert(x as int != idx);
                    }
                }
                assert forall|k1: int, j1: int, k2: int, j2: int|
                    0 <= k1 < self.pendings().len() && 0 <= j1 < self.pendings()[k1].len() && 0 <= k2 < self.pendings().len() && 0
                        <= j2 < self.pendings()[k2].len() && #[trigger] self.stores()[k1].ids().slot(self.pendings()[k1][j1] as int)
                        == #[trigger] self.stores()[k2].ids().slot(self.pendings()[k2][j2] as int) implies k1 == k2
                    && self.pendings()[k1][j1] == self.pendings()[k2][j2] by {
                    let n1 = k1 == kk && j1 == o.pendings()[kk].len();
                    let n2 = k2 == kk && j2 == o.pendings()[kk].len();
                    if n1 && n2 {
                    } else if n1 {
                        assert(self.pendings()[k2][j2] == o.pendings()[k2][j2]);
                        assert(pending_dead(o.stores()[k2].ids(), o.locs(), o.free(), o.pendings()[k2][j2] as int));
                        assert(self.pendings()[k1][j1] == lr);
                    } else if n2 {
                        assert(self.pendings()[k1][j1] == o.pendings()[k1][j1]);
                        assert(pending_dead(o.stores()[k1].ids(), o.locs(), o.free(), o.pendings()[k1][j1] as int));
                        assert(self.pendings()[k2][j2] == lr);
                    } else {
                        assert(self.pendings()[k1][j1] == o.pendings()[k1][j1]);
                        assert(self.pendings()[k2][j2] == o.pendings()[k2][j2]);
                        assert(o.stores()[k1].ids().slot(o.pendings()[k1][j1] as int) == o.stores()[k2].ids().slot(
                            o.pendings()[k2][j2] as int,
                        ));
                    }
                }
            }
        }
        Ok(())
    }

    /// A slot for a new entity: the most recently freed one, else a new one.
    fn allocate_entity(&mut self) -> (r: Result<(Entity, EntityId), WorldError>)
        requires
            old(self).wf(),
        ensures
            final(self).wf(),
            final(self).locs().len() == final(self).gens().len(),
            final(self).arch_ids() == old(self).arch_ids(),
            final(self).stores() == old(self).stores(),
            final(self).pendings() == old(self).pendings(),
            final(self).index_view() == old(self).index_view(),
            final(self).live() == old(self).live(),
            final(self).registry() == old(self).registry(),
            final(self).budget() == old(self).budget(),
            if old(self).free().len() > 0 {
                let id = old(self).free().last();
                &&& r == Ok::<(Entity, EntityId), WorldError>((Entity(crate::ecs::entity::pack(id, old(self).gens()[id as int])), id))
                &&& final(self).free() == old(self).free().drop_last()
                &&& final(self).gens() == old(self).gens()
                &&& final(self).locs() == old(self).locs()
            } else if old(self).gens().len() > u32::MAX {
                r == Err::<(Entity, EntityId), WorldError>(WorldError::EntityIndexOverflow { index: old(self).gens().len() as usize })
                    && *final(self) == *old(self)
            } else {
                let id = old(self).gens().len() as u32;
                &&& r == Ok::<(Entity, EntityId), WorldError>((Entity(crate::ecs::entity::pack(id, 0)), id))
                &&& final(self).free() == old(self).free()
                &&& final(self).gens() == old(self).gens().push(0)
                &&& final(self).locs() == old(self).locs().push(None)
            },
    {
        proof {
            self.lemma_views();
        }
        let entity_id = if self.free_list.len() > 0 {
            match self.free_list.pop() {
                Some(id) => id,
                None => 0,
            }
        } else {
            let index = self.slots.len();
            if index > 4294967295usize {
                return Err(WorldError::EntityIndexOverflow { index });
            }
            self.slots.push(EntitySlot { generation: 0, location: None });
            index as u32
        };
        proof {
            self.lemma_views();
            old(self).lemma_views();
            assert(self.arch_ids() =~= old(self).arch_ids());
            assert(self.stores() =~= old(self).stores());
            assert(self.pendings() =~= old(self).pendings());
            assert(self.index_view() =~= old(self).index_view());
            if old(self).free().len() > 0 {
                assert(self.gens() =~= old(self).gens());
                assert(self.locs() =~= old(self).locs());
                assert(old(self).free()[old(self).free().len() - 1] == entity_id);
            } else {
                assert(self.gens() =~= old(self).gens().push(0));
                assert(self.locs() =~= old(self).locs().push(None));
            }
            assert forall|i: int| 0 <= i < self.free().len() implies ((#[trigger] self.free()[i]) as int) < self.gens().len() by {
                assert(self.free()[i] == old(self).free()[i]);
            }
            assert forall|i: int| 0 <= i < self.locs().len() && (#[trigger] self.locs()[i]) is Some implies self.arch_ids().contains(
                self.locs()[i]->Some_0.archetype,
            ) by {
                assert(old(self).locs()[i] is Some);
            }
        }
        let generation = self.slots[entity_id as usize].generation;
        let entity = Entity::new(entity_id, generation);
        proof {
            assert(self.gens()[entity_id as int] == generation);
            if old(self).free().len() > 0 {
                assert(entity_id == old(self).free().last());
                assert(generation == old(self).gens()[entity_id as int]);
            } else {
                assert(generation == 0);
            }
        }
        Ok((entity, entity_id))
    }

    /// Set the location of slot `entity_id`, which must be an existing
    /// slot of archetype `loc.archetype`.
    fn record_location(&mut self, entity_id: EntityId, loc: SlotLocation) -> (r: Result<(), WorldError>)
        requires
            old(self).wf(),
            old(self).arch_ids().contains(loc.archetype),
        ensures
            final(self).wf(),
            (entity_id as int) < old(self).gens().len() ==> r is Ok && final(self).locs() == old(self).locs().update(
                entity_id as int,
                Some(loc),
            ) && final(self).gens() == old(self).gens(),
            (entity_id as int) >= old(self).gens().len() ==> r == Err::<(), WorldError>(WorldError::UnknownEntityIndex { entity_id })
                && *final(self) == *old(self),
            final(self).free() == old(self).free(),
            final(self).arch_ids() == old(self).arch_ids(),
            final(self).stores() == old(self).stores(),
            final(self).pendings() == old(self).pendings(),
            final(self).index_view() == old(self).index_view(),
            final(self).live() == old(self).live(),
            final(self).registry() == old(self).registry(),
            final(self).budget() == old(self).budget(),
    {
        proof {
            self.lemma_views();
        }
        let i = entity_id as usize;
        if i >= self.slots.len() {
            return Err(WorldError::UnknownEntityIndex { entity_id });
        }
        let generation = self.slots[i].generation;
        self.slots.set(i, EntitySlot { generation, location: Some(loc) });
        proof {
            self.world_frame(old(self));
            assert(self.locs() =~= old(self).locs().update(i as int, Some(loc)));
            assert(self.gens() =~= old(self).gens());
            assert forall|j: int| 0 <= j < self.locs().len() && (#[trigger] self.locs()[j]) is Some implies self.arch_ids().contains(
                self.locs()[j]->Some_0.archetype,
            ) by {
                if j != i as int {
                    assert(old(self).locs()[j] is Some);
                }
            }
        }
        Ok(())
    }

    /// Views other than the slots are those of `o`.
    proof fn world_frame(&self, o: &World)
        requires
            self.storages == o.storages,
            self.component_index == o.component_index,
            self.free_list == o.free_list,
            self.systems == o.systems,
            self.page_budget == o.page_budget,
            self.live_count == o.live_count,
            self.slots@.len() == o.slots@.len(),
            o.wf(),
        ensures
            self.arch_ids() == o.arch_ids(),
            self.stores() == o.stores(),
            self.pendings() == o.pendings(),
            self.index_view() == o.index_view(),
            self.free() == o.free(),
            self.gens().len() == o.gens().len(),
            self.locs().len() == o.locs().len(),
    {
        self.lemma_views();
        o.lemma_views();
        assert(self.arch_ids() =~= o.arch_ids());
        assert(self.stores() =~= o.stores());
        assert(self.pendings() =~= o.pendings());
        assert(self.index_view() =~= o.index_view());
    }

    /// Recycle slot `entity_id`: bump its generation (wrapping) and make it
    /// the next slot to reuse.
    fn finish_despawn(&mut self, entity_id: EntityId) -> (r: Result<(), WorldError>)
        requires
            old(self).wf(),
        ensures
            final(self).wf(),
            (entity_id as int) < old(self).gens().len() ==> r is Ok && final(self).gens() == old(self).gens().update(
                entity_id as int,
                next_generation(old(self).gens()[entity_id as int]),
            ) && final(self).free() == old(self).free().push(entity_id) && final(self).locs() == old(self).locs(),
            (entity_id as int) >= old(self).gens().len() ==> r == Err::<(), WorldError>(WorldError::UnknownEntityIndex { entity_id })
                && *final(self) == *old(self),
            final(self).arch_ids() == old(self).arch_ids(),
            final(self).stores() == old(self).stores(),
            final(self).pendings() == old(self).pendings(),
            final(self).index_view() == old(self).index_view(),
            final(self).live() == old(self).live(),
            final(self).registry() == old(self).registry(),
            final(self).budget() == old(self).budget(),
    {
        proof {
            self.lemma_views();
        }
        let i = entity_id as usize;
        if i >= self.slots.len() {
            return Err(WorldError::UnknownEntityIndex { entity_id });
        }
        let location = self.slots[i].location;
        let generation = self.slots[i].generation.wrapping_add(1);
        self.slots.set(i, EntitySlot { generation, location });
        self.free_list.push(entity_id);
        proof {
            self.lemma_views();
            old(self).lemma_views();
            assert(self.arch_ids() =~= old(self).arch_ids());
            assert(self.stores() =~= old(self).stores());
            assert(self.pendings() =~= old(self).pendings());
            assert(self.index_view() =~= old(self).index_view());
            assert(generation == next_generation(old(self).gens()[i as int]));
            assert(self.gens() =~= old(self).gens().update(i as int, next_generation(old(self).gens()[i as int])));
            assert(self.locs() =~= old(self).locs());
            assert forall|j: int| 0 <= j < self.free().len() implies ((#[trigger] self.free()[j]) as int) < self.gens().len() by {
                if j < old(self).free().len() {
                    assert(self.free()[j] == old(self).free()[j]);
                }
            }
        }
        Ok(())
    }

    /// Move slot `entity_id` to row `row`; a slot without location is
    /// placed in `archetype`.
    fn update_entity_location(&mut self, entity_id: EntityId, archetype: ArchetypeId, row: usize) -> (r: Result<(), WorldError>)
        requires
            old(self).wf(),
            old(self).arch_ids().contains(archetype),
        ensures
            final(self).wf(),
            (entity_id as int) < old(self).gens().len() ==> r is Ok && final(self).locs() == old(self).locs().update(
                entity_id as int,
                Some(
                    match old(self).locs()[entity_id as int] {
                        Some(l) => SlotLocation { archetype: l.archetype, row },
                        None => SlotLocation { archetype, row },
                    },
                ),
            ) && final(self).gens() == old(self).gens(),
            (entity_id as int) >= old(self).gens().len() ==> r == Err::<(), WorldError>(WorldError::UnknownEntityIndex { entity_id })
                && *final(self) == *old(self),
            final(self).free() == old(self).free(),
            final(self).arch_ids() == old(self).arch_ids(),
            final(self).stores() == old(self).stores(),
            final(self).pendings() == old(self).pendings(),
            final(self).index_view() == old(self).index_view(),
            final(self).live() == old(self).live(),
            final(self).registry() == old(self).registry(),
            final(self).budget() == old(self).budget(),
    {
        proof {
            self.lemma_views();
        }
        let i = entity_id as usize;
        if i >= self.slots.len() {
            return Err(WorldError::UnknownEntityIndex { entity_id });
        }
        let generation = self.slots[i].generation;
        let loc = match self.slots[i].location {
            Some(l) => SlotLocation { archetype: l.archetype, row },
            None => SlotLocation { archetype, row },
        };
        self.slots.set(i, EntitySlot { generation, location: Some(loc) });
        proof {
            self.world_frame(old(self));
            assert(self.locs() =~= old(self).locs().update(i as int, Some(loc)));
            assert(self.gens() =~= old(self).gens());
            assert forall|j: int| 0 <= j < self.locs().len() && (#[trigger] self.locs()[j]) is Some implies self.arch_ids().contains(
                self.locs()[j]->Some_0.archetype,
            ) by {
                if j != i as int {
                    assert(old(self).locs()[j] is Some);
                } else if old(self).locs()[j] is Some {
                    assert(old(self).locs()[j] is Some);
                }
            }
        }
        Ok(())
    }

    /// Record archetype `a` under component `c` in the component index.
    fn index_component(&mut self, c: ComponentId, a: ArchetypeId)
        requires
            old(self).wf(),
        ensures
            final(self).wf(),
            final(self).index_view() == index_add(old(self).index_view(), c, a),
            final(self).gens() == old(self).gens(),
            final(self).locs() == old(self).locs(),
            final(self).free() == old(self).free(),
            final(self).arch_ids() == old(self).arch_ids(),
            final(self).stores() == old(self).stores(),
            final(self).pendings() == old(self).pendings(),
            final(self).live() == old(self).live(),
            final(self).registry() == old(self).registry(),
            final(self).budget() == old(self).budget(),
    {
        proof {
            self.lemma_views();
        }
        let ghost iv = self.index_view();
        let n = self.component_index.len();
        let found = self.find_index_entry(c);
        let k = match found {
            Some(k) => k,
            None => n,
        };
        if k < n {
            self.component_index[k].1.push(a);
            proof {
                assert(iv[k as int].0 == c);
                let ch = choose|j: int| 0 <= j < iv.len() && (#[trigger] iv[j]).0 == c;
                if ch != k as int {
                    assert(iv[ch].0 == iv[k as int].0);
                }
                self.lemma_views();
                assert(self.index_view() =~= iv.update(k as int, (c, iv[k as int].1.push(a))));
            }
        } else {
            let mut list: Vec<ArchetypeId> = Vec::new();
            list.push(a);
            self.component_index.push((c, list));
            proof {
                self.lemma_views();
                assert(list@ =~= seq![a]);
                assert(self.index_view() =~= iv.push((c, seq![a])));
                if exists|j: int| 0 <= j < iv.len() && (#[trigger] iv[j]).0 == c {
                    let j = choose|j: int| 0 <= j < iv.len() && (#[trigger] iv[j]).0 == c;
                    assert(old(self).component_index@[j].0 == c);
                }
            }
        }
        proof {
            self.lemma_views();
            old(self).lemma_views();
            assert(self.gens() =~= old(self).gens());
            assert(self.locs() =~= old(self).locs());
            assert(self.free() =~= old(self).free());
            assert(self.arch_ids() =~= old(self).arch_ids());
            assert(self.stores() =~= old(self).stores());
            assert(self.pendings() =~= old(self).pendings());
            let nv = self.index_view();
            assert forall|x: int, y: int| 0 <= x < y < nv.len() implies (#[trigger] nv[x]).0 != (#[trigger] nv[y]).0 by {
                if y < iv.len() {
                    assert(nv[x].0 == iv[x].0 && nv[y].0 == iv[y].0);
                } else {
                    assert(nv[x].0 == iv[x].0);
                }
            }
        }
    }

    /// Create the storage of `layout` unless it exists. Its plan follows the
    /// page budget; a component missing from `registry` or a row too large
    /// refuses it.
    fn ensure_archetype_exists(&mut self, registry: &ComponentRegistry, layout: &ArchetypeLayout) -> (r: Result<(), WorldError>)
        requires
            old(self).wf(),
            registry.wf(),
        ensures
            final(self).wf(),
            old(self).arch_ids().contains(layout.spec_id()) ==> r is Ok && *final(self) == *old(self),
            !old(self).arch_ids().contains(layout.spec_id()) ==> match scan_row_bytes(registry.entries(), layout.spec_components()) {
                Err(e) => r == Err::<(), WorldError>(WorldError::Plan(e)) && *final(self) == *old(self),
                Ok(_) => {
                    let s = final(self).stores().last();
                    &&& r is Ok
                    &&& final(self).arch_ids() == old(self).arch_ids().push(layout.spec_id())
                    &&& final(self).stores().drop_last() == old(self).stores()
                    &&& final(self).pendings() == old(self).pendings().push(Seq::empty())
                    &&& s.spec_len() == 0
                    &&& s.ids().pages_view().len() == 0
                    &&& s.has_room()
                    &&& s.spec_plan().layout.spec_components() == layout.spec_components()
                    &&& s.spec_plan().layout.spec_id() == layout.spec_id()
                    &&& fresh_columns(s, registry.entries(), layout.spec_components())
                    &&& final(self).index_view() == index_add_all(old(self).index_view(), layout.spec_components(), layout.spec_id())
                    &&& final(self).gens() == old(self).gens()
                    &&& final(self).locs() == old(self).locs()
                    &&& final(self).free() == old(self).free()
                    &&& final(self).live() == old(self).live()
                    &&& final(self).registry() == old(self).registry()
                    &&& final(self).budget() == old(self).budget()
                },
            },
    {
        proof {
            self.lemma_views();
        }
        let archetype_id = layout.id();
        match self.find_storage(archetype_id) {
            Some(k) => {
                proof {
                    assert(self.arch_ids()[k as int] == archetype_id);
                }
                return Ok(());
            },
            None => {
                proof {
                    if self.arch_ids().contains(archetype_id) {
                        let c = choose|c: int| 0 <= c < self.arch_ids().len() && self.arch_ids()[c] == archetype_id;
                        assert(self.storages@[c].0 == archetype_id);
                    }
                }
            },
        }
        let plan = match plan_archetype(registry, layout.duplicate(), self.page_budget) {
            Ok(p) => p,
            Err(e) => {
                return Err(WorldError::Plan(e));
            },
        };
        let component_ids = crate::ecs::ids::copy_ids(layout.components());
        proof {
            assert forall|i: int| 0 <= i < plan.columns@.len() implies plan.rows_per_page * (#[trigger] plan.columns@[i]).meta.stride <= usize::MAX by {
            }
        }
        let ghost pl = plan;
        let storage = ArchetypeStorage::from_plan(plan);
        proof {
            assert forall|i: int| 0 <= i < layout.spec_components().len() implies {
                &&& (#[trigger] storage.cols()[i]).spec_plan().component_id == layout.spec_components()[i]
                &&& storage.cols()[i].spec_stride() == registry.entries()[layout.spec_components()[i] as int].stride
                &&& storage.cols()[i].spec_len() == 0
            } by {
                assert(storage.cols()[i].wf());
                storage.cols()[i].lemma_stride();
                assert(meta_eq(storage.cols()[i].spec_plan().meta, pl.columns@[i].meta));
            }
        }
        let ghost before = *self;
        self.storages.push((archetype_id, ArchetypeEntry { storage, pending_despawns: Vec::new() }));
        proof {
            self.lemma_views();
            before.lemma_views();
            assert(self.arch_ids() =~= before.arch_ids().push(archetype_id));
            assert(self.stores().drop_last() =~= before.stores());
            assert(self.pendings() =~= before.pendings().push(Seq::empty()));
            assert(self.gens() =~= before.gens());
            assert(self.locs() =~= before.locs());
            assert(self.free() =~= before.free());
            assert(self.index_view() =~= before.index_view());
            assert(self.stores().last() == storage);
            assert forall|k: int| 0 <= k < self.stores().len() implies (#[trigger] self.stores()[k]).wf() by {
                if k < before.stores().len() {
                    assert(self.stores()[k] == before.stores()[k]);
                }
            }
            assert(self.arch_ids().no_duplicates()) by {
                assert forall|x: int, y: int| 0 <= x < y < self.arch_ids().len() implies self.arch_ids()[x] != self.arch_ids()[y] by {
                    if y == before.arch_ids().len() {
                        assert(self.arch_ids()[x] == before.arch_ids()[x]);
                        assert(before.arch_ids().contains(before.arch_ids()[x]));
                    } else {
                        assert(self.arch_ids()[x] == before.arch_ids()[x]);
                        assert(self.arch_ids()[y] == before.arch_ids()[y]);
                    }
                }
            }
            assert forall|i: int| 0 <= i < self.locs().len() && (#[trigger] self.locs()[i]) is Some implies self.arch_ids().contains(
                self.locs()[i]->Some_0.archetype,
            ) by {
                assert(before.locs()[i] is Some);
                let c = choose|c: int| 0 <= c < before.arch_ids().len() && before.arch_ids()[c] == before.locs()[i]->Some_0.archetype;
                assert(self.arch_ids()[c] == before.arch_ids()[c]);
            }
        }
        let ghost mid = *self;
        let n = component_ids.len();
        let mut j: usize = 0;
        while j < n
            invariant
                j <= n,
                n == component_ids@.len(),
                component_ids@ == layout.spec_components(),
                self.wf(),
                self.index_view() == index_add_all(mid.index_view(), component_ids@.take(j as int), archetype_id),
                self.gens() == mid.gens(),
                self.locs() == mid.locs(),
                self.free() == mid.free(),
                self.arch_ids() == mid.arch_ids(),
                self.stores() == mid.stores(),
                self.pendings() == mid.pendings(),
                self.live() == mid.live(),
                self.registry() == mid.registry(),
                self.budget() == mid.budget(),
            decreases n - j,
        {
            proof {
                assert(component_ids@.take(j + 1).drop_last() =~= component_ids@.take(j as int));
            }
            self.index_component(component_ids[j], archetype_id);
            j = j + 1;
        }
        proof {
            assert(component_ids@.take(n as int) =~= component_ids@);
            let st = self.stores().last();
            assert(st == storage);
            assert(st.spec_len() == 0);
            assert(st.ids().pages_view().len() == 0);
            let rpp = st.ids().spec_rows_per_page() as int;
            let pl = st.ids().pages_view().len() as int;
            assert((pl + 1) * rpp <= usize::MAX) by (nonlinear_arith)
                requires pl == 0, rpp <= usize::MAX;
            assert(st.has_room());
            assert(st.spec_plan().layout.spec_components() == layout.spec_components());
            assert(st.spec_plan().layout.spec_id() == layout.spec_id());
            assert(self.arch_ids() == old(self).arch_ids().push(layout.spec_id()));
            assert(self.stores().drop_last() == old(self).stores());
            assert(self.pendings() == old(self).pendings().push(Seq::empty()));
            assert(self.index_view() == index_add_all(old(self).index_view(), layout.spec_components(), layout.spec_id()));
        }
        Ok(())
    }

    /// Views of `self` are those of `o` but for the storage at `k`, which
    /// is well formed.
    proof fn lemma_store_changed(&self, o: &World, k: int)
        requires
            o.wf(),
            0 <= k < o.storages@.len(),
            self.storages@.len() == o.storages@.len(),
            forall|j: int| 0 <= j < o.storages@.len() && j != k ==> #[trigger] self.storages@[j] == o.storages@[j],
            self.storages@[k].0 == o.storages@[k].0,
            self.storages@[k].1.pending_despawns@ == o.storages@[k].1.pending_despawns@,
            self.storages@[k].1.storage.wf(),
            self.slots == o.slots,
            self.free_list == o.free_list,
            self.systems == o.systems,
            self.page_budget == o.page_budget,
            self.component_index == o.component_index,
            self.live_count == o.live_count,
        ensures
            self.wf(),
            self.arch_ids() == o.arch_ids(),
            self.pendings() == o.pendings(),
            self.gens() == o.gens(),
            self.locs() == o.locs(),
            self.free() == o.free(),
            self.index_view() == o.index_view(),
            self.stores() == o.stores().update(k, self.storages@[k].1.storage),
    {
        self.lemma_views();
        o.lemma_views();
        assert(self.arch_ids() =~= o.arch_ids());
        assert(self.pendings() =~= o.pendings());
        assert(self.gens() =~= o.gens());
        assert(self.locs() =~= o.locs());
        assert(self.free() =~= o.free());
        assert(self.index_view() =~= o.index_view());
        assert(self.stores() =~= o.stores().update(k, self.storages@[k].1.storage));
        assert forall|j: int| 0 <= j < self.stores().len() implies (#[trigger] self.stores()[j]).wf() by {
            if j != k {
                assert(self.stores()[j] == o.stores()[j]);
            }
        }
    }

    proof fn lemma_entry_changed(&self, o: &World, k: int)
        requires
            o.wf(),
            0 <= k < o.storages@.len(),
            self.storages@.len() == o.storages@.len(),
            forall|j: int| 0 <= j < o.storages@.len() && j != k ==> #[trigger] self.storages@[j] == o.storages@[j],
            self.storages@[k].0 == o.storages@[k].0,
            self.storages@[k].1.storage.wf(),
            self.slots == o.slots,
            self.free_list == o.free_list,
            self.systems == o.systems,
            self.page_budget == o.page_budget,
            self.component_index == o.component_index,
            self.live_count == o.live_count,
        ensures
            self.wf(),
            self.arch_ids() == o.arch_ids(),
            self.pendings() == o.pendings().update(k, self.storages@[k].1.pending_despawns@),
            self.gens() == o.gens(),
            self.locs() == o.locs(),
            self.free() == o.free(),
            self.index_view() == o.index_view(),
            self.stores() == o.stores().update(k, self.storages@[k].1.storage),
    {
        self.lemma_views();
        o.lemma_views();
        assert(self.arch_ids() =~= o.arch_ids());
        assert(self.pendings() =~= o.pendings().update(k, self.storages@[k].1.pending_despawns@));
        assert(self.gens() =~= o.gens());
        assert(self.locs() =~= o.locs());
        assert(self.free() =~= o.free());
        assert(self.index_view() =~= o.index_view());
        assert(self.stores() =~= o.stores().update(k, self.storages@[k].1.storage));
        assert forall|j: int| 0 <= j < self.stores().len() implies (#[trigger] self.stores()[j]).wf() by {
            if j != k {
                assert(self.stores()[j] == o.stores()[j]);
            }
        }
    }

    /// The slot a new entity takes: the most recently freed one, or a new
    /// slot at the end.
    pub open spec fn next_slot(&self) -> int {
        if self.free().len() > 0 {
            self.free().last() as int
        } else {
            self.gens().len() as int
        }
    }

    /// Why `spawn` refuses an entity before touching any storage, if it does:
    /// a builder error, a layout that cannot be planned for a new archetype,
    /// or no entity index left.
    pub open spec fn spawn_refusal(&self, reg: Seq<ComponentMeta>, entries: Seq<ComponentBytes>) -> Option<WorldError> {
        let ids = ids_of(entries);
        if first_error(reg, entries) is Some {
            Some(WorldError::Builder(first_error(reg, entries)->Some_0))
        } else if !self.arch_ids().contains(archetype_hash(ids)) && scan_row_bytes(reg, ids) is Err {
            Some(WorldError::Plan(scan_row_bytes(reg, ids)->Err_0))
        } else if self.free().len() == 0 && self.gens().len() > u32::MAX {
            Some(WorldError::EntityIndexOverflow { index: self.gens().len() as usize })
        } else {
            None
        }
    }

    /// What a successful spawn changes keeps slots and storages in
    /// agreement: storage `k` (an old one, or one appended) stays dense and
    /// keeps its old rows, and slot `idx` is the only slot that moves, to a
    /// row that records it.
    proof fn lemma_spawn_keeps_consistent(o: World, f: World, k: int, idx: int)
        requires
            o.wf(),
            o.consistent(),
            f.wf(),
            f.arch_ids() == o.arch_ids() || (f.arch_ids() == o.arch_ids().push(f.arch_ids().last())
                && k == o.arch_ids().len()),
            0 <= k < f.arch_ids().len(),
            f.stores().len() == f.arch_ids().len(),
            forall|c: int| 0 <= c < o.stores().len() && c != k ==> #[trigger] f.stores()[c] == o.stores()[c],
            forall|c: int| 0 <= c < o.pendings().len() ==> #[trigger] f.pendings()[c] == o.pendings()[c],
            k == o.arch_ids().len() ==> f.pendings()[k].len() == 0,
            dense(f.stores()[k]),
            k < o.stores().len() ==> {
                &&& f.stores()[k].spec_len() >= o.stores()[k].spec_len()
                &&& forall|x: int| 0 <= x < o.stores()[k].spec_len() ==> #[trigger] f.stores()[k].ids().slot(x)
                    == o.stores()[k].ids().slot(x)
            },
            f.locs().len() >= o.locs().len(),
            forall|j: int| 0 <= j < o.locs().len() && j != idx ==> #[trigger] f.locs()[j] == o.locs()[j],
            forall|j: int| o.locs().len() <= j < f.locs().len() && j != idx ==> (#[trigger] f.locs()[j]) is None,
            0 <= idx < f.locs().len(),
            idx <= u32::MAX,
            f.locs()[idx] matches Some(l) && l.archetype == f.arch_ids()[k] && Self::row_holds(f.stores()[k], l.row as int, idx),
            idx == o.next_slot(),
            f.gens().len() >= o.gens().len(),
            f.stores()[k].spec_len() == (if k < o.stores().len() { o.stores()[k].spec_len() } else { 0 }) + 1,
            f.locs()[idx]->Some_0.row == (if k < o.stores().len() { o.stores()[k].spec_len() } else { 0 }),
            f.live() == o.live() + 1,
            f.free() == (if o.free().len() > 0 { o.free().drop_last() } else { o.free() }),
            f.locs() == (if o.free().len() > 0 { o.locs() } else { o.locs().push(None) }).update(idx, f.locs()[idx]),
        ensures
            f.consistent(),
    {
        let m = if o.free().len() > 0 { o.locs() } else { o.locs().push(None) };
        assert(m[idx] is None) by {
            if o.free().len() > 0 {
                assert(o.locs()[o.free()[o.free().len() - 1] as int] is None);
            }
        }
        lemma_live_slots_update(m, idx, f.locs()[idx]);
        assert forall|c: int, row: int| 0 <= c < f.stores().len() && 0 <= row < f.stores()[c].spec_len()
            implies (#[trigger] f.stores()[c].ids().slot(row) matches Some(i) && i < f.gens().len()) by {
            if c != k {
                assert(f.stores()[c] == o.stores()[c]);
                assert(o.stores()[c].ids().slot(row) matches Some(i) && i < o.gens().len());
            } else if k < o.stores().len() && row < o.stores()[k].spec_len() {
                assert(o.stores()[k].ids().slot(row) matches Some(i) && i < o.gens().len());
            } else {
                assert(row == f.locs()[idx]->Some_0.row);
                assert(Self::row_holds(f.stores()[k], row, idx));
            }
        }
        if o.free().len() == 0 {
            assert(m.drop_last() =~= o.locs());
        }
        assert forall|j: int| 0 <= j < f.free().len() implies (#[trigger] f.locs()[f.free()[j] as int]) is None by {
            assert(f.free()[j] == o.free()[j]);
            assert(o.locs()[o.free()[j] as int] is None);
            if o.free().len() > 0 {
                assert(o.free()[j] != o.free()[o.free().len() - 1]);
            }
        }
        lemma_position_of(f.arch_ids(), k);
        assert forall|c: int| 0 <= c < f.stores().len() implies dense(#[trigger] f.stores()[c]) by {
            if c != k {
                assert(f.stores()[c] == o.stores()[c]);
            }
        }
        assert forall|c: int, j: int|
            0 <= c < f.pendings().len() && 0 <= j < f.pendings()[c].len() implies (#[trigger] f.pendings()[c][j])
                < f.stores()[c].spec_len() by {
            if c < o.pendings().len() {
                assert(f.pendings()[c] == o.pendings()[c]);
                assert(o.pendings()[c][j] < o.stores()[c].spec_len());
            }
        }
        assert forall|i: int| 0 <= i < f.locs().len() && (#[trigger] f.locs()[i]) is Some implies {
            let l = f.locs()[i]->Some_0;
            Self::row_holds(f.stores()[position_of(f.arch_ids(), l.archetype)->Some_0], l.row as int, i)
        } by {
            if i != idx {
                assert(i < o.locs().len());
                assert(o.locs()[i] is Some);
                let l = o.locs()[i]->Some_0;
                assert(o.arch_ids().contains(l.archetype));
                let c = choose|c: int| 0 <= c < o.arch_ids().len() && o.arch_ids()[c] == l.archetype;
                lemma_position_of(o.arch_ids(), c);
                if f.arch_ids() != o.arch_ids() {
                    lemma_position_of_push(o.arch_ids(), f.arch_ids().last(), l.archetype);
                }
                assert(position_of(f.arch_ids(), l.archetype) == Some(c));
                assert(Self::row_holds(o.stores()[c], l.row as int, i));
                if c != k {
                    assert(f.stores()[c] == o.stores()[c]);
                } else {
                    assert(f.stores()[k].ids().slot(l.row as int) == o.stores()[k].ids().slot(l.row as int));
                }
            }
        }
        let lk: int = if k < o.stores().len() { o.stores()[k].spec_len() as int } else { 0 };
        let l = f.locs()[idx]->Some_0;
        assert(l.row as int == lk);
        assert(f.stores()[k].ids().slot(lk) == Some(idx as u32));
        assert(forall|x: int| 0 <= x < o.locs().len() && o.locs()[x] is Some ==> x != idx) by {
            if o.free().len() > 0 {
                assert(o.locs()[o.free()[o.free().len() - 1] as int] is None);
            }
        }
        assert forall|c: int, row: int| 0 <= c < f.stores().len() && 0 <= row < f.stores()[c].spec_len() implies #[trigger] row_accounted(
            f.stores()[c].ids(),
            f.pendings()[c],
            f.arch_ids()[c],
            f.locs(),
            row,
        ) by {
            if c == k && row == lk {
            } else {
                assert(c < o.stores().len());
                assert(row < o.stores()[c].spec_len());
                assert(row_accounted(o.stores()[c].ids(), o.pendings()[c], o.arch_ids()[c], o.locs(), row));
                assert(f.stores()[c].ids().slot(row) == o.stores()[c].ids().slot(row)) by {
                    if c != k {
                        assert(f.stores()[c] == o.stores()[c]);
                    }
                }
                assert(f.arch_ids()[c] == o.arch_ids()[c]);
                assert(f.pendings()[c] == o.pendings()[c]);
                let x = o.stores()[c].ids().slot(row)->Some_0;
                if !waits(o.pendings()[c], row) {
                    assert(o.locs()[x as int] is Some);
                    assert(x as int != idx);
                    assert(f.locs()[x as int] == o.locs()[x as int]);
                } else {
                    let q = choose|q: int| 0 <= q < o.pendings()[c].len() && #[trigger] o.pendings()[c][q] as int == row;
                    assert(f.pendings()[c][q] as int == row);
                }
            }
        }
        assert forall|c: int, j: int| 0 <= c < f.pendings().len() && 0 <= j < f.pendings()[c].len() implies #[trigger] pending_dead(
            f.stores()[c].ids(),
            f.locs(),
            f.free(),
            f.pendings()[c][j] as int,
        ) by {
            assert(c < o.pendings().len());
            assert(f.pendings()[c] == o.pendings()[c]);
            assert(pending_dead(o.stores()[c].ids(), o.locs(), o.free(), o.pendings()[c][j] as int));
            assert(o.pendings()[c][j] < o.stores()[c].spec_len());
            let row = o.pendings()[c][j] as int;
            assert(f.stores()[c].ids().slot(row) == o.stores()[c].ids().slot(row)) by {
                if c != k {
                    assert(f.stores()[c] == o.stores()[c]);
                }
            }
            let x = o.stores()[c].ids().slot(row)->Some_0;
            assert(x as int != idx) by {
                if o.free().len() > 0 {
                    assert(o.free()[o.free().len() - 1] as int == idx);
                    assert(o.free().contains(o.free()[o.free().len() - 1]));
                }
            }
            assert(f.locs()[x as int] == o.locs()[x as int]);
            assert(!f.free().contains(x)) by {
                if f.free().contains(x) {
                    let q = choose|q: int| 0 <= q < f.free().len() && f.free()[q] == x;
                    assert(o.free()[q] == x);
                }
            }
        }
        assert forall|k1: int, j1: int, k2: int, j2: int|
            0 <= k1 < f.pendings().len() && 0 <= j1 < f.pendings()[k1].len() && 0 <= k2 < f.pendings().len() && 0 <= j2
                < f.pendings()[k2].len() && #[trigger] f.stores()[k1].ids().slot(f.pendings()[k1][j1] as int)
                == #[trigger] f.stores()[k2].ids().slot(f.pendings()[k2][j2] as int) implies k1 == k2 && f.pendings()[k1][j1]
            == f.pendings()[k2][j2] by {
            assert(k1 < o.pendings().len() && k2 < o.pendings().len());
            assert(f.pendings()[k1] == o.pendings()[k1] && f.pendings()[k2] == o.pendings()[k2]);
            assert(o.pendings()[k1][j1] < o.stores()[k1].spec_len());
            assert(o.pendings()[k2][j2] < o.stores()[k2].spec_len());
            assert(f.stores()[k1].ids().slot(o.pendings()[k1][j1] as int) == o.stores()[k1].ids().slot(o.pendings()[k1][j1] as int)) by {
                if k1 != k {
                    assert(f.stores()[k1] == o.stores()[k1]);
                }
            }
            assert(f.stores()[k2].ids().slot(o.pendings()[k2][j2] as int) == o.stores()[k2].ids().slot(o.pendings()[k2][j2] as int)) by {
                if k2 != k {
                    assert(f.stores()[k2] == o.stores()[k2]);
                }
            }
        }
    }

    /// Spawn the entity described by `builder`: check its components
    /// against `registry`, create the storage of its archetype if needed,
    /// take a slot (the most recently freed, else a new one), append a row
    /// and write each component's bytes into both buffers.
    #[verifier::rlimit(40)]
    #[verifier::spinoff_prover]
    pub fn spawn(&mut self, registry: &ComponentRegistry, builder: EntityBuilder) -> (r: Result<Entity, WorldError>)
        requires
            old(self).wf(),
            registry.wf(),
            builder.wf(),
            old(self).live() < usize::MAX,
            forall|k: int| 0 <= k < old(self).stores().len() ==> (#[trigger] old(self).stores()[k]).has_room(),
        ensures
            final(self).wf(),
            old(self).spawn_refusal(registry.entries(), builder.entries()) matches Some(e) ==> {
                &&& r == Err::<Entity, WorldError>(e)
                &&& (e !is EntityIndexOverflow ==> *final(self) == *old(self))
            },
            old(self).spawn_refusal(registry.entries(), builder.entries()) is None ==> (r is Ok || r matches Err(
                WorldError::Storage(_),
            )),
            old(self).spawn_refusal(registry.entries(), builder.entries()) is None && (old(self).arch_ids().contains(
                archetype_hash(ids_of(builder.entries())),
            ) ==> spawn_ready(
                old(self).stores()[position_of(old(self).arch_ids(), archetype_hash(ids_of(builder.entries())))->Some_0],
                builder.entries(),
            )) ==> r is Ok,
            old(self).consistent() && old(self).spawn_refusal(registry.entries(), builder.entries()) is None && (
            old(self).arch_ids().contains(archetype_hash(ids_of(builder.entries()))) ==> storage_accepts(
                old(self).stores()[position_of(old(self).arch_ids(), archetype_hash(ids_of(builder.entries())))->Some_0],
                builder.entries(),
            )) ==> r is Ok,
            old(self).consistent() && r is Ok ==> final(self).consistent(),
            r matches Ok(e) ==> spawned_row(*final(self), e, builder.entries()),
            r matches Ok(e) ==> ({
                let aid = archetype_hash(ids_of(builder.entries()));
                let l = final(self).locs()[bits_index(e.0) as int]->Some_0;
                let st = final(self).stores()[position_of(final(self).arch_ids(), aid)->Some_0];
                if old(self).arch_ids().contains(aid) {
                    let s0 = old(self).stores()[position_of(old(self).arch_ids(), aid)->Some_0];
                    &&& st.spec_len() == s0.spec_len() + 1
                    &&& (dense(s0) || old(self).consistent()) ==> l.row == s0.spec_len()
                } else {
                    &&& st.spec_len() == 1
                    &&& l.row == 0
                }
            }),
            r matches Ok(e) ==> {
                let aid = archetype_hash(ids_of(builder.entries()));
                let idx = old(self).next_slot();
                &&& bits_index(e.0) == idx
                &&& idx < final(self).gens().len()
                &&& bits_generation(e.0) == final(self).gens()[idx]
                &&& (idx < old(self).gens().len() ==> final(self).gens()[idx] == old(self).gens()[idx])
                &&& final(self).locs()[idx] matches Some(l) && l.archetype == aid
                &&& final(self).live() == old(self).live() + 1
                &&& final(self).arch_ids().contains(aid)
                &&& final(self).arch_ids() == (if old(self).arch_ids().contains(aid) {
                    old(self).arch_ids()
                } else {
                    old(self).arch_ids().push(aid)
                })
                &&& final(self).index_view() == (if old(self).arch_ids().contains(aid) {
                    old(self).index_view()
                } else {
                    index_add_all(old(self).index_view(), ids_of(builder.entries()), aid)
                })
                &&& (old(self).free().len() > 0 ==> final(self).gens().len() == old(self).gens().len()
                    && final(self).free() == old(self).free().drop_last())
                &&& (old(self).free().len() == 0 ==> final(self).gens().len() == old(self).gens().len() + 1
                    && final(self).free() == old(self).free())
            },
            r matches Ok(e) ==> final(self).locate_result(e) matches Ok(loc) && loc.archetype == archetype_hash(
                ids_of(builder.entries()),
            ),
    {
        let ghost bent = builder.entries();
        proof {
            let aid = archetype_hash(ids_of(bent));
            if old(self).consistent() && old(self).arch_ids().contains(aid) {
                let c = choose|c: int| 0 <= c < old(self).arch_ids().len() && old(self).arch_ids()[c] == aid;
                lemma_position_of(old(self).arch_ids(), c);
                assert(dense(old(self).stores()[c]));
            }
        }
        let blueprint = match builder.build(registry) {
            Ok(b) => b,
            Err(e) => {
                return Err(WorldError::Builder(e));
            },
        };
        let archetype_id = blueprint.layout().id();
        match self.ensure_archetype_exists(registry, blueprint.layout()) {
            Ok(()) => {},
            Err(e) => {
                return Err(e);
            },
        }
        proof {
            if !old(self).arch_ids().contains(archetype_id) {
                assert(self.arch_ids()[self.arch_ids().len() - 1] == archetype_id);
            }
            assert(self.arch_ids().contains(archetype_id));
        }
        let ghost w1 = *self;
        proof {
            w1.lemma_views();
            assert forall|k: int| 0 <= k < w1.stores().len() implies (#[trigger] w1.stores()[k]).has_room() by {
                if k < old(self).stores().len() {
                    if !old(self).arch_ids().contains(archetype_id) {
                        assert(w1.stores().drop_last()[k] == old(self).stores()[k]);
                    }
                }
            }
        }
        let (entity, entity_id) = match self.allocate_entity() {
            Ok(p) => p,
            Err(e) => {
                return Err(e);
            },
        };
        let k = match self.find_storage(archetype_id) {
            Some(k) => k,
            None => {
                proof {
                    self.lemma_views();
                    let c = choose|c: int| 0 <= c < self.arch_ids().len() && self.arch_ids()[c] == archetype_id;
                    assert(self.storages@[c].0 == archetype_id);
                }
                return Err(WorldError::MissingArchetype { archetype_id });
            },
        };
        let ghost w2 = *self;
        proof {
            crate::ecs::entity::law_entity_fields_round_trip(entity_id, w2.gens()[entity_id as int]);
            assert(entity_id as int == old(self).next_slot());
            assert(bits_index(entity.0) == entity_id);
            assert(bits_generation(entity.0) == w2.gens()[entity_id as int]);
            assert((entity_id as int) < w2.gens().len());
            self.lemma_views();
            assert(self.stores()[k as int].has_room());
            assert(self.stores()[k as int] == self.storages@[k as int].1.storage);
        }
        let ghost s0 = w2.stores()[k as int];
        let ghost ready = spawn_ready(s0, bent);
        let ghost hyp = old(self).spawn_refusal(registry.entries(), bent) is None && (old(self).arch_ids().contains(
            archetype_id,
        ) ==> spawn_ready(old(self).stores()[position_of(old(self).arch_ids(), archetype_id)->Some_0], bent));
        proof {
            let aid = archetype_id;
            assert(w2.arch_ids()[k as int] == aid);
            lemma_position_of(w2.arch_ids(), k as int);
            if old(self).arch_ids().contains(aid) {
                assert(w1 == *old(self));
                assert(s0 == old(self).stores()[position_of(old(self).arch_ids(), aid)->Some_0]);
            } else {
                assert(k as int == w1.stores().len() - 1);
                assert(fresh_columns(s0, registry.entries(), ids_of(bent)));
                s0.ids().lemma_rpp_positive();
                assert(s0.ids().pages_view() =~= Seq::<Seq<Option<EntityId>>>::empty());
                assert(dense(s0));
                assert(ready) by {
                    assert forall|j: int| 0 <= j < bent.len() implies {
                        &&& column_index(s0.cols(), (#[trigger] bent[j]).spec_component_id()) is Some
                        &&& bent[j].spec_bytes().len() == s0.cols()[column_index(s0.cols(), bent[j].spec_component_id())->Some_0].spec_stride()
                    } by {
                        lemma_column_index_sorted(s0.cols(), ids_of(bent), j);
                        lemma_first_error_none(registry.entries(), bent, j);
                    }
                }
            }
            assert(hyp ==> ready);
        }
        let row = match self.storages[k].1.storage.alloc_row(entity_id) {
            Ok(row) => row,
            Err(e) => {
                proof {
                    self.lemma_store_changed(&w2, k as int);
                }
                return Err(WorldError::Storage(e));
            },
        };
        proof {
            self.lemma_store_changed(&w2, k as int);
        }
        let ghost s1 = self.storages@[k as int].1.storage;
        proof {
            let rpp = s0.ids().spec_rows_per_page() as nat;
            if dense(s0) {
                crate::pool::packed::lemma_packed_target(s0.ids().pages_view(), rpp, s0.spec_len());
                assert(row == s0.spec_len());
            }
            assert forall|c: int| 0 <= c < s1.cols().len() implies (#[trigger] s1.cols()[c]).spec_plan().component_id
                == s0.cols()[c].spec_plan().component_id by {
                assert(col_grew_one(s0.cols()[c], s1.cols()[c]));
            }
        }
        let comps = blueprint.components();
        let mut i: usize = 0;
        while i < comps.len()
            invariant
                i <= comps@.len(),
                k < self.storages@.len(),
                self.storages@.len() == w2.storages@.len(),
                forall|j: int| 0 <= j < w2.storages@.len() && j != k ==> #[trigger] self.storages@[j] == w2.storages@[j],
                self.storages@[k as int].0 == w2.storages@[k as int].0,
                self.storages@[k as int].1.pending_despawns@ == w2.storages@[k as int].1.pending_despawns@,
                self.storages@[k as int].1.storage.wf(),
                self.slots == w2.slots,
                self.free_list == w2.free_list,
                self.systems == w2.systems,
                self.page_budget == w2.page_budget,
                self.component_index == w2.component_index,
                self.live_count == w2.live_count,
                w2.wf(),
                comps@ == bent,
                strictly_sorted(ids_of(bent)),
                ({
                    let st = self.storages@[k as int].1.storage;
                    &&& st.spec_len() == s1.spec_len()
                    &&& st.ids() == s1.ids()
                    &&& st.cols().len() == s1.cols().len()
                    &&& forall|c: int| 0 <= c < s1.cols().len() ==> {
                        &&& (#[trigger] st.cols()[c]).spec_plan() == s1.cols()[c].spec_plan()
                        &&& st.cols()[c].spec_stride() == s1.cols()[c].spec_stride()
                        &&& st.cols()[c].spec_len() == s1.cols()[c].spec_len()
                        &&& st.cols()[c].spec_rows_per_page() == s1.cols()[c].spec_rows_per_page()
                    }
                    &&& forall|j: int| 0 <= j < i ==> {
                        &&& column_index(st.cols(), (#[trigger] bent[j]).spec_component_id()) is Some
                        &&& st.cols()[column_index(st.cols(), bent[j].spec_component_id())->Some_0].cur_row(row as int)
                            == bent[j].spec_bytes()
                    }
                }),
                ready ==> storage_accepts(s0, bent) && dense(s0) && row == s0.spec_len(),
                hyp ==> ready,
                hyp == (old(self).spawn_refusal(registry.entries(), bent) is None && (old(self).arch_ids().contains(
                    archetype_id,
                ) ==> spawn_ready(old(self).stores()[position_of(old(self).arch_ids(), archetype_id)->Some_0], bent))),
                s1.cols().len() == s0.cols().len(),
                forall|c: int| 0 <= c < s1.cols().len() ==> (#[trigger] s1.cols()[c]).spec_plan().component_id
                    == s0.cols()[c].spec_plan().component_id,
                forall|c: int| 0 <= c < s1.cols().len() ==> col_grew_one(s0.cols()[c], #[trigger] s1.cols()[c]),
                old(self).spawn_refusal(registry.entries(), bent) is None,
                bent == builder.entries(),
                archetype_id == archetype_hash(ids_of(bent)),
            decreases comps@.len() - i,
        {
            let c = &comps[i];
            let ghost st0 = self.storages@[k as int].1.storage;
            proof {
                assert(bent[i as int] == *c);
                lemma_column_index_same(st0.cols(), s1.cols(), c.spec_component_id());
                lemma_column_index_same(s1.cols(), s0.cols(), c.spec_component_id());
                crate::ecs::storage::archetype_storage::lemma_column_index_in_range(st0.cols(), c.spec_component_id());
            }
            let res = self.storages[k].1.storage.write_component(c.component_id(), row, c.bytes(), None);
            let ghost st1 = self.storages@[k as int].1.storage;
            match res {
                Ok(()) => {},
                Err(e) => {
                    proof {
                        self.lemma_store_changed(&w2, k as int);
                        if ready {
                            let ci = column_index(s0.cols(), c.spec_component_id())->Some_0;
                            assert(storage_accepts(s0, bent));
                            assert(column_index(s0.cols(), bent[i as int].spec_component_id()) is Some);
                            assert(col_grew_one(s0.cols()[ci], s1.cols()[ci]));
                            assert(s0.cols()[ci].spec_len() == s0.spec_len());
                            assert(false);
                        }
                    }
                    return Err(WorldError::Storage(e));
                },
            }
            proof {
                let ci = column_index(st0.cols(), c.spec_component_id())->Some_0;
                crate::ecs::storage::column::lemma_row_after_write(st1.cols()[ci], st0.cols()[ci], row as int, c.spec_bytes());
                lemma_column_index_same(st1.cols(), st0.cols(), c.spec_component_id());
                assert forall|j: int| 0 <= j < i + 1 implies {
                    &&& column_index(st1.cols(), (#[trigger] bent[j]).spec_component_id()) is Some
                    &&& st1.cols()[column_index(st1.cols(), bent[j].spec_component_id())->Some_0].cur_row(row as int)
                        == bent[j].spec_bytes()
                } by {
                    lemma_column_index_same(st1.cols(), st0.cols(), bent[j].spec_component_id());
                    if j < i {
                        let cj = column_index(st0.cols(), bent[j].spec_component_id())->Some_0;
                        crate::ecs::storage::archetype_storage::lemma_column_index_in_range(st0.cols(), bent[j].spec_component_id());
                        assert(ids_of(bent)[j] < ids_of(bent)[i as int]);
                        assert(cj != ci);
                    }
                }
            }
            i = i + 1;
        }
        let ghost st2 = self.storages@[k as int].1.storage;
        proof {
            self.lemma_store_changed(&w2, k as int);
            assert(self.arch_ids()[k as int] == archetype_id);
            assert(self.stores()[k as int] == st2);
        }
        match self.record_location(entity_id, SlotLocation { archetype: archetype_id, row }) {
            Ok(()) => {},
            Err(e) => {
                return Err(e);
            },
        }
        self.live_count = self.live_count + 1;
        proof {
            self.lemma_views();
            assert(w2.gens()[entity_id as int] == self.gens()[entity_id as int]);
            assert(self.locs()[entity_id as int] == Some(SlotLocation { archetype: archetype_id, row }));
            assert(self.live() == old(self).live() + 1);
            assert(self.index_view() == w1.index_view());
            assert(self.arch_ids() == w1.arch_ids());
            assert(self.arch_ids().contains(archetype_id));
            assert forall|x: int| 0 <= x < self.stores().len() implies (#[trigger] self.stores()[x]).wf() by {
            }
            lemma_position_of(self.arch_ids(), k as int);
            assert(self.stores()[k as int] == st2);
            assert(bits_index(entity.0) == entity_id);
            assert(st2.ids().slot(row as int) == Some(entity_id));
            assert(st2.ids().allocated(row as int));
            let l = self.locs()[entity_id as int]->Some_0;
            assert(l.row == row && l.archetype == archetype_id);
            assert(position_of(self.arch_ids(), l.archetype) == Some(k as int));
            assert(i == bent.len());
            assert forall|j: int| 0 <= j < bent.len() implies {
                &&& column_index(st2.cols(), (#[trigger] bent[j]).spec_component_id()) is Some
                &&& st2.cols()[column_index(st2.cols(), bent[j].spec_component_id())->Some_0].cur_row(row as int)
                    == bent[j].spec_bytes()
            } by {
            }
            assert(spawned_row(*self, entity, bent));
            if old(self).consistent() {
                let o = *old(self);
                let f = *self;
                let rpp = s0.ids().spec_rows_per_page() as nat;
                if o.arch_ids().contains(archetype_id) {
                    lemma_position_of(w2.arch_ids(), k as int);
                    assert(s0 == o.stores()[k as int]);
                    assert(dense(s0));
                    assert(f.arch_ids() == o.arch_ids());
                } else {
                    assert(f.arch_ids() == o.arch_ids().push(archetype_id));
                    assert(w2.arch_ids()[o.arch_ids().len() as int] == archetype_id);
                    if (k as int) < o.arch_ids().len() {
                        assert(w2.arch_ids()[k as int] == o.arch_ids()[k as int]);
                        assert(o.arch_ids().contains(archetype_id));
                    }
                    assert(k as int == o.arch_ids().len());
                    assert(w1.pendings() == o.pendings().push(Seq::empty()));
                    assert(dense(s0));
                }
                let pv0 = s0.ids().pages_view();
                s0.ids().lemma_rows();
                crate::pool::packed::lemma_packed_target(pv0, rpp, s0.spec_len());
                let t = crate::pool::paged_pool::alloc_target(pv0, rpp);
                let ps = crate::pool::paged_pool::with_target_page(pv0, t);
                crate::pool::packed::lemma_packed_append(ps, rpp, s0.spec_len(), seq![Some(entity_id)]);
                assert(ps[t].push(Some(entity_id)) =~= ps[t] + seq![Some(entity_id)]);
                assert(st2.ids() == s1.ids());
                st2.ids().lemma_rows();
                assert(dense(st2)) by {
                    assert forall|c: int| 0 <= c < st2.cols().len() implies (#[trigger] st2.cols()[c]).spec_len() == st2.spec_len() by {
                        assert(col_grew_one(s0.cols()[c], s1.cols()[c]));
                        assert(s0.cols()[c].spec_len() == s0.spec_len());
                    }
                }
                assert forall|x: int| 0 <= x < s0.spec_len() implies #[trigger] st2.ids().slot(x) == s0.ids().slot(x) by {
                    assert(crate::pool::packed::flat(st2.ids().pages_view())[x] == crate::pool::packed::flat(pv0)[x]);
                }
                assert(row == s0.spec_len());
                assert(Self::row_holds(st2, row as int, entity_id as int));
                assert forall|c: int| 0 <= c < o.stores().len() && c != k as int implies #[trigger] f.stores()[c] == o.stores()[c] by {
                    assert(f.stores()[c] == w2.stores()[c]);
                    if !o.arch_ids().contains(archetype_id) {
                        assert(w1.stores().drop_last()[c] == w1.stores()[c]);
                    }
                }
                assert forall|c: int| 0 <= c < o.pendings().len() implies #[trigger] f.pendings()[c] == o.pendings()[c] by {
                    if !o.arch_ids().contains(archetype_id) {
                        assert(w1.pendings()[c] == o.pendings().push(Seq::empty())[c]);
                    }
                }
                assert forall|j: int| 0 <= j < o.locs().len() && j != entity_id as int implies #[trigger] f.locs()[j] == o.locs()[j] by {
                    if o.free().len() == 0 {
                        assert(w2.locs()[j] == w1.locs().push(None)[j]);
                    }
                }
                assert(f.locs() =~= (if o.free().len() > 0 { o.locs() } else { o.locs().push(None) }).update(
                    entity_id as int,
                    f.locs()[entity_id as int],
                ));
                Self::lemma_spawn_keeps_consistent(o, f, k as int, entity_id as int);
            }
            if old(self).arch_ids().contains(archetype_id) {
                lemma_position_of(w2.arch_ids(), k as int);
                assert(s0 == old(self).stores()[position_of(old(self).arch_ids(), archetype_id)->Some_0]);
                if dense(s0) {
                    crate::pool::packed::lemma_packed_target(s0.ids().pages_view(), s0.ids().spec_rows_per_page() as nat, s0.spec_len());
                }
            } else {
                assert(s0.spec_len() == 0);
                s0.ids().lemma_rpp_positive();
                assert(s0.ids().pages_view() =~= Seq::<Seq<Option<EntityId>>>::empty());
                crate::pool::packed::lemma_packed_target(s0.ids().pages_view(), s0.ids().spec_rows_per_page() as nat, 0);
            }
        }
        Ok(entity)
    }

    /// Free the rows waiting in storage `k`: each row once, in ascending
    /// order. Their entities' slots get a new generation and go on the free
    /// list, and entities moved into freed rows get their new row.
    fn flush_archetype(&mut self, k: usize) -> (r: Result<(), WorldError>)
        requires
            old(self).wf(),
            k < old(self).arch_ids().len(),
        ensures
            flush_frame(*final(self), *old(self), k as int),
            locations_kept(old(self).locs(), final(self).locs()),
            old(self).pendings()[k as int].len() == 0 ==> r is Ok && *final(self) == *old(self),
            r is Ok ==> {
                let v = victims_of(old(self).stores()[k as int], old(self).pendings()[k as int]);
                &&& final(self).pendings()[k as int].len() == 0
                &&& final(self).free() == old(self).free() + v
                &&& final(self).gens() == bump_all(old(self).gens(), v)
            },
            r is Ok ==> forall|i: int|
                0 <= i < final(self).locs().len() && #[trigger] final(self).locs()[i] != old(self).locs()[i]
                    ==> (final(self).locs()[i] matches Some(l) && id_row_records(final(self).stores()[k as int], l.row as int, i) && i <= u32::MAX),
            r is Ok ==> rows_freed(old(self).stores()[k as int], final(self).stores()[k as int], index_set(old(self).pendings()[k as int])),
            flushable(old(self).stores()[k as int], old(self).pendings()[k as int], old(self).gens().len()) ==> r is Ok,
            strictly_sorted_usize(index_set(old(self).pendings()[k as int])) && index_set(old(self).pendings()[k as int]).to_set()
                == old(self).pendings()[k as int].to_set(),
            dense(old(self).stores()[k as int]) && (forall|j: int|
                0 <= j < old(self).pendings()[k as int].len() ==> #[trigger] old(self).pendings()[k as int][j]
                    < old(self).stores()[k as int].spec_len()) && !chain_free(
                old(self).stores()[k as int].spec_len(),
                index_set(old(self).pendings()[k as int]),
            ) ==> r is Err,
            r is Ok && dense(old(self).stores()[k as int]) && (forall|j: int|
                0 <= j < old(self).pendings()[k as int].len() ==> #[trigger] old(self).pendings()[k as int][j]
                    < old(self).stores()[k as int].spec_len()) ==> forall|t: int|
                #[trigger] moved_into(old(self).stores()[k as int].spec_len(), index_set(old(self).pendings()[k as int]), t)
                    ==> recorded_at(*final(self), k as int, t),
    {
        proof {
            self.lemma_views();
        }
        if self.storages[k].1.pending_despawns.len() == 0 {
            proof {
                let e = Seq::<usize>::empty();
                assert(old(self).pendings()[k as int] =~= e);
                lemma_index_set_is(e, e);
                assert(victims_of(old(self).stores()[k as int], e) =~= Seq::<EntityId>::empty());
                assert(old(self).free() + Seq::<EntityId>::empty() =~= old(self).free());
                assert(bulk_row_moves(old(self).stores()[k as int].spec_len(), e) =~= Seq::<(usize, usize)>::empty());
            }
            return Ok(());
        }
        let archetype_id = self.storages[k].0;
        let ghost w0 = *self;
        let ghost p0 = old(self).pendings()[k as int];
        let ghost s0 = old(self).stores()[k as int];
        let ghost cond = dense(s0) && forall|j: int| 0 <= j < p0.len() ==> #[trigger] p0[j] < s0.spec_len();
        let ghost mv = bulk_row_moves(s0.spec_len(), index_set(p0));
        let ghost bad = cond && !chain_free(s0.spec_len(), index_set(p0));
        let mut pend = self.storages[k].1.take_pending();
        proof {
            self.lemma_entry_changed(&w0, k as int);
        }
        sort_indices(&mut pend);
        let rows = dedup_sorted(&pend);
        proof {
            assert forall|x: usize| p0.to_set().contains(x) implies rows@.to_set().contains(x) by {
                vstd::seq_lib::to_multiset_contains(pend@, x);
                vstd::seq_lib::to_multiset_contains(p0, x);
            }
            assert forall|x: usize| rows@.to_set().contains(x) implies p0.to_set().contains(x) by {
                vstd::seq_lib::to_multiset_contains(pend@, x);
                vstd::seq_lib::to_multiset_contains(p0, x);
            }
            assert(rows@.to_set() =~= p0.to_set());
            lemma_index_set_is(p0, rows@);
        }
        let ghost nslots = old(self).gens().len();
        let ghost ok = flushable(s0, p0, nslots);
        proof {
            if ok {
                lemma_flushable_rows(s0, p0, rows@, nslots);
            }
        }
        let ghost w1 = *self;
        let mut victims: Vec<EntityId> = Vec::new();
        let mut i: usize = 0;
        while i < rows.len()
            invariant
                ok == flushable(old(self).stores()[k as int], old(self).pendings()[k as int], old(self).gens().len()),
                i <= rows@.len(),
                *self == w1,
                flush_frame(w1, *old(self), k as int),
                p0 == old(self).pendings()[k as int],
                strictly_sorted_usize(index_set(p0)) && index_set(p0).to_set() == p0.to_set(),
                p0.len() > 0,
                w1.locs() == old(self).locs(),
                w1.gens() == old(self).gens(),
                w1.free() == old(self).free(),
                k < w1.storages@.len(),
                w1.storages@[k as int].0 == archetype_id,
                w1.storages@[k as int].1.storage == s0,
                s0.wf(),
                victims@ == rows@.take(i as int).map_values(|row: usize| s0.ids().slot(row as int)->Some_0),
                ok ==> forall|j: int| 0 <= j < rows@.len() ==> {
                    &&& s0.ids().allocated(#[trigger] rows@[j] as int)
                    &&& s0.ids().slot(rows@[j] as int) matches Some(x) && x < nslots
                },
            decreases rows@.len() - i,
        {
            match self.storages[k].1.storage.entity_id_at(rows[i]) {
                Ok(id) => {
                    proof {
                        assert(rows@.take(i + 1) =~= rows@.take(i as int).push(rows@[i as int]));
                    }
                    victims.push(id);
                },
                Err(e) => {
                    proof {
                        if ok {
                            s0.ids().lemma_rows();
                            assert(s0.ids().allocated(rows@[i as int] as int));
                            assert(false);
                        }
                    }
                    self.storages[k].1.set_pending(rows);
                    proof {
                        self.lemma_entry_changed(&w1, k as int);
                        assert forall|j: int| 0 <= j < old(self).stores().len() && j != k implies #[trigger] self.stores()[j]
                            == old(self).stores()[j] && self.pendings()[j] == old(self).pendings()[j] by {
                            assert(self.stores()[j] == w1.stores()[j]);
                            assert(self.pendings()[j] == w1.pendings()[j]);
                        }
                    }
                    return Err(WorldError::Storage(e));
                },
            }
            i = i + 1;
        }
        proof {
            assert(rows@.take(rows@.len() as int) =~= rows@);
            assert(victims@ == victims_of(s0, p0));
            if ok {
                assert forall|q: int| 0 <= q < victims@.len() implies ((#[trigger] victims@[q]) as int) < nslots by {
                    assert(victims@[q] == s0.ids().slot(rows@[q] as int)->Some_0);
                    assert(s0.ids().allocated(rows@[q] as int));
                }
            }
        }
        let cp = copy_indices(&rows);
        let res = self.storages[k].1.storage.free_bulk_swap_remove(cp);
        let ghost sa = self.storages@[k as int].1.storage;
        proof {
            if ok {
                let g = rows@;
                assert(p0.to_set().contains(p0[0]));
                assert(g.to_set().contains(p0[0]));
                let (sg, pm, rp, ms) = choose|sg: Seq<usize>, pm: Seq<(usize, usize)>, rp: Result<(), crate::pool::PoolError>, ms: Seq<Seq<(usize, usize)>>|
                    #[trigger] bulk_remove_result(s0, sa, g, res, sg, pm, rp, ms);
                lemma_flush_free_ok(s0, sa, p0, g, res, sg, pm, rp, ms, nslots);
            }
        }
        let moves = match res {
            Ok(m) => m,
            Err(e) => {
                proof {
                    if ok {
                        assert(false);
                    }
                }
                self.storages[k].1.set_pending(rows);
                proof {
                    self.lemma_entry_changed(&w1, k as int);
                }
                return Err(WorldError::Storage(e));
            },
        };
        proof {
            self.lemma_entry_changed(&w1, k as int);
            self.lemma_views();
            let g = rows@;
            assert(p0.to_set().contains(p0[0]));
            assert(g.to_set().contains(p0[0]));
            assert(g.len() > 0);
            let (sg, pm, rp, ms) = choose|sg: Seq<usize>, pm: Seq<(usize, usize)>, rp: Result<(), crate::pool::PoolError>, ms: Seq<Seq<(usize, usize)>>|
                #[trigger] bulk_remove_result(s0, sa, g, res, sg, pm, rp, ms);
            assert(bulk_remove_result(s0, sa, g, res, sg, pm, rp, ms));
            if cond {
                lemma_targets_reported(s0, sa, p0, g, res, sg, pm, rp, ms);
            }
            lemma_sorted_same(sg, g);
            assert(rp is Ok);
            let f = first_too_short(s0.cols(), index_set(g).last() as int);
            assert(f >= s0.cols().len());
            assert forall|i: int| 0 <= i < s0.cols().len() implies col_bulk_removed(
                s0.cols()[i],
                #[trigger] sa.cols()[i],
                g,
                bulk_row_moves(s0.cols()[i].spec_len(), index_set(g)).reverse(),
            ) by {
                assert(col_bulk_removed(s0.cols()[i], sa.cols()[i], g, ms[i]));
            }
            assert(rows_freed(s0, sa, g));
            if bad {
                lemma_freed_len(s0, sa, p0, g, res, sg, pm, rp, ms);
                let q = choose|q: int| 0 <= q < mv.len() && !((#[trigger] mv[q]).1 < s0.spec_len() - index_set(p0).len());
                assert(target_in(moves@, mv[q].1 as int));
                let pp = choose|pp: int| 0 <= pp < moves@.len() && #[trigger] moves@[pp].1 == mv[q].1 as int;
                assert(moves@[pp].1 >= sa.ids().spec_len());
            }
        }
        let ghost w2 = *self;
        let mut updates: Vec<(EntityId, usize)> = Vec::new();
        let mut j: usize = 0;
        while j < moves.len()
            invariant
                ok == flushable(old(self).stores()[k as int], old(self).pendings()[k as int], old(self).gens().len()),
                j <= moves@.len(),
                *self == w2,
                flush_frame(w2, *old(self), k as int),
                p0 == old(self).pendings()[k as int],
                strictly_sorted_usize(index_set(p0)) && index_set(p0).to_set() == p0.to_set(),
                p0.len() > 0,
                w2.locs() == old(self).locs(),
                k < w2.storages@.len(),
                w2.storages@[k as int].1.storage.wf(),
                w2.stores()[k as int] == w2.storages@[k as int].1.storage,
                updates@.len() == j,
                sa == w2.stores()[k as int],
                ok ==> forall|q: int| 0 <= q < moves@.len() ==> (#[trigger] moves@[q]).1 < sa.ids().spec_len(),
                ok ==> forall|t: int| 0 <= t < sa.ids().spec_len() ==> (#[trigger] sa.ids().slot(t) matches Some(x) && x < nslots),
                ok ==> forall|q: int| 0 <= q < updates@.len() ==> ((#[trigger] updates@[q]).0 as int) < nslots,
                forall|q: int| 0 <= q < updates@.len() ==> id_row_records(
                    w2.stores()[k as int],
                    (#[trigger] updates@[q]).1 as int,
                    updates@[q].0 as int,
                ),
                forall|q: int| 0 <= q < updates@.len() ==> (#[trigger] updates@[q]).1 == moves@[q].1,
                cond ==> covers_targets(moves@, mv),
                cond == (dense(s0) && forall|j: int| 0 <= j < p0.len() ==> #[trigger] p0[j] < s0.spec_len()),
                mv == bulk_row_moves(s0.spec_len(), index_set(p0)),
                s0 == old(self).stores()[k as int],
                bad == (cond && !chain_free(s0.spec_len(), index_set(p0))),
                bad ==> exists|pp: int| j <= pp < moves@.len() && (#[trigger] moves@[pp]).1 >= sa.ids().spec_len(),
            decreases moves@.len() - j,
        {
            let to = moves[j].1;
            match self.storages[k].1.storage.entity_id_at(to) {
                Ok(id) => {
                    proof {
                        let st = w2.stores()[k as int];
                        st.ids().lemma_rows();
                        assert(st.ids().allocated(to as int));
                        let rpp = st.ids().spec_rows_per_page() as int;
                        assert(st.ids().pages_view()[to as int / rpp][to as int % rpp] is Some);
                        assert(st.ids().slot(to as int) == Some(id));
                    }
                    proof {
                        if bad {
                            let pp = choose|pp: int| j <= pp < moves@.len() && (#[trigger] moves@[pp]).1 >= sa.ids().spec_len();
                            assert(pp != j);
                        }
                    }
                    updates.push((id, to));
                },
                Err(e) => {
                    proof {
                        if ok {
                            sa.ids().lemma_rows();
                            assert(moves@[j as int].1 < sa.ids().spec_len());
                            assert(sa.ids().allocated(to as int));
                            assert(false);
                        }
                    }
                    return Err(WorldError::Storage(e));
                },
            }
            j = j + 1;
        }
        let mut i: usize = 0;
        while i < victims.len()
            invariant
                ok == flushable(old(self).stores()[k as int], old(self).pendings()[k as int], old(self).gens().len()),
                i <= victims@.len(),
                victims@ == victims_of(s0, p0),
                flush_frame(*self, *old(self), k as int),
                p0 == old(self).pendings()[k as int],
                strictly_sorted_usize(index_set(p0)) && index_set(p0).to_set() == p0.to_set(),
                p0.len() > 0,
                self.stores() == w2.stores(),
                self.pendings() == w2.pendings(),
                self.locs() == old(self).locs(),
                forall|q: int| 0 <= q < updates@.len() ==> id_row_records(
                    w2.stores()[k as int],
                    (#[trigger] updates@[q]).1 as int,
                    updates@[q].0 as int,
                ),
                self.free() == old(self).free() + victims@.take(i as int),
                self.gens() == bump_all(old(self).gens(), victims@.take(i as int)),
                w2.pendings()[k as int].len() == 0,
                k < w2.pendings().len(),
                ok ==> forall|q: int| 0 <= q < victims@.len() ==> ((#[trigger] victims@[q]) as int) < nslots,
                ok ==> forall|q: int| 0 <= q < updates@.len() ==> ((#[trigger] updates@[q]).0 as int) < nslots,
                nslots == old(self).gens().len(),
                updates@.len() == moves@.len(),
                forall|q: int| 0 <= q < updates@.len() ==> (#[trigger] updates@[q]).1 == moves@[q].1,
                cond ==> covers_targets(moves@, mv),
                cond == (dense(s0) && forall|j: int| 0 <= j < p0.len() ==> #[trigger] p0[j] < s0.spec_len()),
                mv == bulk_row_moves(s0.spec_len(), index_set(p0)),
                s0 == old(self).stores()[k as int],
                !(cond && !chain_free(s0.spec_len(), index_set(p0))),
            decreases victims@.len() - i,
        {
            match self.finish_despawn(victims[i]) {
                Ok(()) => {},
                Err(e) => {
                    proof {
                        if ok {
                            lemma_bump_all_len(old(self).gens(), victims@.take(i as int));
                            assert(false);
                        }
                    }
                    return Err(e);
                },
            }
            proof {
                assert(victims@.take(i + 1) =~= victims@.take(i as int).push(victims@[i as int]));
                lemma_bump_all_push(old(self).gens(), victims@.take(i as int), victims@[i as int]);
                lemma_bump_all_len(old(self).gens(), victims@.take(i as int));
            }
            i = i + 1;
        }
        proof {
            assert(victims@.take(victims@.len() as int) =~= victims@);
            lemma_bump_all_len(old(self).gens(), victims@);
        }
        let ghost w3 = *self;
        let mut j: usize = 0;
        while j < updates.len()
            invariant
                ok == flushable(old(self).stores()[k as int], old(self).pendings()[k as int], old(self).gens().len()),
                j <= updates@.len(),
                flush_frame(*self, *old(self), k as int),
                locations_kept(old(self).locs(), self.locs()),
                p0 == old(self).pendings()[k as int],
                strictly_sorted_usize(index_set(p0)) && index_set(p0).to_set() == p0.to_set(),
                p0.len() > 0,
                self.pendings() == w3.pendings(),
                self.free() == w3.free(),
                self.gens() == w3.gens(),
                w3.pendings()[k as int].len() == 0,
                k < w3.arch_ids().len(),
                self.arch_ids()[k as int] == archetype_id,
                self.stores() == w2.stores(),
                w3.locs() == old(self).locs(),
                ok ==> forall|q: int| 0 <= q < updates@.len() ==> ((#[trigger] updates@[q]).0 as int) < nslots,
                self.gens().len() == nslots,
                forall|q: int| 0 <= q < updates@.len() ==> id_row_records(
                    w2.stores()[k as int],
                    (#[trigger] updates@[q]).1 as int,
                    updates@[q].0 as int,
                ),
                forall|i: int|
                    0 <= i < self.locs().len() && #[trigger] self.locs()[i] != old(self).locs()[i]
                        ==> (self.locs()[i] matches Some(l) && id_row_records(w2.stores()[k as int], l.row as int, i) && i <= u32::MAX),
                updates@.len() == moves@.len(),
                forall|q: int| 0 <= q < updates@.len() ==> (#[trigger] updates@[q]).1 == moves@[q].1,
                cond ==> covers_targets(moves@, mv),
                cond == (dense(s0) && forall|j: int| 0 <= j < p0.len() ==> #[trigger] p0[j] < s0.spec_len()),
                mv == bulk_row_moves(s0.spec_len(), index_set(p0)),
                s0 == old(self).stores()[k as int],
                self.locs().len() == nslots,
                forall|q: int| 0 <= q < j ==> {
                    let x = (#[trigger] updates@[q]).0 as int;
                    &&& x < self.locs().len()
                    &&& self.locs()[x] matches Some(l)
                    &&& id_row_records(w2.stores()[k as int], l.row as int, x)
                },
            decreases updates@.len() - j,
        {
            let (id, row) = updates[j];
            let ghost before = self.locs();
            match self.update_entity_location(id, archetype_id, row) {
                Ok(()) => {},
                Err(e) => {
                    proof {
                        if ok {
                            assert(updates@[j as int].0 == id);
                            assert(false);
                        }
                    }
                    return Err(e);
                },
            }
            proof {
                assert forall|x: int| 0 <= x < old(self).locs().len() && (#[trigger] old(self).locs()[x]) is Some implies self.locs()[x] is Some
                    && self.locs()[x]->Some_0.archetype == old(self).locs()[x]->Some_0.archetype by {
                    assert(before[x] is Some);
                }
                assert(id_row_records(w2.stores()[k as int], row as int, id as int));
                assert forall|x: int|
                    0 <= x < self.locs().len() && #[trigger] self.locs()[x] != old(self).locs()[x]
                        implies (self.locs()[x] matches Some(l) && id_row_records(w2.stores()[k as int], l.row as int, x) && x <= u32::MAX) by {
                    if x != id as int {
                        assert(self.locs()[x] == before[x]);
                    }
                }
                assert forall|q: int| 0 <= q < j + 1 implies {
                    let x = (#[trigger] updates@[q]).0 as int;
                    &&& x < self.locs().len()
                    &&& self.locs()[x] matches Some(l)
                    &&& id_row_records(w2.stores()[k as int], l.row as int, x)
                } by {
                    let x = updates@[q].0 as int;
                    if x != id as int {
                        assert(self.locs()[x] == before[x]);
                    }
                }
            }
            j = j + 1;
        }
        proof {
            if cond {
                assert forall|t: int| #[trigger] moved_into(s0.spec_len(), index_set(p0), t) implies recorded_at(*self, k as int, t) by {
                    let q = choose|q: int| 0 <= q < mv.len() && #[trigger] mv[q].1 == t;
                    assert(target_in(moves@, mv[q].1 as int));
                    let p = choose|p: int| 0 <= p < moves@.len() && #[trigger] moves@[p].1 == mv[q].1;
                    assert(updates@[p].1 == t);
                    assert(id_row_records(w2.stores()[k as int], updates@[p].1 as int, updates@[p].0 as int));
                    assert(self.stores()[k as int] == w2.stores()[k as int]);
                }
            }
        }
        Ok(())
    }

    /// Free the rows of every despawned entity, storage by storage in
    /// creation order. Each storage frees its waiting rows once each, in
    /// ascending order; the slots of their entities get a new generation and
    /// join the free list in that order, and entities moved into freed rows
    /// get their new row. No live entity leaves its archetype. A storage's
    /// moves are read back after all its rows are freed, so when a row moved
    /// into a freed row is moved again (three rows, the first two waiting),
    /// its first destination lies past the rows left and reading it fails
    /// with a storage error.
    #[verifier::rlimit(60)]
    #[verifier::spinoff_prover]
    pub fn flush_despawns(&mut self) -> (r: Result<(), WorldError>)
        requires
            old(self).wf(),
        ensures
            final(self).wf(),
            final(self).arch_ids() == old(self).arch_ids(),
            final(self).index_view() == old(self).index_view(),
            final(self).live() == old(self).live(),
            final(self).registry() == old(self).registry(),
            final(self).budget() == old(self).budget(),
            final(self).stores().len() == old(self).stores().len(),
            locations_kept(old(self).locs(), final(self).locs()),
            (forall|k: int| 0 <= k < old(self).pendings().len() ==> (#[trigger] old(self).pendings()[k]).len() == 0) ==> r is Ok
                && *final(self) == *old(self),
            r is Ok ==> {
                let v = flush_victims(old(self).stores(), old(self).pendings(), old(self).stores().len() as int);
                &&& forall|k: int| 0 <= k < final(self).pendings().len() ==> (#[trigger] final(self).pendings()[k]).len() == 0
                &&& final(self).free() == old(self).free() + v
                &&& final(self).gens() == bump_all(old(self).gens(), v)
            },
            r is Ok ==> forall|i: int|
                0 <= i < final(self).locs().len() && #[trigger] final(self).locs()[i] != old(self).locs()[i]
                    ==> (final(self).locs()[i] matches Some(l) && exists|c: int|
                    0 <= c < final(self).stores().len() && #[trigger] id_row_records(final(self).stores()[c], l.row as int, i)),
            r is Ok ==> forall|k: int| 0 <= k < old(self).stores().len() ==> rows_freed(
                old(self).stores()[k],
                #[trigger] final(self).stores()[k],
                index_set(old(self).pendings()[k]),
            ),
            (forall|k: int| 0 <= k < old(self).stores().len() ==> flushable(
                #[trigger] old(self).stores()[k],
                old(self).pendings()[k],
                old(self).gens().len(),
            )) ==> r is Ok,
            old(self).consistent() && (forall|k: int| 0 <= k < old(self).stores().len() ==> chain_free(
                (#[trigger] old(self).stores()[k]).spec_len(),
                index_set(old(self).pendings()[k]),
            )) ==> r is Ok,
            r is Ok && old(self).consistent() ==> final(self).consistent(),
            r is Ok && old(self).consistent() ==> forall|k: int| 0 <= k < old(self).stores().len() ==> chain_free(
                (#[trigger] old(self).stores()[k]).spec_len(),
                index_set(old(self).pendings()[k]),
            ),
            r is Ok && old(self).consistent() ==> forall|k: int, t: int|
                0 <= k < old(self).stores().len() && #[trigger] moved_into(
                    old(self).stores()[k].spec_len(),
                    index_set(old(self).pendings()[k]),
                    t,
                ) ==> recorded_somewhere(*final(self), k, t),
    {
        proof {
            if old(self).consistent() {
                assert forall|k: int| 0 <= k < old(self).stores().len() && chain_free(
                    (#[trigger] old(self).stores()[k]).spec_len(),
                    index_set(old(self).pendings()[k]),
                ) implies flushable(old(self).stores()[k], old(self).pendings()[k], old(self).gens().len()) by {
                    let st = old(self).stores()[k];
                    assert(dense(st));
                    assert forall|j: int| 0 <= j < old(self).pendings()[k].len() implies #[trigger] old(self).pendings()[k][j] < st.spec_len() by {
                    }
                    assert forall|row: int| 0 <= row < st.spec_len() implies (#[trigger] st.ids().slot(row) matches Some(i) && i < old(self).gens().len()) by {
                    }
                }
            }
        }
        proof {
            self.lemma_views();
            assert(old(self).free() + Seq::<EntityId>::empty() =~= old(self).free());
        }
        let n = self.storages.len();
        let mut k: usize = 0;
        while k < n
            invariant
                k <= n,
                n == old(self).stores().len(),
                self.wf(),
                self.arch_ids() == old(self).arch_ids(),
                self.index_view() == old(self).index_view(),
                self.live() == old(self).live(),
                self.registry() == old(self).registry(),
                self.budget() == old(self).budget(),
                self.stores().len() == n,
                untouched(*self, *old(self), k as int, n as int),
                forall|j: int| 0 <= j < k ==> (#[trigger] self.pendings()[j]).len() == 0,
                locations_kept(old(self).locs(), self.locs()),
                self.free() == old(self).free() + flush_victims(old(self).stores(), old(self).pendings(), k as int),
                self.gens() == bump_all(old(self).gens(), flush_victims(old(self).stores(), old(self).pendings(), k as int)),
                (forall|j: int| 0 <= j < n ==> (#[trigger] old(self).pendings()[j]).len() == 0) ==> *self == *old(self),
                forall|i: int|
                    0 <= i < self.locs().len() && #[trigger] self.locs()[i] != old(self).locs()[i]
                        ==> (self.locs()[i] matches Some(l) && exists|c: int|
                        0 <= c < k && #[trigger] id_row_records(self.stores()[c], l.row as int, i)),
                forall|j: int| 0 <= j < k ==> rows_freed(
                    old(self).stores()[j],
                    #[trigger] self.stores()[j],
                    index_set(old(self).pendings()[j]),
                ),
                self.gens().len() == old(self).gens().len(),
                old(self).consistent() ==> self.consistent(),
                old(self).consistent() ==> forall|j: int| 0 <= j < k ==> chain_free(
                    (#[trigger] old(self).stores()[j]).spec_len(),
                    index_set(old(self).pendings()[j]),
                ),
                old(self).consistent() ==> forall|j: int, t: int|
                    0 <= j < k && #[trigger] moved_into(old(self).stores()[j].spec_len(), index_set(old(self).pendings()[j]), t)
                        ==> {
                        &&& self.stores()[j].ids().slot(t) matches Some(x)
                        &&& (x as int) < self.locs().len()
                        &&& self.locs()[x as int] matches Some(l)
                        &&& exists|c: int| 0 <= c < k && #[trigger] id_row_records(self.stores()[c], l.row as int, x as int)
                    },
            decreases n - k,
        {
            let ghost cur = *self;
            let ghost fv = flush_victims(old(self).stores(), old(self).pendings(), k as int);
            proof {
                assert(self.stores()[k as int] == old(self).stores()[k as int]);
            }
            match self.flush_archetype(k) {
                Ok(()) => {
                    proof {
                        if old(self).consistent() {
                            let st = old(self).stores()[k as int];
                            assert(cur.pendings()[k as int] == old(self).pendings()[k as int]);
                            assert(dense(st));
                            assert forall|j: int| 0 <= j < old(self).pendings()[k as int].len() implies #[trigger] old(
                                self,
                            ).pendings()[k as int][j] < st.spec_len() by {}
                            assert(chain_free(st.spec_len(), index_set(old(self).pendings()[k as int])));
                        }
                    }
                },
                Err(e) => {
                    proof {
                        lemma_locations_kept_trans(old(self).locs(), cur.locs(), self.locs());
                        if forall|j: int| 0 <= j < old(self).stores().len() ==> flushable(
                            #[trigger] old(self).stores()[j],
                            old(self).pendings()[j],
                            old(self).gens().len(),
                        ) {
                            assert(flushable(old(self).stores()[k as int], old(self).pendings()[k as int], old(self).gens().len()));
                            assert(false);
                        }
                    }
                    return Err(e);
                },
            }
            proof {
                lemma_locations_kept_trans(old(self).locs(), cur.locs(), self.locs());
                let v = victims_of(old(self).stores()[k as int], old(self).pendings()[k as int]);
                assert(flush_victims(old(self).stores(), old(self).pendings(), k + 1) == fv + v);
                assert(old(self).free() + fv + v =~= old(self).free() + (fv + v));
                lemma_bump_all_append(old(self).gens(), fv, v);
                lemma_bump_all_len(old(self).gens(), fv + v);
                assert forall|j: int| 0 <= j < k + 1 implies (#[trigger] self.pendings()[j]).len() == 0 by {
                    if j < k {
                        assert(self.stores()[j] == cur.stores()[j]);
                        assert(self.pendings()[j] == cur.pendings()[j]);
                    }
                }
                assert forall|j: int| k + 1 <= j < n implies #[trigger] self.stores()[j] == old(self).stores()[j]
                    && self.pendings()[j] == old(self).pendings()[j] by {
                    assert(self.stores()[j] == cur.stores()[j]);
                    assert(self.pendings()[j] == cur.pendings()[j]);
                    assert(cur.stores()[j] == old(self).stores()[j]);
                    assert(cur.pendings()[j] == old(self).pendings()[j]);
                }
            }
            proof {
                assert forall|i: int|
                    0 <= i < self.locs().len() && #[trigger] self.locs()[i] != old(self).locs()[i]
                        implies (self.locs()[i] matches Some(l) && exists|c: int|
                        0 <= c < k + 1 && #[trigger] id_row_records(self.stores()[c], l.row as int, i)) by {
                    let l = self.locs()[i]->Some_0;
                    if self.locs()[i] != cur.locs()[i] {
                        assert(id_row_records(self.stores()[k as int], l.row as int, i));
                    } else {
                        let c = choose|c: int| 0 <= c < k && #[trigger] id_row_records(cur.stores()[c], l.row as int, i);
                        assert(self.stores()[c] == cur.stores()[c]);
                        assert(id_row_records(self.stores()[c], l.row as int, i));
                    }
                }
            }
            proof {
                assert forall|j: int| 0 <= j < k + 1 implies rows_freed(
                    old(self).stores()[j],
                    #[trigger] self.stores()[j],
                    index_set(old(self).pendings()[j]),
                ) by {
                    if j < k {
                        assert(self.stores()[j] == cur.stores()[j]);
                    } else {
                        assert(cur.stores()[j] == old(self).stores()[j]);
                        assert(cur.pendings()[j] == old(self).pendings()[j]);
                    }
                }
            }
            proof {
                if old(self).consistent() {
                    assert(forall|j: int, t: int|
                        0 <= j < k + 1 && #[trigger] moved_into(old(self).stores()[j].spec_len(), index_set(old(self).pendings()[j]), t)
                            ==> {
                            &&& self.stores()[j].ids().slot(t) matches Some(x)
                            &&& (x as int) < self.locs().len()
                            &&& self.locs()[x as int] matches Some(l)
                            &&& exists|c: int| 0 <= c < k + 1 && #[trigger] id_row_records(self.stores()[c], l.row as int, x as int)
                        }) by {
                        assert(cur.stores()[k as int] == old(self).stores()[k as int]);
                        assert(cur.pendings()[k as int] == old(self).pendings()[k as int]);
                        assert(dense(old(self).stores()[k as int]));
                        assert forall|j: int| 0 <= j < k implies #[trigger] self.stores()[j] == cur.stores()[j] by {}
                        lemma_records_step(*old(self), cur, *self, k as int);
                    }
                    assert(self.consistent()) by {
                        assert(cur.consistent());
                        assert(dense(cur.stores()[k as int]));
                        lemma_bump_all_len(cur.gens(), victims_of(cur.stores()[k as int], cur.pendings()[k as int]));
                        assert(flushed_one(cur, *self, k as int));
                        lemma_flush_keeps_consistent(cur, *self, k as int);
                    }
                }
                assert(untouched(*self, *old(self), k + 1, n as int));
            }
            k = k + 1;
        }
        proof {
            if old(self).consistent() {
                assert forall|kk: int, t: int|
                    0 <= kk < old(self).stores().len() && #[trigger] moved_into(
                        old(self).stores()[kk].spec_len(),
                        index_set(old(self).pendings()[kk]),
                        t,
                    ) implies recorded_somewhere(*self, kk, t) by {
                    let x = self.stores()[kk].ids().slot(t)->Some_0;
                    let l = self.locs()[x as int]->Some_0;
                    let c = choose|c: int| 0 <= c < k && #[trigger] id_row_records(self.stores()[c], l.row as int, x as int);
                    assert(id_row_records(self.stores()[c], l.row as int, x as int));
                }
            }
        }
        Ok(())
    }

    /// The handle of live slot `id` at its current generation, if the slot
    /// holds a live entity.
    pub open spec fn resolved(&self, id: EntityId) -> Option<Entity> {
        if (id as int) < self.gens().len() && self.locs()[id as int] is Some {
            Some(Entity(crate::ecs::entity::pack(id, self.gens()[id as int])))
        } else {
            None
        }
    }

    /// Entity handle of slot `entity_id` when it holds a live entity.
    pub fn resolve_entity(&self, entity_id: EntityId) -> (r: Option<Entity>)
        requires
            self.wf(),
        ensures
            ((entity_id as int) < self.gens().len() && self.locs()[entity_id as int] is Some) ==> (r matches Some(e)
                && bits_index(e.0) == entity_id && bits_generation(e.0) == self.gens()[entity_id as int]),
            !((entity_id as int) < self.gens().len() && self.locs()[entity_id as int] is Some) ==> r is None,
            r == self.resolved(entity_id),
    {
        proof {
            self.lemma_views();
        }
        let i = entity_id as usize;
        if i < self.slots.len() && self.slots[i].location.is_some() {
            Some(Entity::new(entity_id, self.slots[i].generation))
        } else {
            None
        }
    }

    /// Exchange the read and write buffers of every storage.
    pub fn swap_buffers(&mut self)
        requires
            old(self).wf(),
        ensures
            final(self).wf(),
            final(self).stores().len() == old(self).stores().len(),
            forall|k: int| 0 <= k < old(self).stores().len() ==> {
                let o = old(self).stores()[k];
                let n = #[trigger] final(self).stores()[k];
                &&& n.spec_plan() == o.spec_plan()
                &&& n.spec_len() == o.spec_len()
                &&& n.ids() == o.ids()
                &&& n.cols().len() == o.cols().len()
                &&& forall|i: int| 0 <= i < o.cols().len() ==> crate::ecs::storage::archetype_storage::col_swapped(
                    o.cols()[i],
                    #[trigger] n.cols()[i],
                )
            },
            final(self).gens() == old(self).gens(),
            final(self).locs() == old(self).locs(),
            final(self).free() == old(self).free(),
            final(self).live() == old(self).live(),
            final(self).arch_ids() == old(self).arch_ids(),
            final(self).pendings() == old(self).pendings(),
            old(self).consistent() ==> final(self).consistent(),
    {
        proof {
            self.lemma_views();
        }
        let ghost st0 = self.storages@;
        let n = self.storages.len();
        assert forall|j: int| 0 <= j < n implies (#[trigger] st0[j]).1.storage.wf() by {
            assert(self.stores()[j] == st0[j].1.storage);
        }
        let mut k: usize = 0;
        while k < n
            invariant
                k <= n,
                n == self.storages@.len(),
                st0 == old(self).storages@,
                st0.len() == n,
                forall|j: int| 0 <= j < n ==> (#[trigger] st0[j]).1.storage.wf(),
                forall|j: int| k <= j < n ==> #[trigger] self.storages@[j] == st0[j],
                forall|j: int| 0 <= j < k ==> {
                    let o = st0[j].1.storage;
                    let s = (#[trigger] self.storages@[j]).1.storage;
                    &&& self.storages@[j].0 == st0[j].0
                    &&& self.storages@[j].1.pending_despawns@ == st0[j].1.pending_despawns@
                    &&& s.wf()
                    &&& s.spec_plan() == o.spec_plan()
                    &&& s.spec_len() == o.spec_len()
                    &&& s.ids() == o.ids()
                    &&& s.cols().len() == o.cols().len()
                    &&& forall|i: int| 0 <= i < o.cols().len() ==> crate::ecs::storage::archetype_storage::col_swapped(
                        o.cols()[i],
                        #[trigger] s.cols()[i],
                    )
                },
                self.slots == old(self).slots,
                self.free_list == old(self).free_list,
                self.live_count == old(self).live_count,
                self.systems == old(self).systems,
                self.page_budget == old(self).page_budget,
                self.component_index == old(self).component_index,
            decreases n - k,
        {
            self.storages[k].1.storage.swap_buffers();
            k = k + 1;
        }
        proof {
            self.lemma_views();
            old(self).lemma_views();
            assert(self.gens() =~= old(self).gens());
            assert(self.locs() =~= old(self).locs());
            assert(self.arch_ids() =~= old(self).arch_ids());
            assert(self.pendings() =~= old(self).pendings());
            assert(self.free() =~= old(self).free());
            assert(self.index_view() =~= old(self).index_view());
            if old(self).consistent() {
                assert forall|c: int| 0 <= c < self.stores().len() implies dense(#[trigger] self.stores()[c]) by {
                    let o = old(self).stores()[c];
                    let n = self.stores()[c];
                    assert(dense(o));
                    assert forall|i: int| 0 <= i < n.cols().len() implies (#[trigger] n.cols()[i]).spec_len() == n.spec_len() by {
                        assert(crate::ecs::storage::archetype_storage::col_swapped(o.cols()[i], n.cols()[i]));
                    }
                }
                assert forall|c: int, row: int| 0 <= c < self.stores().len() && 0 <= row < self.stores()[c].spec_len()
                    implies (#[trigger] self.stores()[c].ids().slot(row) matches Some(i) && i < self.gens().len()) by {
                    assert(old(self).stores()[c].ids().slot(row) matches Some(i) && i < old(self).gens().len());
                }
                assert forall|i: int| 0 <= i < self.locs().len() && (#[trigger] self.locs()[i]) is Some implies {
                    let l = self.locs()[i]->Some_0;
                    Self::row_holds(self.stores()[position_of(self.arch_ids(), l.archetype)->Some_0], l.row as int, i)
                } by {
                    let l = old(self).locs()[i]->Some_0;
                    assert(old(self).arch_ids().contains(l.archetype));
                    let c = choose|c: int| 0 <= c < old(self).arch_ids().len() && old(self).arch_ids()[c] == l.archetype;
                    lemma_position_of(old(self).arch_ids(), c);
                    assert(Self::row_holds(old(self).stores()[c], l.row as int, i));
                }
            }
        }
    }

    /// Archetypes whose storage is not empty and holds every component of
    /// `component_ids`; none when `component_ids` is empty.
    pub fn matching_archetypes(&self, component_ids: &[ComponentId]) -> (v: Vec<ArchetypeId>)
        requires
            self.wf(),
        ensures
            component_ids@.len() == 0 ==> v@.len() == 0,
            component_ids@.len() > 0 ==> v@ == matching(self.arch_ids(), self.stores(), component_ids@),
    {
        if component_ids.len() == 0 {
            return Vec::new();
        }
        proof {
            self.lemma_views();
        }
        let ids = crate::ecs::ids::sorted_unique(component_ids);
        let mut v: Vec<ArchetypeId> = Vec::new();
        let n = self.storages.len();
        let mut k: usize = 0;
        while k < n
            invariant
                k <= n,
                n == self.storages@.len(),
                self.arch_ids().len() == n,
                self.stores().len() == n,
                forall|j: int| 0 <= j < n ==> #[trigger] self.arch_ids()[j] == self.storages@[j].0 && self.stores()[j]
                    == self.storages@[j].1.storage,
                forall|j: int| 0 <= j < n ==> (#[trigger] self.stores()[j]).wf(),
                crate::ecs::ids::is_sorted_set_of(ids@, component_ids@),
                v@ == matching(self.arch_ids().take(k as int), self.stores().take(k as int), component_ids@),
            decreases n - k,
        {
            let storage = &self.storages[k].1.storage;
            let keep = if storage.is_empty() {
                false
            } else {
                let comps = storage.plan().layout.components();
                let mut all = true;
                let mut j: usize = 0;
                while j < ids.len()
                    invariant
                        j <= ids@.len(),
                        all == forall|m: int| 0 <= m < j ==> comps@.contains(#[trigger] ids@[m]),
                    decreases ids@.len() - j,
                {
                    if !slice_contains(comps, ids[j]) {
                        all = false;
                    }
                    j = j + 1;
                }
                all
            };
            proof {
                let ai = self.arch_ids().take(k + 1);
                let st = self.stores().take(k + 1);
                assert(ai.drop_last() =~= self.arch_ids().take(k as int));
                assert(st.drop_last() =~= self.stores().take(k as int));
                assert(st.last() == self.stores()[k as int]);
                assert(ai.last() == self.arch_ids()[k as int]);
                assert(keep == covers(st.last(), component_ids@)) by {
                    if st.last().spec_len() != 0 {
                        let lc = st.last().spec_plan().layout.spec_components();
                        assert forall|c: u32| component_ids@.contains(c) implies lc.contains(c) <== keep by {
                            assert(ids@.to_set().contains(c));
                            let m = choose|m: int| 0 <= m < ids@.len() && ids@[m] == c;
                        }
                        if !keep {
                            let m = choose|m: int| 0 <= m < ids@.len() && !lc.contains(#[trigger] ids@[m]);
                            assert(component_ids@.to_set().contains(ids@[m]));
                        }
                    }
                }
            }
            if keep {
                v.push(self.storages[k].0);
            }
            k = k + 1;
        }
        proof {
            assert(self.arch_ids().take(n as int) =~= self.arch_ids());
            assert(self.stores().take(n as int) =~= self.stores());
        }
        v
    }
}

fn slice_contains(s: &[ComponentId], x: ComponentId) -> (b: bool)
    ensures
        b == s@.contains(x),
{
    let mut i: usize = 0;
    while i < s.len()
        invariant
            i <= s@.len(),
            forall|k: int| 0 <= k < i ==> s@[k] != x,
        decreases s@.len() - i,
    {
        if s[i] == x {
            return true;
        }
        i = i + 1;
    }
    false
}

/// Entity ids held by the rows `pending` names in `s`, each row once, in
/// ascending row order.
pub open spec fn victims_of(s: ArchetypeStorage, pending: Seq<usize>) -> Seq<EntityId> {
    index_set(pending).map_values(|row: usize| s.ids().slot(row as int)->Some_0)
}

/// The despawned entities of the first `n` storages, storage by storage.
pub open spec fn flush_victims(stores: Seq<ArchetypeStorage>, pendings: Seq<Seq<usize>>, n: int) -> Seq<EntityId>
    decreases n,
{
    if n <= 0 {
        Seq::empty()
    } else {
        flush_victims(stores, pendings, n - 1) + victims_of(stores[n - 1], pendings[n - 1])
    }
}

/// Only storage `k` has rows waiting, namely `p`: the despawned entities of
/// the first `m` storages are those of `p` once `k` is among them.
proof fn lemma_flush_victims_one(stores: Seq<ArchetypeStorage>, pendings: Seq<Seq<usize>>, k: int, m: int)
    requires
        0 <= k < pendings.len(),
        m <= pendings.len(),
        forall|j: int| 0 <= j < pendings.len() && j != k ==> (#[trigger] pendings[j]).len() == 0,
    ensures
        flush_victims(stores, pendings, m) == (if m > k { victims_of(stores[k], pendings[k]) } else { Seq::<EntityId>::empty() }),
    decreases m,
{
    if m > 0 {
        lemma_flush_victims_one(stores, pendings, k, m - 1);
        if m - 1 != k {
            let e = Seq::<usize>::empty();
            assert(pendings[m - 1] =~= e);
            lemma_index_set_is(e, e);
            assert(victims_of(stores[m - 1], pendings[m - 1]) =~= Seq::<EntityId>::empty());
            assert(flush_victims(stores, pendings, m) =~= flush_victims(stores, pendings, m - 1));
        } else {
            assert(Seq::<EntityId>::empty() + victims_of(stores[k], pendings[k]) =~= victims_of(stores[k], pendings[k]));
        }
    }
}

/// A despawned slot is reused one generation on: in a consistent world with
/// no rows waiting and no free slot, despawning a live entity `e` (`w0` to
/// `w1`, as `despawn` reports it) and flushing (`w1` to `w2`, as a
/// successful `flush_despawns` reports it) leaves exactly the slot of `e`
/// free, with its generation advanced, so it is the slot the next spawn
/// takes.
pub proof fn law_despawned_slot_is_reused(w0: World, w1: World, w2: World, e: Entity)
    requires
        w0.wf(),
        w0.consistent(),
        w0.free().len() == 0,
        forall|k: int| 0 <= k < w0.pendings().len() ==> (#[trigger] w0.pendings()[k]).len() == 0,
        w0.locate_result(e) is Ok,
        w1.stores() == w0.stores(),
        w1.gens() == w0.gens(),
        w1.free() == w0.free(),
        ({
            let loc = w0.locate_result(e)->Ok_0;
            let k = position_of(w0.arch_ids(), loc.archetype)->Some_0;
            w1.pendings() == w0.pendings().update(k, w0.pendings()[k].push(loc.index))
        }),
        w2.free() == w1.free() + flush_victims(w1.stores(), w1.pendings(), w1.stores().len() as int),
        w2.gens() == bump_all(w1.gens(), flush_victims(w1.stores(), w1.pendings(), w1.stores().len() as int)),
    ensures
        w2.free() == seq![bits_index(e.0)],
        w2.next_slot() == bits_index(e.0) as int,
        w2.gens()[bits_index(e.0) as int] == next_generation(w0.gens()[bits_index(e.0) as int]),
{
    let i = bits_index(e.0) as int;
    let loc = w0.locate_result(e)->Ok_0;
    w0.law_located_row_holds_entity(e);
    let k = position_of(w0.arch_ids(), loc.archetype)->Some_0;
    let row = loc.index;
    let p = w1.pendings();
    assert(w0.pendings()[k] =~= Seq::<usize>::empty());
    assert(p[k] =~= seq![row]);
    assert forall|j: int| 0 <= j < p.len() && j != k implies (#[trigger] p[j]).len() == 0 by {
        assert(p[j] == w0.pendings()[j]);
    }
    lemma_flush_victims_one(w1.stores(), p, k, w1.stores().len() as int);
    let one = seq![row];
    assert(one.to_set() =~= p[k].to_set());
    assert(crate::pool::sort::strictly_sorted_usize(one));
    lemma_index_set_is(p[k], one);
    let st = w0.stores()[k];
    assert(World::row_holds(st, row as int, i));
    let v = victims_of(w1.stores()[k], p[k]);
    assert(v =~= seq![bits_index(e.0)]);
    assert(w2.free() =~= seq![bits_index(e.0)]);
    assert(bump_all(w1.gens(), v.drop_last()) == w1.gens()) by {
        assert(v.drop_last() =~= Seq::<EntityId>::empty());
    }
}

/// Generations after bumping the slot of each of `ids` in turn (ids past
/// the end name no slot and change nothing).
pub open spec fn bump_all(gens: Seq<Generation>, ids: Seq<EntityId>) -> Seq<Generation>
    decreases ids.len(),
{
    if ids.len() == 0 {
        gens
    } else {
        let g = bump_all(gens, ids.drop_last());
        let v = ids.last() as int;
        if v < g.len() {
            g.update(v, next_generation(g[v]))
        } else {
            g
        }
    }
}

/// `new` differs from `old` at most in the slots, the free list and
/// storage `k` with its pending rows.
pub open spec fn flush_frame(new: World, old: World, k: int) -> bool {
    &&& new.wf()
    &&& new.arch_ids() == old.arch_ids()
    &&& new.index_view() == old.index_view()
    &&& new.live() == old.live()
    &&& new.registry() == old.registry()
    &&& new.budget() == old.budget()
    &&& new.stores().len() == old.stores().len()
    &&& forall|j: int| 0 <= j < old.stores().len() && j != k ==> #[trigger] new.stores()[j] == old.stores()[j]
        && new.pendings()[j] == old.pendings()[j]
}

/// Number of times `x` occurs in `ids`.
pub open spec fn occurrences(ids: Seq<EntityId>, x: EntityId) -> nat
    decreases ids.len(),
{
    if ids.len() == 0 {
        0
    } else {
        occurrences(ids.drop_last(), x) + if ids.last() == x { 1nat } else { 0nat }
    }
}

proof fn lemma_bump_all_at(gens: Seq<Generation>, ids: Seq<EntityId>, x: EntityId)
    requires
        (x as int) < gens.len(),
    ensures
        bump_all(gens, ids)[x as int] as int == (gens[x as int] + occurrences(ids, x)) % 0x1_0000_0000,
        occurrences(ids, x) <= ids.len(),
    decreases ids.len(),
{
    lemma_bump_all_len(gens, ids);
    if ids.len() > 0 {
        lemma_bump_all_at(gens, ids.drop_last(), x);
        lemma_bump_all_len(gens, ids.drop_last());
        let g = bump_all(gens, ids.drop_last());
        let c = occurrences(ids.drop_last(), x) as int;
        let b = gens[x as int] as int;
        if ids.last() == x {
            assert(bump_all(gens, ids)[x as int] == next_generation(g[x as int]));
            assert((((b + c) % 0x1_0000_0000) + 1) % 0x1_0000_0000 == (b + c + 1) % 0x1_0000_0000) by {
                vstd::arithmetic::div_mod::lemma_add_mod_noop(b + c, 1, 0x1_0000_0000);
                vstd::arithmetic::div_mod::lemma_small_mod(1nat, 0x1_0000_0000nat);
                vstd::arithmetic::div_mod::lemma_mod_twice(b + c, 0x1_0000_0000);
            }
            if g[x as int] == u32::MAX {
                assert((g[x as int] + 1) % 0x1_0000_0000 == 0);
            } else {
                vstd::arithmetic::div_mod::lemma_small_mod((g[x as int] + 1) as nat, 0x1_0000_0000nat);
            }
        } else {
            let l = ids.last();
            if (l as int) < g.len() {
                assert(bump_all(gens, ids) == g.update(l as int, next_generation(g[l as int])));
            }
        }
    }
}

/// After a flush that recycled the slots `victims` (each one fewer than
/// 2^32 times), a handle that was current for one of those slots before
/// the flush is stale: the slot's generation moved on.
pub proof fn law_recycled_handles_are_stale(before: World, after: World, victims: Seq<EntityId>, e: Entity)
    requires
        before.wf(),
        after.wf(),
        after.gens() == bump_all(before.gens(), victims),
        victims.contains(bits_index(e.0)),
        victims.len() < 0x1_0000_0000,
        before.locate_result(e) is Ok || before.locate_result(e) == Err::<EntityLoc, WorldError>(WorldError::EntityNotAlive { entity: e }),
    ensures
        after.locate_result(e) == Err::<EntityLoc, WorldError>(WorldError::StaleEntity { entity: e }),
{
    let x = bits_index(e.0);
    let k = choose|k: int| 0 <= k < victims.len() && victims[k] == x;
    lemma_occurrences_positive(victims, x, k);
    lemma_bump_all_at(before.gens(), victims, x);
    lemma_bump_all_len(before.gens(), victims);
    let b = before.gens()[x as int] as int;
    let c = occurrences(victims, x) as int;
    if (b + c) % 0x1_0000_0000 == b {
        vstd::arithmetic::div_mod::lemma_fundamental_div_mod(b + c, 0x1_0000_0000);
        assert(false) by (nonlinear_arith)
            requires (b + c) == 0x1_0000_0000 * ((b + c) / 0x1_0000_0000) + b, 0 < c < 0x1_0000_0000, 0 <= b < 0x1_0000_0000;
    }
}

proof fn lemma_occurrences_positive(ids: Seq<EntityId>, x: EntityId, k: int)
    requires
        0 <= k < ids.len(),
        ids[k] == x,
    ensures
        occurrences(ids, x) > 0,
    decreases ids.len(),
{
    if k < ids.len() - 1 {
        lemma_occurrences_positive(ids.drop_last(), x, k);
    }
}

/// Every slot that held a location still holds one in the same archetype.
pub open spec fn locations_kept(before: Seq<Option<SlotLocation>>, after: Seq<Option<SlotLocation>>) -> bool {
    &&& after.len() == before.len()
    &&& forall|i: int| 0 <= i < before.len() && (#[trigger] before[i]) is Some ==> after[i] is Some
        && after[i]->Some_0.archetype == before[i]->Some_0.archetype
}

proof fn lemma_locations_kept_trans(a: Seq<Option<SlotLocation>>, b: Seq<Option<SlotLocation>>, c: Seq<Option<SlotLocation>>)
    requires
        locations_kept(a, b),
        locations_kept(b, c),
    ensures
        locations_kept(a, c),
{
    assert forall|i: int| 0 <= i < a.len() && (#[trigger] a[i]) is Some implies c[i] is Some && c[i]->Some_0.archetype
        == a[i]->Some_0.archetype by {
        assert(b[i] is Some);
    }
}

proof fn lemma_bump_all_len(gens: Seq<Generation>, ids: Seq<EntityId>)
    ensures
        bump_all(gens, ids).len() == gens.len(),
    decreases ids.len(),
{
    if ids.len() > 0 {
        lemma_bump_all_len(gens, ids.drop_last());
    }
}

proof fn lemma_bump_all_append(gens: Seq<Generation>, a: Seq<EntityId>, b: Seq<EntityId>)
    ensures
        bump_all(gens, a + b) == bump_all(bump_all(gens, a), b),
    decreases b.len(),
{
    if b.len() == 0 {
        assert(a + b =~= a);
    } else {
        assert((a + b).drop_last() =~= a + b.drop_last());
        lemma_bump_all_append(gens, a, b.drop_last());
    }
}

proof fn lemma_bump_all_push(gens: Seq<Generation>, a: Seq<EntityId>, v: EntityId)
    ensures
        (v as int) < gens.len() ==> bump_all(gens, a.push(v)) == ({
            let g = bump_all(gens, a);
            g.update(v as int, next_generation(g[v as int]))
        }),
{
    assert(a.push(v).drop_last() =~= a);
    lemma_bump_all_len(gens, a);
}

/// The storage is not empty and its layout holds every id of `ids`.
pub open spec fn covers(s: ArchetypeStorage, ids: Seq<u32>) -> bool {
    s.spec_len() != 0 && forall|c: u32| ids.contains(c) ==> s.spec_plan().layout.spec_components().contains(c)
}

/// Ids of the storages that cover `ids`, in order.
pub open spec fn matching(arch_ids: Seq<ArchetypeId>, stores: Seq<ArchetypeStorage>, ids: Seq<u32>) -> Seq<ArchetypeId>
    decreases arch_ids.len(),
{
    if arch_ids.len() == 0 || stores.len() != arch_ids.len() {
        Seq::empty()
    } else {
        let rest = matching(arch_ids.drop_last(), stores.drop_last(), ids);
        if covers(stores.last(), ids) { rest.push(arch_ids.last()) } else { rest }
    }
}

} // verus!
