//! Page planning for archetype storage.
//!
//! A plan fixes, for one archetype, the bytes each row takes (the entity id
//! plus every component's stride) and how many rows fit in a page: the
//! largest power of two of rows whose bytes stay within the L2 budget, and at
//! least one.
use vstd::prelude::*;
use crate::ecs::archetype::ArchetypeLayout;
use crate::ecs::component::{ComponentId, ComponentMeta, ComponentRegistry, meta_eq, is_power_of_two};

verus! {

/// Bytes of the entity id stored with every row.
pub const ENTITY_ID_BYTES: usize = 4;

/// The cache budget that page sizes are derived from.
#[derive(Debug, Clone, Copy)]
pub struct PageBudget {
    pub l2_bytes: usize,
}

impl PageBudget {
    /// A budget of `bytes` (non-zero) bytes.
    pub fn with_l2_bytes(bytes: usize) -> (b: Self)
        requires
            bytes > 0,
        ensures
            b.l2_bytes == bytes,
    {
        PageBudget { l2_bytes: bytes }
    }

    /// The budget for an L2 cache of `l2` bytes as probed on this machine;
    /// the size must not be zero.
    pub fn from_detected_l2(l2: usize) -> (b: Self)
        requires
            l2 > 0,
        ensures
            b.l2_bytes == l2,
    {
        PageBudget { l2_bytes: l2 }
    }
}

/// One column of a plan: the component and its metadata.
#[derive(Debug)]
pub struct ColumnPlan {
    pub component_id: ComponentId,
    pub meta: ComponentMeta,
}

impl ColumnPlan {
    /// A copy of this column plan.
    pub fn duplicate(&self) -> (c: Self)
        ensures
            c.component_id == self.component_id,
            meta_eq(c.meta, self.meta),
    {
        ColumnPlan { component_id: self.component_id, meta: self.meta.duplicate() }
    }
}

/// Storage plan of one archetype.
#[derive(Debug)]
pub struct ArchetypePlan {
    pub layout: ArchetypeLayout,
    pub bytes_per_row: usize,
    pub rows_per_page: usize,
    pub page_bytes: usize,
    pub columns: Vec<ColumnPlan>,
}

/// Errors of [`plan_archetype`].
#[derive(Debug, PartialEq, Eq, Structural)]
pub enum PlanError {
    ComponentNotRegistered { component_id: ComponentId },
    BytesPerRowZero,
    BytesPerRowOverflow,
    RowsPerPageZero { bytes_per_row: usize },
    PageBytesOverflow { rows_per_page: usize, bytes_per_row: usize },
}

/// `r` is the largest power of two not above `v`.
pub open spec fn is_floor_pow2(r: nat, v: nat) -> bool {
    is_power_of_two(r) && r <= v && v < 2 * r
}

/// Largest power of two not above `value` (which must be positive).
pub fn floor_power_of_two(value: usize) -> (r: usize)
    requires
        value > 0,
    ensures
        is_floor_pow2(r as nat, value as nat),
{
    let mut p: usize = 1;
    while p <= value / 2
        invariant
            is_power_of_two(p as nat),
            1 <= p <= value,
        decreases value - p,
    {
        proof {
            assert((2 * p) as nat / 2 == p as nat);
            assert(is_power_of_two((2 * p) as nat));
        }
        p = p * 2;
    }
    p
}

/// The rows-per-page rule: the largest power of two of rows that fits in
/// the budget, at least one.
pub open spec fn rows_for_budget(bytes_per_row: nat, budget: nat, r: nat) -> bool {
    let max_rows = budget / bytes_per_row;
    let max_rows = if max_rows < 1 { 1 } else { max_rows };
    is_floor_pow2(r, max_rows)
}

/// Rows per page for rows of `bytes_per_row` bytes under `budget_bytes`.
pub fn compute_rows_per_page(bytes_per_row: usize, budget_bytes: usize) -> (r: usize)
    requires
        bytes_per_row > 0,
        budget_bytes > 0,
    ensures
        rows_for_budget(bytes_per_row as nat, budget_bytes as nat, r as nat),
{
    let max_rows = budget_bytes / bytes_per_row;
    let max_rows = if max_rows < 1 { 1 } else { max_rows };
    floor_power_of_two(max_rows)
}

/// Outcome of adding up the row bytes of `ids`, in order: the first
/// unregistered id or the first overflow stops it.
pub open spec fn scan_row_bytes(entries: Seq<ComponentMeta>, ids: Seq<u32>) -> Result<nat, PlanError>
    decreases ids.len(),
{
    if ids.len() == 0 {
        Ok(ENTITY_ID_BYTES as nat)
    } else {
        match scan_row_bytes(entries, ids.drop_last()) {
            Err(e) => Err(e),
            Ok(acc) => {
                let id = ids.last();
                if id as int >= entries.len() {
                    Err(PlanError::ComponentNotRegistered { component_id: id })
                } else if acc + entries[id as int].stride > usize::MAX {
                    Err(PlanError::BytesPerRowOverflow)
                } else {
                    Ok((acc + entries[id as int].stride) as nat)
                }
            },
        }
    }
}

proof fn lemma_rows_fit(bpr: nat, budget: nat, r: nat)
    requires
        bpr > 0,
        bpr <= usize::MAX,
        budget <= usize::MAX,
        rows_for_budget(bpr, budget, r),
    ensures
        r * bpr <= usize::MAX,
        r >= 1,
{
    let m = budget / bpr;
    assert(is_power_of_two(r) ==> r >= 1) by {
        if r == 0 {
            assert(!is_power_of_two(0));
        }
    }
    if m < 1 {
        assert(r <= 1);
        assert(r * bpr <= bpr) by (nonlinear_arith)
            requires r <= 1, bpr > 0;
    } else {
        assert(r <= m);
        assert(m * bpr <= budget) by (nonlinear_arith)
            requires m == budget / bpr, bpr > 0;
        assert(r * bpr <= m * bpr) by (nonlinear_arith)
            requires r <= m;
    }
}

/// Plan the storage of `layout` under `budget`.
pub fn plan_archetype(registry: &ComponentRegistry, layout: ArchetypeLayout, budget: PageBudget) -> (r: Result<ArchetypePlan, PlanError>)
    requires
        registry.wf(),
        budget.l2_bytes > 0,
    ensures
        match scan_row_bytes(registry.entries(), layout.spec_components()) {
            Err(e) => r == Err::<ArchetypePlan, PlanError>(e),
            Ok(bpr) => r is Ok && ({
                let p = r->Ok_0;
                &&& p.layout.spec_id() == layout.spec_id()
                &&& p.layout.spec_components() == layout.spec_components()
                &&& p.bytes_per_row == bpr
                &&& rows_for_budget(bpr, budget.l2_bytes as nat, p.rows_per_page as nat)
                &&& p.page_bytes == p.rows_per_page * bpr
                &&& p.columns@.len() == layout.spec_components().len()
                &&& forall|i: int| 0 <= i < p.columns@.len() ==> (#[trigger] p.columns@[i]).component_id
                    == layout.spec_components()[i] && meta_eq(
                    p.columns@[i].meta,
                    registry.entries()[layout.spec_components()[i] as int],
                )
                &&& is_power_of_two(p.rows_per_page as nat)
                &&& forall|i: int| 0 <= i < p.columns@.len() ==> p.rows_per_page * (#[trigger] p.columns@[i]).meta.stride <= usize::MAX
            }),
        },
{
    let ghost ids = layout.spec_components();
    let n = layout.components().len();
    let mut columns: Vec<ColumnPlan> = Vec::new();
    let mut bytes_per_row: usize = ENTITY_ID_BYTES;
    let mut i: usize = 0;
    assert(ids.take(0) =~= Seq::<u32>::empty());
    while i < n
        invariant
            i <= n,
            n == ids.len(),
            ids == layout.spec_components(),
            registry.wf(),
            bytes_per_row >= ENTITY_ID_BYTES,
            scan_row_bytes(registry.entries(), ids.take(i as int)) == Ok::<nat, PlanError>(bytes_per_row as nat),
            columns@.len() == i,
            forall|k: int| 0 <= k < i ==> (#[trigger] columns@[k]).component_id == ids[k] && meta_eq(
                columns@[k].meta,
                registry.entries()[ids[k] as int],
            ),
        decreases n - i,
    {
        let component_id = layout.components()[i];
        assert(ids.take(i + 1).drop_last() =~= ids.take(i as int));
        let meta = match registry.meta_of(component_id) {
            Some(m) => m,
            None => {
                proof {
                    lemma_scan_err_sticks(registry.entries(), ids, i + 1);
                }
                return Err(PlanError::ComponentNotRegistered { component_id });
            },
        };
        bytes_per_row = match bytes_per_row.checked_add(meta.stride) {
            Some(v) => v,
            None => {
                proof {
                    lemma_scan_err_sticks(registry.entries(), ids, i + 1);
                }
                return Err(PlanError::BytesPerRowOverflow);
            },
        };
        columns.push(ColumnPlan { component_id, meta });
        i = i + 1;
    }
    assert(ids.take(n as int) =~= ids);
    let rows_per_page = compute_rows_per_page(bytes_per_row, budget.l2_bytes);
    proof {
        lemma_rows_fit(bytes_per_row as nat, budget.l2_bytes as nat, rows_per_page as nat);
    }
    let page_bytes = rows_per_page * bytes_per_row;
    proof {
        lemma_scan_bounds(registry.entries(), ids, bytes_per_row as nat);
        assert forall|k: int| 0 <= k < columns@.len() implies rows_per_page * (#[trigger] columns@[k]).meta.stride <= usize::MAX by {
            let st = columns@[k].meta.stride;
            assert(st <= bytes_per_row);
            assert(rows_per_page * st <= rows_per_page * bytes_per_row) by (nonlinear_arith)
                requires st <= bytes_per_row;
        }
    }
    Ok(ArchetypePlan { layout, bytes_per_row, rows_per_page, page_bytes, columns })
}

/// A successful scan registers every id, and each stride is at most the
/// row size found.
proof fn lemma_scan_bounds(entries: Seq<ComponentMeta>, ids: Seq<u32>, b: nat)
    requires
        scan_row_bytes(entries, ids) == Ok::<nat, PlanError>(b),
    ensures
        forall|i: int| 0 <= i < ids.len() ==> (#[trigger] ids[i]) < entries.len() && entries[ids[i] as int].stride <= b,
    decreases ids.len(),
{
    if ids.len() > 0 {
        let d = ids.drop_last();
        let acc = scan_row_bytes(entries, d)->Ok_0;
        lemma_scan_bounds(entries, d, acc);
        assert forall|i: int| 0 <= i < ids.len() implies (#[trigger] ids[i]) < entries.len() && entries[ids[i] as int].stride <= b by {
            if i < d.len() {
                assert(ids[i] == d[i]);
            }
        }
    }
}

/// Once the scan of a prefix fails, the scan of the whole list fails the
/// same way.
proof fn lemma_scan_err_sticks(entries: Seq<ComponentMeta>, ids: Seq<u32>, k: int)
    requires
        0 <= k <= ids.len(),
        scan_row_bytes(entries, ids.take(k)) is Err,
    ensures
        scan_row_bytes(entries, ids) == scan_row_bytes(entries, ids.take(k)),
    decreases ids.len() - k,
{
    if k < ids.len() {
        assert(ids.take(k + 1).drop_last() =~= ids.take(k));
        lemma_scan_err_sticks(entries, ids, k + 1);
    } else {
        assert(ids.take(k) =~= ids);
    }
}

} // verus!
