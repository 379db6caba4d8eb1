//! A pool of pages addressed by global row index.
use vstd::prelude::*;
use core::ops::Range;
use crate::pool::page::{Page, bulk_remove, bulk_moves, swap_remove_step};
use crate::pool::packed::{flat, packed, lemma_flat_len, lemma_packed_drop_last, lemma_packed_row, lemma_packed_shape, lemma_packed_target, lemma_packed_append, lemma_packed_allocated};
use crate::pool::sort::{sort_indices, sorted_usize};

verus! {

/// Errors reported by [`PagedPool`] and [`Page`].
#[derive(Debug, PartialEq, Eq, Structural)]
pub enum PoolError {
    RangeOutOfBounds { start: usize, end: usize, len: usize },
    RangeCrossesPage { start: usize, end: usize, rows_per_page: usize },
    PageMissing { page: usize },
    IndexOutOfBounds { index: usize, len: usize },
}

/// `n` is a power of two.
pub open spec fn is_power_of_two(n: nat) -> bool
    decreases n,
{
    if n == 1 {
        true
    } else if n == 0 || n % 2 == 1 {
        false
    } else {
        is_power_of_two(n / 2)
    }
}

/// Rows counted the way the pool counts them: every page before the last
/// as full, plus the rows of the last page.
pub open spec fn total_len<A>(pages: Seq<Seq<A>>, rpp: nat) -> nat {
    if pages.len() == 0 {
        0
    } else {
        ((pages.len() - 1) * rpp + pages.last().len()) as nat
    }
}

/// Index of the last page, scanning down from `i`, that still has room;
/// `-1` when none has.
pub open spec fn last_open_page<A>(pages: Seq<Seq<A>>, rpp: nat, i: int) -> int
    decreases i,
{
    if i <= 0 {
        -1
    } else if pages[i - 1].len() < rpp {
        i - 1
    } else {
        last_open_page(pages, rpp, i - 1)
    }
}

/// The page that the next allocation goes to: the last page with room, or a
/// new page appended after the others.
pub open spec fn alloc_target<A>(pages: Seq<Seq<A>>, rpp: nat) -> int {
    let o = last_open_page(pages, rpp, pages.len() as int);
    if o >= 0 { o } else { pages.len() as int }
}

/// Pages after appending an empty page when `t` is past the end.
pub open spec fn with_target_page<A>(pages: Seq<Seq<A>>, t: int) -> Seq<Seq<A>> {
    if t == pages.len() { pages.push(Seq::empty()) } else { pages }
}

/// Pages and spans after allocating `count` rows, each round filling the
/// allocation target as far as it goes.
pub open spec fn bulk_alloc<A>(pages: Seq<Seq<Option<A>>>, rpp: nat, count: nat) -> (
    Seq<Seq<Option<A>>>,
    Seq<Range<usize>>,
)
    decreases count,
{
    if count == 0 || rpp == 0 {
        (pages, Seq::empty())
    } else {
        let t = alloc_target(pages, rpp);
        let ps = with_target_page(pages, t);
        let len = ps[t].len();
        let avail = rpp - len;
        let take: nat = if avail <= 0 { 0 } else if avail < count { avail as nat } else { count };
        let start = t * rpp + len;
        let ps2 = ps.update(t, ps[t] + Seq::new(take, |i: int| None::<A>));
        if take == 0 {
            (pages, Seq::empty())
        } else {
            let rest = bulk_alloc(ps2, rpp, (count - take) as nat);
            (rest.0, seq![Range { start: start as usize, end: (start + take) as usize }] + rest.1)
        }
    }
}

/// Pages after swap-removing global row `g` across the whole pool: an empty
/// trailing page is dropped, the pool's last row leaves the last page and,
/// unless it is row `g` itself, takes the place of row `g`.
pub open spec fn pool_swap_remove<A>(pv: Seq<Seq<A>>, rpp: nat, g: int) -> Seq<Seq<A>> {
    let ps = if pv.len() > 0 && pv.last().len() == 0 { pv.drop_last() } else { pv };
    let t = ps.len() - 1;
    let v = ps[t].last();
    let ps2 = ps.update(t, ps[t].drop_last());
    let r = rpp as int;
    if g == total_len(pv, rpp) - 1 {
        ps2
    } else {
        ps2.update(g / r, ps2[g / r].update(g % r, v))
    }
}

/// Pages after removing the rows of `asc` one by one, largest first, each
/// with [`pool_swap_remove`]; a row at or past the current count is skipped.
pub open spec fn pool_bulk_remove<A>(pv: Seq<Seq<A>>, rpp: nat, asc: Seq<usize>) -> Seq<Seq<A>>
    decreases asc.len(),
{
    if asc.len() == 0 {
        pv
    } else {
        let t = asc.last();
        if t >= total_len(pv, rpp) {
            pool_bulk_remove(pv, rpp, asc.drop_last())
        } else {
            pool_bulk_remove(pool_swap_remove(pv, rpp, t as int), rpp, asc.drop_last())
        }
    }
}

/// Position of the first entry of `s` that is at least `bound`, or the
/// length of `s`.
pub open spec fn first_at_least(s: Seq<usize>, bound: int) -> int
    decreases s.len(),
{
    if s.len() == 0 {
        0
    } else {
        let f = first_at_least(s.drop_last(), bound);
        if f < s.len() - 1 { f } else if s.last() >= bound { s.len() - 1 } else { s.len() as int }
    }
}

/// What removing global row `gidx` from pages `pv` yields: the pages after
/// and the result. A row whose page is missing, or past the rows of its page,
/// is refused; otherwise the pool's last row takes its place, and the move
/// `(from, to)` is reported unless the row removed was the last one.
pub open spec fn free_one_outcome<A>(
    pv: Seq<Seq<A>>,
    rpp: int,
    gidx: usize,
    after: Seq<Seq<A>>,
    r: Result<Option<(usize, usize)>, PoolError>,
) -> bool {
    let p = gidx as int / rpp;
    let l = gidx as int % rpp;
    let n = total_len(pv, rpp as nat);
    if p >= pv.len() {
        r == Err::<Option<(usize, usize)>, PoolError>(PoolError::PageMissing { page: p as usize }) && after == pv
    } else if l >= pv[p].len() {
        r == Err::<Option<(usize, usize)>, PoolError>(
            PoolError::IndexOutOfBounds { index: l as usize, len: pv[p].len() as usize },
        ) && after == pv
    } else {
        &&& after == pool_swap_remove(pv, rpp as nat, gidx as int)
        &&& r == Ok::<Option<(usize, usize)>, PoolError>(
            if gidx == n - 1 { None } else { Some(((n - 1) as usize, gidx)) },
        )
    }
}

/// What removing the sorted global rows `sg` from pages `ov` yields: the
/// moves appended, the pages left, and the result. A row in a page the pool
/// does not have refuses the whole removal, naming the first such page;
/// otherwise the rows go as [`pool_bulk_remove`] says, and the moves are
/// those of removing them from the concatenated rows.
pub open spec fn bulk_free_outcome<A>(
    ov: Seq<Seq<A>>,
    rpp: nat,
    sg: Seq<usize>,
    moved_before: Seq<(usize, usize)>,
    moved_after: Seq<(usize, usize)>,
    pages_after: Seq<Seq<A>>,
    r: Result<(), PoolError>,
) -> bool {
    let k = first_at_least(sg, (ov.len() * rpp) as int);
    if k < sg.len() {
        &&& r == Err::<(), PoolError>(PoolError::PageMissing { page: (sg[k] as int / rpp as int) as usize })
        &&& pages_after == ov
        &&& moved_after == moved_before
    } else {
        &&& r == Ok::<(), PoolError>(())
        &&& pages_after == pool_bulk_remove(ov, rpp, sg)
        &&& moved_after == moved_before + bulk_moves(flat(ov), sg)
    }
}

/// Removing a row across a packed pool keeps it packed and removes the row
/// from the concatenated rows as a swap-remove does.
pub proof fn lemma_pool_swap_remove<A>(pv: Seq<Seq<A>>, rpp: nat, n: nat, g: int)
    requires
        packed(pv, rpp, n),
        0 <= g < n,
    ensures
        total_len(pv, rpp) == n,
        pool_swap_remove(pv, rpp, g).len() == (if pv.last().len() == 0 { pv.len() - 1 } else { pv.len() as int }),
        packed(pool_swap_remove(pv, rpp, g), rpp, (n - 1) as nat),
        flat(pool_swap_remove(pv, rpp, g)) == swap_remove_step(flat(pv), g),
{
    let len = pv.len() as int;
    lemma_flat_len(pv, rpp, n);
    let ps = if pv.len() > 0 && pv.last().len() == 0 { pv.drop_last() } else { pv };
    if pv.last().len() == 0 {
        lemma_packed_drop_last(pv, rpp, n);
        assert(flat(pv) =~= flat(ps) + pv.last());
        assert(flat(ps) =~= flat(pv));
        if ps.len() == 0 {
            assert(flat(ps).len() == 0);
        } else {
            assert(ps.last() == pv[len - 2]);
        }
    }
    assert(packed(ps, rpp, n));
    assert(flat(ps) == flat(pv));
    lemma_flat_len(ps, rpp, n);
    assert(ps.len() > 0);
    let t = ps.len() - 1;
    assert(ps.last() == ps[t]);
    assert(ps[t].len() > 0);
    let v = ps[t].last();
    let ps2 = ps.update(t, ps[t].drop_last());
    assert(ps2.drop_last() =~= ps.drop_last());
    assert(ps2.last() == ps[t].drop_last());
    assert(flat(ps) == flat(ps.drop_last()) + ps.last());
    assert(flat(ps2) =~= flat(ps).drop_last());
    assert forall|p: int| 0 <= p < ps2.len() - 1 implies (#[trigger] ps2[p]).len() == rpp by {
        assert(ps2[p] == ps[p]);
    }
    assert(packed(ps2, rpp, (n - 1) as nat));
    assert(flat(ps).last() == v);
    let sv = flat(pv);
    if g == n - 1 {
        assert(swap_remove_step(sv, g) =~= sv.drop_last());
    } else {
        lemma_packed_row(ps2, rpp, (n - 1) as nat, g, v);
        let r = rpp as int;
        let u = ps2.update(g / r, ps2[g / r].update(g % r, v));
        lemma_packed_shape(ps2, u, rpp, (n - 1) as nat);
        assert(swap_remove_step(sv, g) =~= sv.drop_last().update(g, v));
    }
}

/// The pool acts like one contiguous array under bulk removal too: removing
/// rows across a packed pool keeps it packed and does to the concatenated
/// rows what [`bulk_remove`] does to an array.
pub proof fn law_bulk_removal_on_rows<A>(pv: Seq<Seq<A>>, rpp: nat, n: nat, asc: Seq<usize>)
    requires
        packed(pv, rpp, n),
    ensures
        packed(pool_bulk_remove(pv, rpp, asc), rpp, bulk_remove(flat(pv), asc).len()),
        flat(pool_bulk_remove(pv, rpp, asc)) == bulk_remove(flat(pv), asc),
    decreases asc.len(),
{
    lemma_flat_len(pv, rpp, n);
    if pv.len() == 0 {
        assert(total_len(pv, rpp) == 0);
    }
    if asc.len() > 0 {
        let t = asc.last();
        if t >= n {
            law_bulk_removal_on_rows(pv, rpp, n, asc.drop_last());
        } else {
            lemma_pool_swap_remove(pv, rpp, n, t as int);
            law_bulk_removal_on_rows(pool_swap_remove(pv, rpp, t as int), rpp, (n - 1) as nat, asc.drop_last());
        }
    } else {
        lemma_flat_len(pv, rpp, n);
    }
}

/// Once the first entry at least `bound` lies in a prefix, longer prefixes
/// agree on it.
proof fn lemma_first_at_least_sticks(s: Seq<usize>, bound: int, k: int)
    requires
        0 <= k <= s.len(),
        first_at_least(s.take(k), bound) < k,
    ensures
        first_at_least(s, bound) == first_at_least(s.take(k), bound),
    decreases s.len() - k,
{
    if k < s.len() {
        assert(s.take(k + 1).drop_last() =~= s.take(k));
        lemma_first_at_least_sticks(s, bound, k + 1);
    } else {
        assert(s.take(k) =~= s);
    }
}

/// Every slot of every page holds a value.
pub open spec fn pages_written<A>(pages: Seq<Seq<Option<A>>>) -> bool {
    forall|p: int, l: int| 0 <= p < pages.len() && 0 <= l < pages[p].len() ==> (#[trigger] pages[p][l]) is Some
}

/// Removing one row keeps every slot written.
pub proof fn lemma_swap_remove_written<A>(pv: Seq<Seq<Option<A>>>, rpp: nat, n: nat, g: int)
    requires
        pages_written(pv),
        packed(pv, rpp, n),
        0 <= g < n,
    ensures
        pages_written(pool_swap_remove(pv, rpp, g)),
{
    let ps = if pv.len() > 0 && pv.last().len() == 0 { pv.drop_last() } else { pv };
    lemma_flat_len(pv, rpp, n);
    if pv.len() == 0 {
        assert(false);
    }
    if pv.last().len() == 0 {
        lemma_packed_drop_last(pv, rpp, n);
        if ps.len() == 0 {
            lemma_flat_len(ps, rpp, 0);
            assert(false);
        }
    }
    assert(ps.len() > 0);
    let t = ps.len() - 1;
    if ps[t].len() == 0 {
        assert(ps.len() > 1 || n == 0);
        assert(false);
    }
    let v = ps[t].last();
    assert(v == ps[t][ps[t].len() - 1]);
    assert(ps[t] == pv[t]);
    let ps2 = ps.update(t, ps[t].drop_last());
    assert forall|p: int, l: int| 0 <= p < ps2.len() && 0 <= l < ps2[p].len() implies (#[trigger] ps2[p][l]) is Some by {
        assert(ps[p] == pv[p]);
        if p == t {
            assert(ps2[p][l] == ps[t][l]);
        } else {
            assert(ps2[p] == ps[p]);
        }
    }
    let r = rpp as int;
    lemma_pool_swap_remove(pv, rpp, n, g);
    if g != total_len(pv, rpp) - 1 {
        assert(packed(ps, rpp, n));
        assert forall|q: int| 0 <= q < ps2.len() - 1 implies (#[trigger] ps2[q]).len() == rpp by {
            assert(ps2[q] == ps[q]);
        }
        assert(packed(ps2, rpp, (n - 1) as nat));
        lemma_packed_row(ps2, rpp, (n - 1) as nat, g, v);
        let u = ps2.update(g / r, ps2[g / r].update(g % r, v));
        assert forall|p: int, l: int| 0 <= p < u.len() && 0 <= l < u[p].len() implies (#[trigger] u[p][l]) is Some by {
            if p == g / r && l == g % r {
            } else if p == g / r {
                assert(u[p][l] == ps2[p][l]);
            } else {
                assert(u[p] == ps2[p]);
            }
        }
    }
}

/// Removing rows keeps every slot written.
pub proof fn lemma_bulk_remove_written<A>(pv: Seq<Seq<Option<A>>>, rpp: nat, n: nat, asc: Seq<usize>)
    requires
        pages_written(pv),
        packed(pv, rpp, n),
    ensures
        pages_written(pool_bulk_remove(pv, rpp, asc)),
    decreases asc.len(),
{
    lemma_flat_len(pv, rpp, n);
    if pv.len() == 0 {
        assert(total_len(pv, rpp) == 0);
    }
    if asc.len() > 0 {
        let t = asc.last();
        if t >= n {
            lemma_bulk_remove_written(pv, rpp, n, asc.drop_last());
        } else {
            lemma_pool_swap_remove(pv, rpp, n, t as int);
            lemma_swap_remove_written(pv, rpp, n, t as int);
            lemma_bulk_remove_written(pool_swap_remove(pv, rpp, t as int), rpp, (n - 1) as nat, asc.drop_last());
        }
    }
}

/// After removing the sorted indices `sg`, every slot of the pool still
/// holds a value.
pub proof fn lemma_bulk_free_written<A>(
    ov: Seq<Seq<Option<A>>>,
    rpp: nat,
    n: nat,
    sg: Seq<usize>,
    mb: Seq<(usize, usize)>,
    ma: Seq<(usize, usize)>,
    pa: Seq<Seq<Option<A>>>,
    r: Result<(), PoolError>,
)
    requires
        pages_written(ov),
        packed(ov, rpp, n),
        bulk_free_outcome(ov, rpp, sg, mb, ma, pa, r),
    ensures
        pages_written(pa),
{
    if first_at_least(sg, (ov.len() * rpp) as int) >= sg.len() {
        lemma_bulk_remove_written(ov, rpp, n, sg);
    }
}

/// Pool of rows stored in pages of `rows_per_page` rows each, acting as one
/// contiguous array: row `g` is local row `g % rows_per_page` of page
/// `g / rows_per_page`, and every page but the last is full.
pub struct PagedPool<T> {
    rows_per_page: usize,
    pages: Vec<Page<T>>,
}

impl<T> PagedPool<T> {
    /// Contents of each page.
    pub closed spec fn pages_view(&self) -> Seq<Seq<Option<T>>> {
        Seq::new(self.pages@.len(), |i: int| self.pages@[i]@)
    }

    pub closed spec fn spec_rows_per_page(&self) -> usize {
        self.rows_per_page
    }

    pub closed spec fn wf(&self) -> bool {
        &&& self.rows_per_page > 0
        &&& forall|i: int|
            0 <= i < self.pages@.len() ==> (#[trigger] self.pages@[i]).wf()
                && self.pages@[i].spec_capacity() == self.rows_per_page
        &&& self.pages@.len() * self.rows_per_page <= usize::MAX
        &&& forall|i: int| 0 <= i < self.pages@.len() - 1 ==> (#[trigger] self.pages@[i])@.len() == self.rows_per_page
    }

    /// The page-by-page form of packing that `wf` keeps, and back.
    proof fn lemma_packed_iff(&self)
        requires
            self.rows_per_page > 0,
            forall|i: int| 0 <= i < self.pages@.len() ==> (#[trigger] self.pages@[i])@.len() <= self.rows_per_page,
        ensures
            packed(self.pages_view(), self.rows_per_page as nat, self.spec_len()) <==> forall|i: int|
                0 <= i < self.pages@.len() - 1 ==> (#[trigger] self.pages@[i])@.len() == self.rows_per_page,
    {
        let pv = self.pages_view();
        if packed(pv, self.rows_per_page as nat, self.spec_len()) {
            assert forall|i: int| 0 <= i < self.pages@.len() - 1 implies (#[trigger] self.pages@[i])@.len() == self.rows_per_page by {
                assert(pv[i] == self.pages@[i]@);
            }
        }
        if forall|i: int| 0 <= i < self.pages@.len() - 1 ==> (#[trigger] self.pages@[i])@.len() == self.rows_per_page {
            if pv.len() > 0 {
                assert forall|p: int| 0 <= p < pv.len() - 1 implies (#[trigger] pv[p]).len() == self.rows_per_page by {
                    assert(pv[p] == self.pages@[p]@);
                }
                assert(pv.last() == self.pages@[pv.len() - 1]@);
            }
        }
    }

    proof fn lemma_packed(&self)
        requires
            self.wf(),
        ensures
            packed(self.pages_view(), self.rows_per_page as nat, self.spec_len()),
    {
        assert forall|i: int| 0 <= i < self.pages@.len() implies (#[trigger] self.pages@[i])@.len() <= self.rows_per_page by {
            assert(self.pages@[i].wf());
        }
        self.lemma_packed_iff();
    }

    /// The row count as the pool reports it.
    pub open spec fn spec_len(&self) -> nat {
        total_len(self.pages_view(), self.spec_rows_per_page() as nat)
    }

    /// The rows of all pages, in global order.
    pub open spec fn rows(&self) -> Seq<Option<T>> {
        flat(self.pages_view())
    }

    /// The pool is packed, so row `g` is allocated exactly when it is below
    /// the row count, and its slot is the `g`-th of [`rows`](Self::rows).
    pub proof fn lemma_rows(&self)
        requires
            self.wf(),
        ensures
            self.rows().len() == self.spec_len(),
            packed(self.pages_view(), self.spec_rows_per_page() as nat, self.spec_len()),
            forall|g: int| #[trigger] self.allocated(g) <==> 0 <= g < self.spec_len(),
            forall|g: int| 0 <= g < self.spec_len() ==> #[trigger] self.slot(g) == self.rows()[g],
    {
        let pv = self.pages_view();
        let rpp = self.rows_per_page as nat;
        let n = self.spec_len();
        self.lemma_packed();
        lemma_flat_len(pv, rpp, n);
        assert forall|g: int| #[trigger] self.allocated(g) <==> 0 <= g < n by {
            if self.allocated(g) {
                lemma_packed_allocated(pv, rpp, n, g);
            }
            if 0 <= g < n {
                lemma_packed_row(pv, rpp, n, g, pv[0][0]);
            }
        }
        assert forall|g: int| 0 <= g < n implies #[trigger] self.slot(g) == self.rows()[g] by {
            lemma_packed_row(pv, rpp, n, g, pv[0][0]);
        }
    }

    /// The row count of a well-formed pool fits in a `usize`.
    pub proof fn lemma_len_fits(&self)
        requires
            self.wf(),
        ensures
            self.spec_len() <= usize::MAX,
    {
        self.lemma_len_bound();
    }

    /// Row `g` is allocated: its page exists and holds it.
    pub open spec fn allocated(&self, g: int) -> bool {
        let rpp = self.spec_rows_per_page() as int;
        0 <= g && g / rpp < self.pages_view().len() && g % rpp < self.pages_view()[g / rpp].len()
    }

    /// Content of allocated row `g`.
    pub open spec fn slot(&self, g: int) -> Option<T> {
        let rpp = self.spec_rows_per_page() as int;
        self.pages_view()[g / rpp][g % rpp]
    }

    proof fn lemma_page_len(&self, i: int)
        requires
            self.wf(),
            0 <= i < self.pages@.len(),
        ensures
            self.pages_view()[i].len() <= self.rows_per_page,
    {
        assert(self.pages@[i].wf());
    }

    proof fn lemma_len_bound(&self)
        requires
            self.wf(),
        ensures
            self.spec_len() <= self.pages@.len() * self.rows_per_page,
    {
        let n = self.pages@.len();
        if n > 0 {
            self.lemma_page_len(n - 1);
            let r = self.rows_per_page as int;
            assert((n - 1) * r + r == n * r) by (nonlinear_arith);
        }
    }

    /// Number of pages.
    pub fn page_count(&self) -> (n: usize)
        ensures
            n == self.pages_view().len(),
    {
        self.pages.len()
    }

    /// Create an empty pool. `rows_per_page` must be a non-zero power of two.
    pub fn with_rows_per_page(rows_per_page: usize) -> (p: Self)
        requires
            is_power_of_two(rows_per_page as nat),
        ensures
            p.wf(),
            p.pages_view() == Seq::<Seq<Option<T>>>::empty(),
            p.spec_rows_per_page() == rows_per_page,
    {
        let p = PagedPool { rows_per_page, pages: Vec::new() };
        assert(p.pages_view() =~= Seq::<Seq<Option<T>>>::empty());
        p
    }

    /// Empty every page and keep at most the first one.
    pub fn clear(&mut self)
        requires
            old(self).wf(),
        ensures
            final(self).wf(),
            final(self).spec_rows_per_page() == old(self).spec_rows_per_page(),
            final(self).pages_view() == (if old(self).pages_view().len() == 0 {
                Seq::<Seq<Option<T>>>::empty()
            } else {
                seq![Seq::<Option<T>>::empty()]
            }),
    {
        let n = self.pages.len();
        if n > 1 {
            self.pages.truncate(1);
        }
        if n > 0 {
            assert(self.pages@[0].wf());
            self.pages[0].clear();
            assert(self.pages_view() =~= seq![Seq::<Option<T>>::empty()]);
        } else {
            assert(self.pages_view() =~= Seq::<Seq<Option<T>>>::empty());
        }
    }

    pub fn rows_per_page(&self) -> (r: usize)
        ensures
            r == self.spec_rows_per_page(),
    {
        self.rows_per_page
    }

    /// Page index of global row `gidx`.
    fn page_of(&self, gidx: usize) -> (p: usize)
        requires
            self.wf(),
        ensures
            p == gidx / self.spec_rows_per_page(),
    {
        gidx / self.rows_per_page
    }

    /// Local index of global row `gidx` within its page.
    fn local_of(&self, gidx: usize) -> (l: usize)
        requires
            self.wf(),
        ensures
            l == gidx % self.spec_rows_per_page(),
    {
        gidx % self.rows_per_page
    }

    /// One past the last global row of the page that holds `start`.
    fn end_of_page(&self, start: usize) -> (e: usize)
        requires
            self.wf(),
            start - start % self.spec_rows_per_page() + self.spec_rows_per_page() <= usize::MAX,
        ensures
            e == start - start % self.spec_rows_per_page() + self.spec_rows_per_page(),
    {
        proof {
            let r = self.rows_per_page as int;
            let s = start as int;
            assert(r * (s / r) + s % r == s) by (nonlinear_arith)
                requires r > 0;
            assert(s / r >= 0) by (nonlinear_arith)
                requires r > 0, s >= 0;
            assert(r * (s / r) >= 0) by (nonlinear_arith)
                requires r > 0, s / r >= 0;
        }
        start - start % self.rows_per_page + self.rows_per_page
    }

    pub fn len_total(&self) -> (n: usize)
        requires
            self.wf(),
        ensures
            n == self.spec_len(),
    {
        proof {
            self.lemma_len_bound();
        }
        let n = self.pages.len();
        if n > 0 {
            let r = self.rows_per_page;
            proof {
                self.lemma_page_len(n - 1);
                assert((n - 1) * r <= n * r) by (nonlinear_arith);
            }
            (n - 1) * r + self.pages[n - 1].len()
        } else {
            0
        }
    }

    pub fn is_empty(&self) -> (b: bool)
        requires
            self.wf(),
        ensures
            b == (self.spec_len() == 0),
    {
        self.len_total() == 0
    }

    /// Locate a range of global rows inside a single page.
    pub fn localize_range(&self, range: Range<usize>) -> (r: Result<(usize, Range<usize>), PoolError>)
        requires
            self.wf(),
        ensures
            ({
                let rpp = self.spec_rows_per_page();
                let len = self.spec_len();
                if range.start > range.end || range.end > len {
                    r == Err::<(usize, Range<usize>), PoolError>(
                        PoolError::RangeOutOfBounds {
                            start: range.start,
                            end: range.end,
                            len: len as usize,
                        },
                    )
                } else if range.start == range.end {
                    r == Ok::<(usize, Range<usize>), PoolError>(
                        (
                            (range.start / rpp) as usize,
                            Range {
                                start: (range.start % rpp) as usize,
                                end: (range.start % rpp) as usize,
                            },
                        ),
                    )
                } else if range.start / rpp != ((range.end - 1) as usize) / rpp {
                    r == Err::<(usize, Range<usize>), PoolError>(
                        PoolError::RangeCrossesPage {
                            start: range.start,
                            end: range.end,
                            rows_per_page: rpp as usize,
                        },
                    )
                } else {
                    r == Ok::<(usize, Range<usize>), PoolError>(
                        (
                            (range.start / rpp) as usize,
                            Range {
                                start: (range.start % rpp) as usize,
                                end: (range.start % rpp + (range.end - range.start)) as usize,
                            },
                        ),
                    )
                }
            }),
    {
        let len = self.len_total();
        if range.start > range.end {
            return Err(PoolError::RangeOutOfBounds { start: range.start, end: range.end, len });
        }
        if range.end > len {
            return Err(PoolError::RangeOutOfBounds { start: range.start, end: range.end, len });
        }
        if range.start == range.end {
            let page = self.page_of(range.start);
            let local = self.local_of(range.start);
            return Ok((page, Range { start: local, end: local }));
        }
        let p0 = self.page_of(range.start);
        let p1 = self.page_of(range.end - 1);
        if p0 != p1 {
            return Err(
                PoolError::RangeCrossesPage {
                    start: range.start,
                    end: range.end,
                    rows_per_page: self.rows_per_page,
                },
            );
        }
        let local_start = self.local_of(range.start);
        proof {
            let r = self.rows_per_page as int;
            let s = range.start as int;
            assert(s % r + (r * (s / r)) == s) by (nonlinear_arith)
                requires r > 0;
            assert(s % r + (range.end - s) <= range.end);
        }
        Ok((p0, Range { start: local_start, end: local_start + (range.end - range.start) }))
    }

    proof fn lemma_row_bound(&self, p: int, l: int)
        requires
            self.rows_per_page > 0,
            0 <= p < self.pages@.len(),
            0 <= l < self.rows_per_page,
        ensures
            p * self.rows_per_page + l < self.pages@.len() * self.rows_per_page,
            (p * self.rows_per_page + l) / (self.rows_per_page as int) == p,
            (p * self.rows_per_page + l) % (self.rows_per_page as int) == l,
    {
        let r = self.rows_per_page as int;
        let n = self.pages@.len() as int;
        assert(p * r + l < n * r) by (nonlinear_arith)
            requires p < n, l < r, 0 <= p, 0 <= l;
        vstd::arithmetic::div_mod::lemma_fundamental_div_mod_converse(p * r + l, r, p, l);
    }

    /// Index of the page that the next allocation uses; appends an empty page
    /// when every page is full.
    fn ensure_page_with_space(&mut self) -> (idx: usize)
        requires
            old(self).wf(),
            old(self).spec_len() + old(self).spec_rows_per_page() <= usize::MAX,
        ensures
            final(self).wf(),
            final(self).spec_rows_per_page() == old(self).spec_rows_per_page(),
            final(self).spec_len() == old(self).spec_len(),
            idx == alloc_target(old(self).pages_view(), old(self).spec_rows_per_page() as nat),
            final(self).pages_view() == with_target_page(old(self).pages_view(), idx as int),
            idx < final(self).pages@.len(),
            final(self).pages_view()[idx as int].len() < final(self).spec_rows_per_page(),
    {
        let ghost pv = self.pages_view();
        let ghost rpp = self.rows_per_page as nat;
        proof {
            self.lemma_packed();
            lemma_packed_target(pv, rpp, self.spec_len());
        }
        let n = self.pages.len();
        let mut i: usize = n;
        while i > 0
            invariant
                i <= n,
                n == self.pages@.len(),
                pv == self.pages_view(),
                rpp == self.rows_per_page,
                self.wf(),
                last_open_page(pv, rpp, n as int) == last_open_page(pv, rpp, i as int),
            decreases i,
        {
            assert(pv[i - 1] == self.pages@[i - 1]@);
            if !self.pages[i - 1].is_full() {
                proof {
                    self.lemma_page_len(i - 1);
                }
                assert(with_target_page(pv, (i - 1) as int) == pv);
                return i - 1;
            }
            i = i - 1;
        }
        proof {
            let r = self.rows_per_page as int;
            assert(alloc_target(pv, rpp) == n);
            assert(n * r == self.spec_len());
            assert((n + 1) * r == n * r + r) by (nonlinear_arith);
        }
        self.pages.push(Page::with_capacity(self.rows_per_page));
        assert(self.pages_view() =~= pv.push(Seq::empty()));
        proof {
            assert forall|j: int| 0 <= j < self.pages@.len() implies (#[trigger] self.pages@[j])@.len() <= self.rows_per_page by {
                assert(self.pages@[j].wf());
            }
            self.lemma_packed_iff();
        }
        n
    }

    /// Allocate one row, unwritten, and return its global index.
    pub fn alloc_one(&mut self) -> (gidx: usize)
        requires
            old(self).wf(),
            (old(self).pages_view().len() + 1) * old(self).spec_rows_per_page() <= usize::MAX,
        ensures
            final(self).wf(),
            final(self).spec_rows_per_page() == old(self).spec_rows_per_page(),
            ({
                let rpp = old(self).spec_rows_per_page() as nat;
                let t = alloc_target(old(self).pages_view(), rpp);
                let ps = with_target_page(old(self).pages_view(), t);
                &&& gidx == t * rpp + ps[t].len()
                &&& 0 <= t < ps.len()
                &&& ps[t].len() < rpp
                &&& final(self).pages_view() == ps.update(t, ps[t].push(None))
            }),
            final(self).allocated(gidx as int),
            final(self).slot(gidx as int).is_none(),
            gidx == old(self).spec_len(),
            final(self).rows() == old(self).rows().push(None),
    {
        let ghost pv0 = self.pages_view();
        proof {
            self.lemma_packed();
            lemma_packed_target(pv0, self.rows_per_page as nat, self.spec_len());
            self.lemma_len_bound();
            let r = self.rows_per_page as int;
            let np = self.pages@.len() as int;
            assert((np + 1) * r == np * r + r) by (nonlinear_arith);
        }
        let pid = self.ensure_page_with_space();
        let ghost mid = self.pages_view();
        let local = match self.pages[pid].alloc_one() {
            Some(l) => l,
            None => {
                assert(false);
                0
            },
        };
        proof {
            self.lemma_row_bound(pid as int, local as int);
        }
        assert(self.pages_view() =~= mid.update(pid as int, mid[pid as int].push(None)));
        proof {
            let rpp = self.rows_per_page as nat;
            lemma_packed_append(mid, rpp, total_len(pv0, rpp), seq![None::<T>]);
            assert(mid[pid as int] + seq![None::<T>] =~= mid[pid as int].push(None));
            assert(flat(pv0).push(None) =~= flat(pv0) + seq![None::<T>]);
            assert forall|j: int| 0 <= j < self.pages@.len() implies (#[trigger] self.pages@[j])@.len() <= self.rows_per_page by {
                assert(self.pages@[j].wf());
            }
            self.lemma_packed_iff();
        }
        pid * self.rows_per_page + local
    }

    /// Allocate `count` unwritten rows. Each round fills the page that
    /// [`alloc_one`](Self::alloc_one) would use as far as it goes; the spans
    /// returned, one per round, never cross a page.
    pub fn alloc_bulk(&mut self, count: usize) -> (spans: Vec<Range<usize>>)
        requires
            old(self).wf(),
            old(self).spec_len() + count + old(self).spec_rows_per_page() <= usize::MAX,
        ensures
            final(self).wf(),
            final(self).spec_rows_per_page() == old(self).spec_rows_per_page(),
            final(self).spec_len() == old(self).spec_len() + count,
            ({
                let res = bulk_alloc(
                    old(self).pages_view(),
                    old(self).spec_rows_per_page() as nat,
                    count as nat,
                );
                final(self).pages_view() == res.0 && spans@ == res.1
            }),
    {
        let ghost rpp = self.rows_per_page as nat;
        let ghost goal = bulk_alloc(self.pages_view(), rpp, count as nat);
        let mut spans: Vec<Range<usize>> = Vec::new();
        let ghost old_count = count;
        let mut count = count;
        while count > 0
            invariant
                self.wf(),
                rpp == self.rows_per_page,
                self.rows_per_page == old(self).rows_per_page,
                self.spec_len() + count + rpp <= usize::MAX,
                self.spec_len() + count == old(self).spec_len() + old_count,
                bulk_alloc(self.pages_view(), rpp, count as nat).0 == goal.0,
                spans@ + bulk_alloc(self.pages_view(), rpp, count as nat).1 == goal.1,
            decreases count,
        {
            let ghost pv = self.pages_view();
            proof {
                self.lemma_packed();
                lemma_packed_target(pv, rpp, self.spec_len());
            }
            let ghost n1 = self.spec_len();
            let pid = self.ensure_page_with_space();
            let ghost mid = self.pages_view();
            let cap = self.pages[pid].capacity();
            let plen = self.pages[pid].len();
            let available = cap - plen;
            let take = if available < count { available } else { count };
            let local = match self.pages[pid].alloc_bulk(take) {
                Some(r) => r,
                None => {
                    assert(false);
                    Range { start: 0, end: 0 }
                },
            };
            proof {
                assert(pid * self.rows_per_page + plen == n1);
                assert(self.pages_view() =~= mid.update(
                    pid as int,
                    mid[pid as int] + Seq::new(take as nat, |i: int| None::<T>),
                ));
            }
            proof {
                lemma_packed_append(mid, rpp, n1, Seq::new(take as nat, |i: int| None::<T>));
                assert forall|j: int| 0 <= j < self.pages@.len() implies (#[trigger] self.pages@[j])@.len() <= self.rows_per_page by {
                    assert(self.pages@[j].wf());
                }
                self.lemma_packed_iff();
            }
            let start = pid * self.rows_per_page + local.start;
            let span = Range { start, end: start + take };
            proof {
                let t = pid as int;
                assert(t == alloc_target(pv, rpp));
                assert(with_target_page(pv, t) == mid);
                assert(bulk_alloc(pv, rpp, count as nat) == (
                    bulk_alloc(self.pages_view(), rpp, (count - take) as nat).0,
                    seq![span] + bulk_alloc(self.pages_view(), rpp, (count - take) as nat).1,
                ));
            }
            spans.push(span);
            assert(spans@ + bulk_alloc(self.pages_view(), rpp, (count - take) as nat).1 =~= goal.1);
            count = count - take;
        }
        assert(spans@ + Seq::<Range<usize>>::empty() =~= spans@);
        spans
    }

    /// Pages of a well-formed pool have room for at least one row.
    pub proof fn lemma_rpp_positive(&self)
        requires
            self.wf(),
        ensures
            self.spec_rows_per_page() > 0,
    {
    }

    /// Row `g` below the pool's row count lies in an existing page.
    pub proof fn lemma_row_page(&self, g: int)
        requires
            self.wf(),
            0 <= g < self.spec_len(),
        ensures
            0 <= g / (self.spec_rows_per_page() as int) < self.pages_view().len(),
            0 <= g % (self.spec_rows_per_page() as int) < self.spec_rows_per_page(),
    {
        self.lemma_index_in_pages(g);
    }

    proof fn lemma_index_in_pages(&self, g: int)
        requires
            self.wf(),
            0 <= g < self.spec_len(),
        ensures
            g / (self.rows_per_page as int) < self.pages@.len(),
            g % (self.rows_per_page as int) < self.rows_per_page,
            0 <= g / (self.rows_per_page as int),
    {
        self.lemma_len_bound();
        let r = self.rows_per_page as int;
        let n = self.pages@.len() as int;
        assert(g / r < n) by (nonlinear_arith)
            requires g < n * r, r > 0, g >= 0;
        assert(0 <= g / r) by (nonlinear_arith)
            requires r > 0, g >= 0;
        assert(g % r < r) by (nonlinear_arith)
            requires r > 0;
    }

    /// Store `value` in the allocated row `gidx`.
    pub fn write_at(&mut self, gidx: usize, value: T)
        requires
            old(self).wf(),
            old(self).allocated(gidx as int),
        ensures
            final(self).wf(),
            final(self).spec_rows_per_page() == old(self).spec_rows_per_page(),
            ({
                let r = old(self).spec_rows_per_page() as int;
                let p = gidx as int / r;
                final(self).pages_view() == old(self).pages_view().update(
                    p,
                    old(self).pages_view()[p].update(gidx as int % r, Some(value)),
                )
            }),
            final(self).rows() == old(self).rows().update(gidx as int, Some(value)),
    {
        let pid = self.page_of(gidx);
        let loc = self.local_of(gidx);
        let ghost pv = self.pages_view();
        proof {
            self.lemma_packed();
            lemma_packed_allocated(pv, self.rows_per_page as nat, self.spec_len(), gidx as int);
            lemma_packed_row(pv, self.rows_per_page as nat, self.spec_len(), gidx as int, Some(value));
        }
        self.pages[pid].write_at(loc, value);
        assert(self.pages_view() =~= pv.update(pid as int, pv[pid as int].update(loc as int, Some(value))));
    }

    /// Allocate one row and write `value` in it; returns the row.
    pub(crate) fn push_value(&mut self, value: T) -> (g: usize)
        requires
            old(self).wf(),
            (old(self).pages_view().len() + 1) * old(self).spec_rows_per_page() <= usize::MAX,
        ensures
            final(self).wf(),
            final(self).spec_rows_per_page() == old(self).spec_rows_per_page(),
            final(self).pages_view().len() <= old(self).pages_view().len() + 1,
            !old(self).allocated(g as int),
            final(self).allocated(g as int),
            final(self).slot(g as int) == Some(value),
            forall|h: int| h != g ==> #[trigger] final(self).allocated(h) == old(self).allocated(h),
            forall|h: int| old(self).allocated(h) ==> #[trigger] final(self).slot(h) == old(self).slot(h),
            pages_written(old(self).pages_view()) ==> pages_written(final(self).pages_view()),
    {
        let ghost pv0 = self.pages_view();
        let ghost rpp = self.rows_per_page as nat;
        let ghost r = self.rows_per_page as int;
        let g = self.alloc_one();
        let ghost pv1 = self.pages_view();
        self.write_at(g, value);
        proof {
            let t = alloc_target(pv0, rpp);
            let ps = with_target_page(pv0, t);
            let l = ps[t].len() as int;
            vstd::arithmetic::div_mod::lemma_fundamental_div_mod_converse(g as int, r, t, l);
            let pv2 = self.pages_view();
            assert(pv1 == ps.update(t, ps[t].push(None)));
            assert(pv1[t] == ps[t].push(None));
            assert(ps[t].push(None).update(l, Some(value)) =~= ps[t].push(Some(value)));
            assert(pv2 =~= ps.update(t, ps[t].push(Some(value))));
            assert(!old(self).allocated(g as int));
            assert forall|h: int| h != g implies #[trigger] self.allocated(h) == old(self).allocated(h) by {
                if h >= 0 {
                    assert(0 <= h / r && 0 <= h % r < r) by (nonlinear_arith)
                        requires r > 0, h >= 0;
                    if h / r == t && h % r == l {
                        vstd::arithmetic::div_mod::lemma_fundamental_div_mod(h, r);
                        assert(h == t * r + l) by (nonlinear_arith)
                            requires h == r * (h / r) + h % r, h / r == t, h % r == l;
                    }
                }
            }
            assert forall|h: int| old(self).allocated(h) implies #[trigger] self.slot(h) == old(self).slot(h) by {
                assert(0 <= h / r && 0 <= h % r < r) by (nonlinear_arith)
                    requires r > 0, h >= 0;
            }
            if pages_written(pv0) {
                assert forall|p: int, q: int| 0 <= p < pv2.len() && 0 <= q < pv2[p].len() implies (#[trigger] pv2[p][q]) is Some by {
                    if p != t {
                        assert(pv2[p] == pv0[p]);
                    } else if q < l {
                        if t < pv0.len() {
                            assert(pv2[p][q] == pv0[p][q]);
                        }
                    }
                }
            }
        }
        g
    }

    /// Borrow the value of row `gidx`. Reading an allocated row that was
    /// never written is excluded.
    pub fn get(&self, gidx: usize) -> (r: Result<&T, PoolError>)
        requires
            self.wf(),
            self.allocated(gidx as int) ==> self.slot(gidx as int).is_some(),
        ensures
            ({
                let rpp = self.spec_rows_per_page() as int;
                let p = gidx as int / rpp;
                let l = gidx as int % rpp;
                if gidx >= self.spec_len() {
                    r == Err::<&T, PoolError>(
                        PoolError::IndexOutOfBounds { index: gidx, len: self.spec_len() as usize },
                    )
                } else if l >= self.pages_view()[p].len() {
                    r == Err::<&T, PoolError>(
                        PoolError::IndexOutOfBounds {
                            index: l as usize,
                            len: self.pages_view()[p].len() as usize,
                        },
                    )
                } else {
                    r == Ok::<&T, PoolError>(&self.slot(gidx as int).unwrap())
                }
            }),
            gidx < self.spec_len() ==> (r matches Ok(v) && self.rows()[gidx as int] == Some(*v)),
    {
        proof {
            self.lemma_rows();
            if gidx < self.spec_len() {
                assert(self.allocated(gidx as int));
                assert(self.slot(gidx as int) == self.rows()[gidx as int]);
                assert(self.slot(gidx as int) is Some);
            }
        }
        let len = self.len_total();
        if gidx >= len {
            return Err(PoolError::IndexOutOfBounds { index: gidx, len });
        }
        proof {
            self.lemma_index_in_pages(gidx as int);
        }
        let pid = self.page_of(gidx);
        let loc = self.local_of(gidx);
        self.pages[pid].get(loc)
    }

    /// Borrow the value of row `gidx` for writing. Reading an allocated row
    /// that was never written is excluded.
    pub fn get_mut(&mut self, gidx: usize) -> (r: Result<&mut T, PoolError>)
        requires
            old(self).wf(),
            old(self).allocated(gidx as int) ==> old(self).slot(gidx as int).is_some(),
        ensures
            final(self).spec_rows_per_page() == old(self).spec_rows_per_page(),
            ({
                let rpp = old(self).spec_rows_per_page() as int;
                let pv = old(self).pages_view();
                let p = gidx as int / rpp;
                let l = gidx as int % rpp;
                if gidx >= old(self).spec_len() {
                    r == Err::<&mut T, PoolError>(
                        PoolError::IndexOutOfBounds { index: gidx, len: old(self).spec_len() as usize },
                    ) && *final(self) == *old(self)
                } else if l >= pv[p].len() {
                    r == Err::<&mut T, PoolError>(
                        PoolError::IndexOutOfBounds { index: l as usize, len: pv[p].len() as usize },
                    ) && final(self).pages_view() == pv
                } else {
                    &&& r is Ok
                    &&& *(r->Ok_0) == old(self).slot(gidx as int).unwrap()
                    &&& final(self).pages_view() == pv.update(p, pv[p].update(l, Some(*final(r->Ok_0))))
                }
            }),
            final(self).wf(),
    {
        let len = self.len_total();
        if gidx >= len {
            return Err(PoolError::IndexOutOfBounds { index: gidx, len });
        }
        proof {
            self.lemma_index_in_pages(gidx as int);
        }
        let pid = self.page_of(gidx);
        let loc = self.local_of(gidx);
        self.pages[pid].get_mut(loc)
    }

    /// Clamp `start .. start + nominal_len` to the page of `start` and to
    /// `total_len`.
    pub fn clamp_to_page(&self, start: usize, nominal_len: usize, total_len: usize) -> (r: Range<usize>)
        requires
            self.wf(),
            start + nominal_len <= usize::MAX,
            start - start % self.spec_rows_per_page() + self.spec_rows_per_page() <= usize::MAX,
        ensures
            ({
                let rpp = self.spec_rows_per_page() as int;
                let page_end = start - (start as int) % rpp + rpp;
                let page_end = if page_end < total_len { page_end } else { total_len as int };
                let end = if start + nominal_len < page_end { start + nominal_len } else { page_end };
                r == Range { start, end: end as usize }
            }),
    {
        let e = self.end_of_page(start);
        let page_end = if e < total_len { e } else { total_len };
        let want = start + nominal_len;
        let end = if want < page_end { want } else { page_end };
        Range { start, end }
    }

    /// A pool whose pages are those of a removal from a packed pool is
    /// packed.
    proof fn lemma_final_packed(&self, pv: Seq<Seq<Option<T>>>, n: nat, g: int)
        requires
            self.rows_per_page > 0,
            forall|i: int| 0 <= i < self.pages@.len() ==> (#[trigger] self.pages@[i]).wf(),
            forall|i: int| 0 <= i < self.pages@.len() ==> (#[trigger] self.pages@[i]).spec_capacity() == self.rows_per_page,
            packed(pv, self.rows_per_page as nat, n),
            0 <= g < n,
            self.pages_view() == pool_swap_remove(pv, self.rows_per_page as nat, g),
        ensures
            forall|i: int| 0 <= i < self.pages@.len() - 1 ==> (#[trigger] self.pages@[i])@.len() == self.rows_per_page,
            self.spec_len() == n - 1,
    {
        lemma_pool_swap_remove(pv, self.rows_per_page as nat, n, g);
        assert forall|j: int| 0 <= j < self.pages@.len() implies (#[trigger] self.pages@[j])@.len() <= self.rows_per_page by {
            assert(self.pages@[j].wf());
        }
        self.lemma_packed_iff();
        if self.pages_view().len() == 0 {
            assert(n - 1 == 0);
        }
    }

    /// Swap-remove row `gidx`, the pool acting as one contiguous array: the
    /// pool's last row takes its place. When another row moved, returns that
    /// move as global indices `(from, to)`.
    pub fn free_one_swap_remove(&mut self, gidx: usize) -> (r: Result<Option<(usize, usize)>, PoolError>)
        requires
            old(self).wf(),
        ensures
            final(self).wf(),
            final(self).spec_rows_per_page() == old(self).spec_rows_per_page(),
            free_one_outcome(
                old(self).pages_view(),
                old(self).spec_rows_per_page() as int,
                gidx,
                final(self).pages_view(),
                r,
            ),
            r is Ok <==> gidx < old(self).spec_len(),
            r is Ok ==> final(self).rows() == swap_remove_step(old(self).rows(), gidx as int),
    {
        let page_idx = self.page_of(gidx);
        let local = self.local_of(gidx);
        let ghost pv = self.pages_view();
        let ghost rpp = self.rows_per_page as nat;
        let ghost n0 = self.spec_len();
        proof {
            self.lemma_packed();
            let r = self.rows_per_page as int;
            assert(0 <= page_idx && 0 <= local < r) by {
                vstd::arithmetic::div_mod::lemma_div_pos_is_pos(gidx as int, r);
                vstd::arithmetic::div_mod::lemma_mod_bound(gidx as int, r);
            }
            if gidx < n0 {
                lemma_packed_row(pv, rpp, n0, gidx as int, pv[page_idx as int][local as int]);
            }
        }
        if page_idx >= self.pages.len() {
            return Err(PoolError::PageMissing { page: page_idx });
        }
        let plen = self.pages[page_idx].len();
        if local >= plen {
            return Err(PoolError::IndexOutOfBounds { index: local, len: plen });
        }
        proof {
            lemma_packed_allocated(pv, rpp, n0, gidx as int);
            lemma_pool_swap_remove(pv, rpp, n0, gidx as int);
        }
        let n = self.len_total();
        let np = self.pages.len();
        if self.pages[np - 1].len() == 0 {
            let ghost pg = self.pages@;
            self.pages.pop();
            assert(self.pages@ == pg.drop_last());
            assert(self.pages_view() =~= pv.drop_last());
            proof {
                let r = self.rows_per_page as int;
                assert(self.pages@.len() * r <= pg.len() * r) by (nonlinear_arith)
                    requires self.pages@.len() <= pg.len(), r > 0;
            }
        }
        let ghost ps = self.pages_view();
        let last = self.pages.len() - 1;
        proof {
            assert(ps.len() > 0);
            assert(ps[last as int] == self.pages@[last as int]@);
            self.lemma_page_len(last as int);
        }
        let v = self.pages[last].pop_slot();
        let ghost ps2 = self.pages_view();
        assert(ps2 =~= ps.update(last as int, ps[last as int].drop_last()));
        if gidx == n - 1 {
            proof {
                self.lemma_final_packed(pv, n0, gidx as int);
            }
            Ok(None)
        } else {
            proof {
                lemma_packed_drop_last(pv, rpp, n0);
                lemma_packed_row(ps2, rpp, (n0 - 1) as nat, gidx as int, v);
                assert(self.pages@[page_idx as int].wf());
            }
            self.pages[page_idx].set_slot(local, v);
            assert(self.pages_view() =~= ps2.update(page_idx as int, ps2[page_idx as int].update(local as int, v)));
            proof {
                self.lemma_final_packed(pv, n0, gidx as int);
            }
            Ok(Some((n - 1, gidx)))
        }
    }

    /// Swap-remove every row listed in `gidxs`, the pool acting as one
    /// contiguous array: largest index first, an index past the rows left is
    /// skipped and an index listed twice is removed twice. Each move is
    /// appended to `moved` as global `(from, to)` as it happens. A listed row
    /// in a page the pool does not have refuses the whole removal with
    /// `PageMissing`, naming the first such page.
    pub fn free_bulk_swap_remove(&mut self, gidxs: Vec<usize>, moved: &mut Vec<(usize, usize)>) -> (r: Result<(), PoolError>)
        requires
            old(self).wf(),
        ensures
            final(self).wf(),
            final(self).spec_rows_per_page() == old(self).spec_rows_per_page(),
            gidxs@.len() == 0 ==> r is Ok && final(self).pages_view() == old(self).pages_view()
                && final(moved)@ == old(moved)@,
            gidxs@.len() > 0 ==> exists|sg: Seq<usize>|
                #![trigger sg.to_multiset()]
                sorted_usize(sg) && sg.to_multiset() == gidxs@.to_multiset() && bulk_free_outcome(
                    old(self).pages_view(),
                    old(self).spec_rows_per_page() as nat,
                    sg,
                    old(moved)@,
                    final(moved)@,
                    final(self).pages_view(),
                    r,
                ),
    {
        if gidxs.len() == 0 {
            return Ok(());
        }
        let mut sorted = gidxs;
        sort_indices(&mut sorted);
        let ghost sg = sorted@;
        let ghost ov = self.pages_view();
        let ghost rpp = self.rows_per_page as nat;
        let ghost om = moved@;
        let bound = self.pages.len() * self.rows_per_page;
        let len = sorted.len();
        let mut i: usize = 0;
        assert(sg.take(0) =~= Seq::<usize>::empty());
        while i < len && sorted[i] < bound
            invariant
                i <= len,
                len == sg.len(),
                sorted@ == sg,
                first_at_least(sg.take(i as int), bound as int) == i,
            decreases len - i,
        {
            assert(sg.take(i + 1).drop_last() =~= sg.take(i as int));
            i = i + 1;
        }
        assert(bound as int == ov.len() * rpp);
        if i < len {
            proof {
                assert(sg.take(i + 1).drop_last() =~= sg.take(i as int));
                lemma_first_at_least_sticks(sg, bound as int, i + 1);
            }
            return Err(PoolError::PageMissing { page: sorted[i] / self.rows_per_page });
        }
        assert(sg.take(len as int) =~= sg);
        let ghost n0 = self.spec_len();
        let mut k: usize = len;
        assert(sg.take(k as int) =~= sg);
        assert(moved@ + bulk_moves(flat(ov), sg) =~= om + bulk_moves(flat(ov), sg));
        while k > 0
            invariant
                k <= sg.len(),
                len == sg.len(),
                sorted@ == sg,
                self.wf(),
                self.rows_per_page == old(self).rows_per_page,
                rpp == self.rows_per_page,
                pool_bulk_remove(self.pages_view(), rpp, sg.take(k as int)) == pool_bulk_remove(ov, rpp, sg),
                moved@ + bulk_moves(self.rows(), sg.take(k as int)) == om + bulk_moves(flat(ov), sg),
            decreases k,
        {
            let t = sorted[k - 1];
            let ghost pv = self.pages_view();
            let ghost pre = moved@;
            assert(sg.take(k as int).last() == t);
            assert(sg.take(k as int).drop_last() =~= sg.take(k - 1));
            let n = self.len_total();
            proof {
                self.lemma_packed();
                lemma_flat_len(pv, rpp, n as nat);
            }
            if t < n {
                proof {
                    lemma_pool_swap_remove(pv, rpp, n as nat, t as int);
                }
                let res = self.free_one_swap_remove(t);
                match res {
                    Ok(Some(m)) => {
                        moved.push(m);
                        assert(moved@ + bulk_moves(self.rows(), sg.take(k - 1)) =~= pre + (seq![m] + bulk_moves(self.rows(), sg.take(k - 1))));
                    },
                    _ => {},
                }
            }
            k = k - 1;
        }
        proof {
            assert(sg.take(0) =~= Seq::<usize>::empty());
            assert(moved@ =~= moved@ + Seq::<(usize, usize)>::empty());
            assert(first_at_least(sg, (ov.len() * rpp) as int) == len);
        }
        Ok(())
    }

    /// Overwrite row `gidx` in place: the exclusive access that `get_mut`
    /// gives, applied to a store. Fails like [`get`](Self::get).
    pub fn set_at(&mut self, gidx: usize, value: T) -> (r: Result<(), PoolError>)
        requires
            old(self).wf(),
        ensures
            final(self).wf(),
            final(self).spec_rows_per_page() == old(self).spec_rows_per_page(),
            ({
                let rpp = old(self).spec_rows_per_page() as int;
                let pv = old(self).pages_view();
                let p = gidx as int / rpp;
                let l = gidx as int % rpp;
                if gidx >= old(self).spec_len() {
                    r == Err::<(), PoolError>(
                        PoolError::IndexOutOfBounds { index: gidx, len: old(self).spec_len() as usize },
                    ) && final(self).pages_view() == pv
                } else if l >= pv[p].len() {
                    r == Err::<(), PoolError>(
                        PoolError::IndexOutOfBounds { index: l as usize, len: pv[p].len() as usize },
                    ) && final(self).pages_view() == pv
                } else {
                    r is Ok && final(self).pages_view() == pv.update(p, pv[p].update(l, Some(value)))
                }
            }),
    {
        let len = self.len_total();
        if gidx >= len {
            return Err(PoolError::IndexOutOfBounds { index: gidx, len });
        }
        proof {
            self.lemma_index_in_pages(gidx as int);
        }
        let pid = self.page_of(gidx);
        let loc = self.local_of(gidx);
        let plen = self.pages[pid].len();
        if loc >= plen {
            return Err(PoolError::IndexOutOfBounds { index: loc, len: plen });
        }
        self.write_at(gidx, value);
        Ok(())
    }
}

/// What copying out the rows of `range` from pages `pv` of `rpp_u` rows
/// gives: the rows, when `range` lies inside one existing page, else the
/// error that says why not.
pub open spec fn tile_result<T>(
    pv: Seq<Seq<Option<T>>>,
    rpp_u: usize,
    range: Range<usize>,
    r: Result<Vec<T>, PoolError>,
) -> bool {
    let rpp = rpp_u as int;
    let len = total_len(pv, rpp_u as nat);
    let p = range.start as int / rpp;
    let ls = range.start as int % rpp;
    let le = ls + (range.end - range.start);
    if range.start > range.end || range.end > len {
        r == Err::<Vec<T>, PoolError>(
            PoolError::RangeOutOfBounds {
                start: range.start,
                end: range.end,
                len: len as usize,
            },
        )
    } else if range.start < range.end && p != (range.end - 1) as int / rpp {
        r == Err::<Vec<T>, PoolError>(
            PoolError::RangeCrossesPage {
                start: range.start,
                end: range.end,
                rows_per_page: rpp as usize,
            },
        )
    } else if p >= pv.len() {
        r == Err::<Vec<T>, PoolError>(PoolError::PageMissing { page: p as usize })
    } else if le > pv[p].len() {
        r == Err::<Vec<T>, PoolError>(
            PoolError::RangeOutOfBounds {
                start: ls as usize,
                end: le as usize,
                len: pv[p].len() as usize,
            },
        )
    } else {
        r is Ok && r->Ok_0@ == pv[p].subrange(ls, le).map_values(|o: Option<T>| o.unwrap())
    }
}

/// The rows that copying out `range` from pages `pv` of `rpp_u` rows
/// gives, or `None` when [`tile_result`] names an error.
pub open spec fn tile_value<T>(pv: Seq<Seq<Option<T>>>, rpp_u: usize, range: Range<usize>) -> Option<Seq<T>> {
    let rpp = rpp_u as int;
    let len = total_len(pv, rpp_u as nat);
    let p = range.start as int / rpp;
    let ls = range.start as int % rpp;
    let le = ls + (range.end - range.start);
    if range.start > range.end || range.end > len {
        None
    } else if range.start < range.end && p != (range.end - 1) as int / rpp {
        None
    } else if p >= pv.len() {
        None
    } else if le > pv[p].len() {
        None
    } else {
        Some(pv[p].subrange(ls, le).map_values(|o: Option<T>| o.unwrap()))
    }
}

/// A copy succeeds exactly when [`tile_value`] has rows, and then gives
/// them.
pub proof fn lemma_tile_value<T>(pv: Seq<Seq<Option<T>>>, rpp_u: usize, range: Range<usize>, r: Result<Vec<T>, PoolError>)
    requires
        tile_result(pv, rpp_u, range, r),
    ensures
        r is Ok <==> tile_value(pv, rpp_u, range) is Some,
        r is Ok ==> r->Ok_0@ == tile_value(pv, rpp_u, range)->Some_0,
{
}

impl<T: Copy> PagedPool<T> {
    /// What [`slice_tile`](Self::slice_tile) returns for `range`.
    pub open spec fn slice_tile_result(&self, range: Range<usize>, r: Result<Vec<T>, PoolError>) -> bool {
        tile_result(self.pages_view(), self.spec_rows_per_page(), range, r)
    }

    /// Copy out the rows of `range`, which must lie inside one page. Every
    /// row read must have been written.
    pub fn slice_tile(&self, range: Range<usize>) -> (r: Result<Vec<T>, PoolError>)
        requires
            self.wf(),
            forall|g: int|
                range.start <= g < range.end && #[trigger] self.allocated(g) ==> self.slot(g).is_some(),
        ensures
            self.slice_tile_result(range, r),
    {
        let (page, local) = match self.localize_range(range) {
            Ok(v) => v,
            Err(e) => {
                return Err(e);
            },
        };
        if page >= self.pages.len() {
            return Err(PoolError::PageMissing { page });
        }
        assert(range.start <= range.end);
        proof {
            let r = self.rows_per_page as int;
            let st = range.start as int;
            assert(r * (st / r) + st % r == st) by (nonlinear_arith)
                requires r > 0;
            assert(st / r >= 0 && r * (st / r) >= 0) by (nonlinear_arith)
                requires r > 0, st >= 0;
        }
        assert(page == range.start as int / self.rows_per_page as int);
        assert(local.start == range.start as int % self.rows_per_page as int);
        assert(local.end == local.start + (range.end - range.start));
        let plen = self.pages[page].len();
        if local.end > plen {
            return Err(PoolError::RangeOutOfBounds { start: local.start, end: local.end, len: plen });
        }
        let ghost pv = self.pages_view();
        let ghost rpp = self.rows_per_page as int;
        let mut out: Vec<T> = Vec::new();
        let mut i = local.start;
        while i < local.end
            invariant
                local.start <= i <= local.end <= plen,
                plen == pv[page as int].len(),
                page < self.pages@.len(),
                pv == self.pages_view(),
                self.wf(),
                rpp == self.rows_per_page,
                local.start == range.start as int % rpp,
                local.end == local.start + (range.end - range.start),
                page == range.start as int / rpp,
                forall|g: int|
                    range.start <= g < range.end && #[trigger] self.allocated(g) ==> self.slot(g).is_some(),
                out@ == pv[page as int].subrange(local.start as int, i as int).map_values(
                    |o: Option<T>| o.unwrap(),
                ),
            decreases local.end - i,
        {
            proof {
                let g = page * rpp + i;
                let s = range.start as int;
                assert(rpp * (s / rpp) + s % rpp == s) by (nonlinear_arith)
                    requires rpp > 0;
                assert(g == s - s % rpp + i) by (nonlinear_arith)
                    requires g == page * rpp + i, rpp * (s / rpp) + s % rpp == s, page == s / rpp;
                assert(i < rpp) by {
                    self.lemma_page_len(page as int);
                }
                vstd::arithmetic::div_mod::lemma_fundamental_div_mod_converse(g, rpp, page as int, i as int);
                assert(range.start <= g < range.end);
                assert(self.allocated(g));
            }
            let v = match self.pages[page].get(i) {
                Ok(x) => *x,
                Err(_) => {
                    assert(false);
                    return Err(PoolError::PageMissing { page });
                },
            };
            out.push(v);
            i = i + 1;
            assert(out@ =~= pv[page as int].subrange(local.start as int, i as int).map_values(
                |o: Option<T>| o.unwrap(),
            ));
        }
        Ok(out)
    }
}


/// A value written in an allocated row is what the row then holds; every
/// other row keeps its allocation and content.
pub proof fn law_write_then_read<T>(before: PagedPool<T>, after: PagedPool<T>, g: int, v: T)
    requires
        before.wf(),
        before.allocated(g),
        after.spec_rows_per_page() == before.spec_rows_per_page(),
        after.pages_view() == before.pages_view().update(
            g / (before.spec_rows_per_page() as int),
            before.pages_view()[g / (before.spec_rows_per_page() as int)].update(
                g % (before.spec_rows_per_page() as int),
                Some(v),
            ),
        ),
    ensures
        after.allocated(g),
        after.slot(g) == Some(v),
        forall|h: int| h != g ==> #[trigger] after.allocated(h) == before.allocated(h),
        forall|h: int| h != g && before.allocated(h) ==> #[trigger] after.slot(h) == before.slot(h),
{
    before.lemma_rpp_positive();
    let r = before.spec_rows_per_page() as int;
    assert forall|h: int| h != g implies #[trigger] after.allocated(h) == before.allocated(h) && (before.allocated(h)
        ==> after.slot(h) == before.slot(h)) by {
        if h >= 0 && h / r == g / r && h % r == g % r {
            vstd::arithmetic::div_mod::lemma_fundamental_div_mod(h, r);
            vstd::arithmetic::div_mod::lemma_fundamental_div_mod(g, r);
        }
    }
    assert forall|h: int| h != g && before.allocated(h) implies #[trigger] after.slot(h) == before.slot(h) by {
        assert(after.allocated(h) == before.allocated(h));
    }
}

} // verus!
