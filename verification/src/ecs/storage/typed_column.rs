//! A double-buffered column of typed values over two paged pools.
//!
//! Reads come from the current pool, writes go to the next one, and
//! `swap_buffers` exchanges them at the end of a tick. Every allocation and
//! removal is applied to both pools, so both always have the same pages with
//! the same row counts: a row index means the same row in either buffer.
use vstd::prelude::*;
use core::ops::Range;
use crate::pool::paged_pool::{
    PagedPool, PoolError, is_power_of_two, total_len, last_open_page, alloc_target, with_target_page,
    bulk_alloc, bulk_free_outcome, free_one_outcome, first_at_least, pool_swap_remove, pool_bulk_remove,
    lemma_pool_swap_remove, tile_result,
};
use crate::pool::packed::{flat, packed, lemma_flat_len, lemma_packed_same_shape};
use crate::pool::page::{bulk_remove, bulk_moves, swap_remove_step};
use crate::pool::sort::sorted_usize;

verus! {

/// `a` and `b` have as many pages, and each page of `a` as many rows as the
/// page of `b` at the same position.
pub open spec fn same_shape<A, B>(a: Seq<Seq<A>>, b: Seq<Seq<B>>) -> bool {
    &&& a.len() == b.len()
    &&& forall|p: int| 0 <= p < a.len() ==> #[trigger] a[p].len() == b[p].len()
}

proof fn lemma_last_open_shape<A, B>(a: Seq<Seq<A>>, b: Seq<Seq<B>>, rpp: nat, i: int)
    requires
        same_shape(a, b),
        i <= a.len(),
    ensures
        last_open_page(a, rpp, i) == last_open_page(b, rpp, i),
    decreases i,
{
    if i > 0 {
        assert(a[i - 1].len() == b[i - 1].len());
        lemma_last_open_shape(a, b, rpp, i - 1);
    }
}

proof fn lemma_last_open_range<A>(a: Seq<Seq<A>>, rpp: nat, i: int)
    requires
        i <= a.len(),
    ensures
        -1 <= last_open_page(a, rpp, i) < if i > 0 { i } else { 0 },
    decreases i,
{
    if i > 0 {
        lemma_last_open_range(a, rpp, i - 1);
    }
}

proof fn lemma_bulk_alloc_shape<A, B>(a: Seq<Seq<Option<A>>>, b: Seq<Seq<Option<B>>>, rpp: nat, count: nat)
    requires
        same_shape(a, b),
    ensures
        same_shape(bulk_alloc(a, rpp, count).0, bulk_alloc(b, rpp, count).0),
        bulk_alloc(a, rpp, count).1 == bulk_alloc(b, rpp, count).1,
    decreases count,
{
    if count > 0 && rpp > 0 {
        lemma_last_open_shape(a, b, rpp, a.len() as int);
        lemma_last_open_range(a, rpp, a.len() as int);
        let t = alloc_target(a, rpp);
        assert(t == alloc_target(b, rpp));
        let pa = with_target_page(a, t);
        let pb = with_target_page(b, t);
        assert(same_shape(pa, pb)) by {
            if t == a.len() {
                assert forall|p: int| 0 <= p < pa.len() implies #[trigger] pa[p].len() == pb[p].len() by {
                    if p < a.len() {
                        assert(pa[p] == a[p] && pb[p] == b[p]);
                    }
                }
            }
        }
        if 0 <= t < pa.len() {
            let len = pa[t].len();
            assert(len == pb[t].len());
            let avail = rpp - len;
            let take: nat = if avail <= 0 { 0 } else if avail < count { avail as nat } else { count };
            assert(take == (if rpp - pb[t].len() <= 0 { 0 } else if rpp - pb[t].len() < count { (rpp - pb[t].len()) as nat } else { count }));
            let pa2 = pa.update(t, pa[t] + Seq::new(take, |i: int| None::<A>));
            let pb2 = pb.update(t, pb[t] + Seq::new(take, |i: int| None::<B>));
            assert(same_shape(pa2, pb2)) by {
                assert forall|p: int| 0 <= p < pa2.len() implies #[trigger] pa2[p].len() == pb2[p].len() by {
                    if p != t {
                        assert(pa2[p] == pa[p] && pb2[p] == pb[p]);
                    }
                }
            }
            if take > 0 {
                lemma_bulk_alloc_shape(pa2, pb2, rpp, (count - take) as nat);
            }
        }
    }
}

proof fn lemma_bulk_remove_lengths<A, B>(s1: Seq<A>, s2: Seq<B>, asc: Seq<usize>)
    requires
        s1.len() == s2.len(),
    ensures
        bulk_remove(s1, asc).len() == bulk_remove(s2, asc).len(),
        bulk_moves(s1, asc) == bulk_moves(s2, asc),
    decreases asc.len(),
{
    if asc.len() > 0 {
        let t = asc.last();
        if t >= s1.len() {
            lemma_bulk_remove_lengths(s1, s2, asc.drop_last());
        } else {
            lemma_bulk_remove_lengths(
                swap_remove_step(s1, t as int),
                swap_remove_step(s2, t as int),
                asc.drop_last(),
            );
        }
    }
}

proof fn lemma_flat_len_shape<A, B>(a: Seq<Seq<A>>, b: Seq<Seq<B>>)
    requires
        same_shape(a, b),
    ensures
        flat(a).len() == flat(b).len(),
    decreases a.len(),
{
    if a.len() > 0 {
        let da = a.drop_last();
        let db = b.drop_last();
        assert(same_shape(da, db)) by {
            assert forall|p: int| 0 <= p < da.len() implies #[trigger] da[p].len() == db[p].len() by {
                assert(da[p] == a[p] && db[p] == b[p]);
            }
        }
        lemma_flat_len_shape(da, db);
        assert(a.last().len() == b.last().len());
    }
}

proof fn lemma_total_len_shape<A, B>(a: Seq<Seq<A>>, b: Seq<Seq<B>>, rpp: nat)
    requires
        same_shape(a, b),
    ensures
        total_len(a, rpp) == total_len(b, rpp),
{
    if a.len() > 0 {
        assert(a.last().len() == b.last().len());
    }
}

/// Removing the same row from two packed pools of the same shape leaves them
/// with the same shape.
proof fn lemma_swap_remove_shape<A, B>(a: Seq<Seq<A>>, b: Seq<Seq<B>>, rpp: nat, n: nat, g: int)
    requires
        same_shape(a, b),
        packed(a, rpp, n),
        packed(b, rpp, n),
        0 <= g < n,
    ensures
        same_shape(pool_swap_remove(a, rpp, g), pool_swap_remove(b, rpp, g)),
{
    lemma_pool_swap_remove(a, rpp, n, g);
    lemma_pool_swap_remove(b, rpp, n, g);
    lemma_flat_len(a, rpp, n);
    assert(a.len() > 0);
    assert(a.last().len() == b.last().len());
    lemma_packed_same_shape(pool_swap_remove(a, rpp, g), pool_swap_remove(b, rpp, g), rpp, (n - 1) as nat);
}

/// Removing the same sorted rows from two packed pools of the same shape
/// leaves them with the same shape.
proof fn lemma_bulk_remove_shape<A, B>(a: Seq<Seq<A>>, b: Seq<Seq<B>>, rpp: nat, n: nat, asc: Seq<usize>)
    requires
        same_shape(a, b),
        packed(a, rpp, n),
        packed(b, rpp, n),
    ensures
        same_shape(pool_bulk_remove(a, rpp, asc), pool_bulk_remove(b, rpp, asc)),
    decreases asc.len(),
{
    lemma_total_len_shape(a, b, rpp);
    lemma_flat_len(a, rpp, n);
    if a.len() == 0 {
        assert(total_len(a, rpp) == 0);
    }
    if asc.len() > 0 {
        let t = asc.last();
        if t >= total_len(a, rpp) {
            lemma_bulk_remove_shape(a, b, rpp, n, asc.drop_last());
        } else {
            lemma_swap_remove_shape(a, b, rpp, n, t as int);
            lemma_pool_swap_remove(a, rpp, n, t as int);
            lemma_pool_swap_remove(b, rpp, n, t as int);
            lemma_bulk_remove_shape(
                pool_swap_remove(a, rpp, t as int),
                pool_swap_remove(b, rpp, t as int),
                rpp,
                (n - 1) as nat,
                asc.drop_last(),
            );
        }
    }
}

/// Removing the same sorted rows from two packed pools of the same shape
/// reports the same moves and the same result, and leaves them with the same
/// shape.
proof fn lemma_bulk_free_lockstep<A, B>(
    oa: Seq<Seq<A>>,
    ob: Seq<Seq<B>>,
    rpp: nat,
    n: nat,
    sg: Seq<usize>,
    ma: Seq<(usize, usize)>,
    pa: Seq<Seq<A>>,
    ra: Result<(), PoolError>,
    mb: Seq<(usize, usize)>,
    pb: Seq<Seq<B>>,
    rb: Result<(), PoolError>,
)
    requires
        same_shape(oa, ob),
        packed(oa, rpp, n),
        packed(ob, rpp, n),
        bulk_free_outcome(oa, rpp, sg, Seq::empty(), ma, pa, ra),
        bulk_free_outcome(ob, rpp, sg, Seq::empty(), mb, pb, rb),
    ensures
        ma == mb,
        ra == rb,
        same_shape(pa, pb),
{
    if first_at_least(sg, (oa.len() * rpp) as int) >= sg.len() {
        lemma_flat_len_shape(oa, ob);
        lemma_bulk_remove_lengths(flat(oa), flat(ob), sg);
        lemma_bulk_remove_shape(oa, ob, rpp, n, sg);
    }
}

/// A column of `T` with a read buffer and a write buffer.
pub struct Column<T> {
    cur: PagedPool<T>,
    nxt: PagedPool<T>,
}

impl<T> Column<T> {
    /// Pages of the read buffer.
    pub closed spec fn cur_view(&self) -> Seq<Seq<Option<T>>> {
        self.cur.pages_view()
    }

    /// Pages of the write buffer.
    pub closed spec fn next_view(&self) -> Seq<Seq<Option<T>>> {
        self.nxt.pages_view()
    }

    pub closed spec fn spec_rows_per_page(&self) -> usize {
        self.cur.spec_rows_per_page()
    }

    /// Number of rows, the same in both buffers.
    pub open spec fn spec_len(&self) -> nat {
        total_len(self.cur_view(), self.spec_rows_per_page() as nat)
    }

    /// Both buffers are well-formed pools with the same pages, each page with
    /// the same number of rows.
    pub closed spec fn wf(&self) -> bool {
        &&& self.cur.wf()
        &&& self.nxt.wf()
        &&& self.cur.spec_rows_per_page() == self.nxt.spec_rows_per_page()
        &&& self.cur.spec_rows_per_page() > 0
        &&& same_shape(self.cur.pages_view(), self.nxt.pages_view())
    }

    /// The read and write buffers agree on pages and row counts.
    pub proof fn lemma_lockstep(&self)
        requires
            self.wf(),
        ensures
            same_shape(self.cur_view(), self.next_view()),
            self.spec_rows_per_page() > 0,
    {
    }

    /// Empty column whose pages each hold `rows_per_page` rows, a non-zero
    /// power of two.
    pub fn with_rows_per_page(rows_per_page: usize) -> (c: Self)
        requires
            is_power_of_two(rows_per_page as nat),
        ensures
            c.wf(),
            c.cur_view() == Seq::<Seq<Option<T>>>::empty(),
            c.next_view() == Seq::<Seq<Option<T>>>::empty(),
            c.spec_rows_per_page() == rows_per_page,
    {
        let c = Column {
            cur: PagedPool::with_rows_per_page(rows_per_page),
            nxt: PagedPool::with_rows_per_page(rows_per_page),
        };
        proof {
            c.cur.lemma_rpp_positive();
        }
        c
    }

    pub fn rows_per_page(&self) -> (r: usize)
        ensures
            r == self.spec_rows_per_page(),
    {
        self.cur.rows_per_page()
    }

    pub fn len_total(&self) -> (n: usize)
        requires
            self.wf(),
        ensures
            n == self.spec_len(),
    {
        self.cur.len_total()
    }

    pub fn is_empty(&self) -> (b: bool)
        requires
            self.wf(),
        ensures
            b == (self.spec_len() == 0),
    {
        self.cur.is_empty()
    }

    /// Clamp `start .. start + nominal_len` to the page of `start` and to the
    /// row count.
    pub fn clamp_to_page(&self, start: usize, nominal_len: usize) -> (r: Range<usize>)
        requires
            self.wf(),
            start + nominal_len <= usize::MAX,
            start - start % self.spec_rows_per_page() + self.spec_rows_per_page() <= usize::MAX,
        ensures
            ({
                let rpp = self.spec_rows_per_page() as int;
                let page_end = start - (start as int) % rpp + rpp;
                let page_end = if page_end < self.spec_len() { page_end } else { self.spec_len() as int };
                let end = if start + nominal_len < page_end { start + nominal_len } else { page_end };
                r == Range { start, end: end as usize }
            }),
    {
        let total = self.len_total();
        self.cur.clamp_to_page(start, nominal_len, total)
    }

    /// Exchange the read and write buffers.
    pub fn swap_buffers(&mut self)
        requires
            old(self).wf(),
        ensures
            final(self).wf(),
            final(self).cur_view() == old(self).next_view(),
            final(self).next_view() == old(self).cur_view(),
            final(self).spec_rows_per_page() == old(self).spec_rows_per_page(),
    {
        core::mem::swap(&mut self.cur, &mut self.nxt);
        proof {
            let a = self.cur.pages_view();
            let b = self.nxt.pages_view();
            assert forall|p: int| 0 <= p < a.len() implies #[trigger] a[p].len() == b[p].len() by {
                assert(old(self).nxt.pages_view()[p].len() == old(self).cur.pages_view()[p].len());
            }
        }
    }
}

impl<T> Column<T> {
    /// Row `g` exists: its page exists and holds it.
    pub open spec fn allocated(&self, g: int) -> bool {
        let rpp = self.spec_rows_per_page() as int;
        0 <= g && g / rpp < self.cur_view().len() && g % rpp < self.cur_view()[g / rpp].len()
    }

    /// Allocate one row in both buffers, unwritten, and return its index:
    /// the same row in the read and in the write buffer.
    pub fn alloc_one(&mut self) -> (gidx: usize)
        requires
            old(self).wf(),
            (old(self).cur_view().len() + 1) * old(self).spec_rows_per_page() <= usize::MAX,
        ensures
            final(self).wf(),
            final(self).spec_rows_per_page() == old(self).spec_rows_per_page(),
            ({
                let rpp = old(self).spec_rows_per_page() as nat;
                let t = alloc_target(old(self).cur_view(), rpp);
                let pc = with_target_page(old(self).cur_view(), t);
                let pn = with_target_page(old(self).next_view(), t);
                &&& t == alloc_target(old(self).next_view(), rpp)
                &&& gidx == t * rpp + pc[t].len()
                &&& gidx == t * rpp + pn[t].len()
                &&& final(self).cur_view() == pc.update(t, pc[t].push(None))
                &&& final(self).next_view() == pn.update(t, pn[t].push(None))
            }),
            final(self).allocated(gidx as int),
    {
        let ghost oc = self.cur.pages_view();
        let ghost on = self.nxt.pages_view();
        let ghost rpp = self.cur.spec_rows_per_page() as nat;
        proof {
            lemma_last_open_shape(oc, on, rpp, oc.len() as int);
            lemma_last_open_range(oc, rpp, oc.len() as int);
        }
        let gidx = self.cur.alloc_one();
        let _mirror = self.nxt.alloc_one();
        proof {
            let t = alloc_target(oc, rpp);
            let pc = with_target_page(oc, t);
            let pn = with_target_page(on, t);
            assert(pc[t].len() == pn[t].len()) by {
                if t < oc.len() {
                    assert(oc[t].len() == on[t].len());
                }
            }
            let a = self.cur.pages_view();
            let b = self.nxt.pages_view();
            assert forall|p: int| 0 <= p < a.len() implies #[trigger] a[p].len() == b[p].len() by {
                if p != t && p < oc.len() {
                    assert(oc[p].len() == on[p].len());
                }
            }
        }
        gidx
    }

    /// Allocate `count` unwritten rows in both buffers; returns the spans,
    /// which never cross a page and are the same in either buffer.
    pub fn alloc_bulk(&mut self, count: usize) -> (spans: Vec<Range<usize>>)
        requires
            old(self).wf(),
            old(self).spec_len() + count + old(self).spec_rows_per_page() <= usize::MAX,
        ensures
            final(self).wf(),
            final(self).spec_rows_per_page() == old(self).spec_rows_per_page(),
            ({
                let rpp = old(self).spec_rows_per_page() as nat;
                let rc = bulk_alloc(old(self).cur_view(), rpp, count as nat);
                let rn = bulk_alloc(old(self).next_view(), rpp, count as nat);
                &&& final(self).cur_view() == rc.0
                &&& final(self).next_view() == rn.0
                &&& spans@ == rc.1
                &&& spans@ == rn.1
            }),
    {
        proof {
            lemma_total_len_shape(self.cur.pages_view(), self.nxt.pages_view(), self.cur.spec_rows_per_page() as nat);
            lemma_bulk_alloc_shape(
                self.cur.pages_view(),
                self.nxt.pages_view(),
                self.cur.spec_rows_per_page() as nat,
                count as nat,
            );
        }
        let spans = self.cur.alloc_bulk(count);
        let _mirror = self.nxt.alloc_bulk(count);
        spans
    }

    /// Store `value` in row `gidx` of the read buffer.
    pub fn init_cur_at(&mut self, gidx: usize, value: T)
        requires
            old(self).wf(),
            old(self).allocated(gidx as int),
        ensures
            final(self).wf(),
            final(self).spec_rows_per_page() == old(self).spec_rows_per_page(),
            ({
                let r = old(self).spec_rows_per_page() as int;
                let p = gidx as int / r;
                final(self).cur_view() == old(self).cur_view().update(
                    p,
                    old(self).cur_view()[p].update(gidx as int % r, Some(value)),
                )
            }),
            final(self).next_view() == old(self).next_view(),
    {
        self.cur.write_at(gidx, value);
        proof {
            let a = self.cur.pages_view();
            let b = self.nxt.pages_view();
            assert forall|p: int| 0 <= p < a.len() implies #[trigger] a[p].len() == b[p].len() by {
                assert(old(self).cur.pages_view()[p].len() == b[p].len());
            }
        }
    }

    /// Store `value` in row `gidx` of the write buffer.
    pub fn init_next_at(&mut self, gidx: usize, value: T)
        requires
            old(self).wf(),
            old(self).allocated(gidx as int),
        ensures
            final(self).wf(),
            final(self).spec_rows_per_page() == old(self).spec_rows_per_page(),
            ({
                let r = old(self).spec_rows_per_page() as int;
                let p = gidx as int / r;
                final(self).next_view() == old(self).next_view().update(
                    p,
                    old(self).next_view()[p].update(gidx as int % r, Some(value)),
                )
            }),
            final(self).cur_view() == old(self).cur_view(),
    {
        proof {
            let r = self.cur.spec_rows_per_page() as int;
            assert(same_shape(self.cur.pages_view(), self.nxt.pages_view()));
            assert(0 <= gidx as int / r < self.cur.pages_view().len());
            assert(self.cur.pages_view()[gidx as int / r].len() == self.nxt.pages_view()[gidx as int / r].len());
        }
        self.nxt.write_at(gidx, value);
        proof {
            let a = self.cur.pages_view();
            let b = self.nxt.pages_view();
            assert forall|p: int| 0 <= p < a.len() implies #[trigger] a[p].len() == b[p].len() by {
                assert(a[p].len() == old(self).nxt.pages_view()[p].len());
            }
        }
    }

    /// Store `cur_value` in row `gidx` of the read buffer and `next_value`
    /// in the same row of the write buffer.
    pub fn init_both_at(&mut self, gidx: usize, cur_value: T, next_value: T)
        requires
            old(self).wf(),
            old(self).allocated(gidx as int),
        ensures
            final(self).wf(),
            final(self).spec_rows_per_page() == old(self).spec_rows_per_page(),
            ({
                let r = old(self).spec_rows_per_page() as int;
                let p = gidx as int / r;
                let l = gidx as int % r;
                &&& final(self).cur_view() == old(self).cur_view().update(p, old(self).cur_view()[p].update(l, Some(cur_value)))
                &&& final(self).next_view() == old(self).next_view().update(p, old(self).next_view()[p].update(l, Some(next_value)))
            }),
    {
        self.init_cur_at(gidx, cur_value);
        self.init_next_at(gidx, next_value);
    }
}

/// The unit result that goes with `r`.
pub open spec fn unit_result<V>(r: Result<V, PoolError>) -> Result<(), PoolError> {
    match r {
        Ok(_) => Ok(()),
        Err(e) => Err(e),
    }
}

impl<T> Column<T> {
    /// Swap-remove row `gidx` in both buffers. When the last row took its
    /// place, returns that move `(from, to)`, the same in either buffer.
    pub fn free_one_swap_remove(&mut self, gidx: usize) -> (r: Result<Option<(usize, usize)>, PoolError>)
        requires
            old(self).wf(),
        ensures
            final(self).wf(),
            final(self).spec_rows_per_page() == old(self).spec_rows_per_page(),
            free_one_outcome(old(self).cur_view(), old(self).spec_rows_per_page() as int, gidx, final(self).cur_view(), r),
            free_one_outcome(old(self).next_view(), old(self).spec_rows_per_page() as int, gidx, final(self).next_view(), r),
    {
        let ghost oc = self.cur.pages_view();
        let ghost on = self.nxt.pages_view();
        proof {
            self.cur.lemma_rows();
            self.nxt.lemma_rows();
            lemma_total_len_shape(oc, on, self.cur.spec_rows_per_page() as nat);
        }
        let moved = match self.cur.free_one_swap_remove(gidx) {
            Ok(m) => m,
            Err(e) => {
                return Err(e);
            },
        };
        proof {
            let rpp = self.cur.spec_rows_per_page() as int;
            assert(oc[gidx as int / rpp].len() == on[gidx as int / rpp].len());
        }
        let _mirror = self.nxt.free_one_swap_remove(gidx);
        proof {
            lemma_swap_remove_shape(oc, on, self.cur.spec_rows_per_page() as nat, total_len(oc, self.cur.spec_rows_per_page() as nat), gidx as int);
        }
        Ok(moved)
    }

    /// Swap-remove every row listed in `gidxs` from both buffers as
    /// [`PagedPool::free_bulk_swap_remove`] does, and return the moves
    /// `(from, to)` in the order they happened, the same in either buffer.
    /// When a listed page does not exist, neither buffer changes and the
    /// error is returned.
    pub fn free_bulk_swap_remove(&mut self, gidxs: Vec<usize>) -> (r: Result<Vec<(usize, usize)>, PoolError>)
        requires
            old(self).wf(),
        ensures
            final(self).wf(),
            final(self).spec_rows_per_page() == old(self).spec_rows_per_page(),
            gidxs@.len() == 0 ==> r is Ok && r->Ok_0@ == Seq::<(usize, usize)>::empty()
                && final(self).cur_view() == old(self).cur_view() && final(self).next_view() == old(self).next_view(),
            gidxs@.len() > 0 ==> exists|sg: Seq<usize>, mv: Seq<(usize, usize)>|
                #![trigger sg.to_multiset(), mv.len()]
                sorted_usize(sg) && sg.to_multiset() == gidxs@.to_multiset() && bulk_free_outcome(
                    old(self).cur_view(),
                    old(self).spec_rows_per_page() as nat,
                    sg,
                    Seq::empty(),
                    mv,
                    final(self).cur_view(),
                    unit_result(r),
                ) && bulk_free_outcome(
                    old(self).next_view(),
                    old(self).spec_rows_per_page() as nat,
                    sg,
                    Seq::empty(),
                    mv,
                    final(self).next_view(),
                    unit_result(r),
                ) && (r is Ok ==> r->Ok_0@ == mv),
    {
        if gidxs.len() == 0 {
            return Ok(Vec::new());
        }
        let ghost oc = self.cur.pages_view();
        let ghost on = self.nxt.pages_view();
        let ghost rpp = self.cur.spec_rows_per_page() as nat;
        proof {
            self.cur.lemma_rows();
            self.nxt.lemma_rows();
        }
        let mut moves: Vec<(usize, usize)> = Vec::new();
        let mut mirror: Vec<(usize, usize)> = Vec::new();
        let copy = crate::ecs::storage::archetype_storage::copy_indices(&gidxs);
        let r1 = self.cur.free_bulk_swap_remove(copy, &mut moves);
        let r2 = self.nxt.free_bulk_swap_remove(gidxs, &mut mirror);
        proof {
            let s1 = choose|sg: Seq<usize>|
                #![trigger sg.to_multiset()]
                sorted_usize(sg) && sg.to_multiset() == gidxs@.to_multiset() && bulk_free_outcome(
                    oc, rpp, sg, Seq::empty(), moves@, self.cur.pages_view(), r1);
            let s2 = choose|sg: Seq<usize>|
                #![trigger sg.to_multiset()]
                sorted_usize(sg) && sg.to_multiset() == gidxs@.to_multiset() && bulk_free_outcome(
                    on, rpp, sg, Seq::empty(), mirror@, self.nxt.pages_view(), r2);
            let leq = |a: usize, b: usize| a <= b;
            assert(vstd::relations::sorted_by(s1, leq));
            assert(vstd::relations::sorted_by(s2, leq));
            vstd::seq_lib::lemma_sorted_unique(s1, s2, leq);
            assert(s1 == s2);
            lemma_total_len_shape(oc, on, rpp);
            lemma_bulk_free_lockstep(oc, on, rpp, total_len(oc, rpp), s1, moves@, self.cur.pages_view(), r1, mirror@, self.nxt.pages_view(), r2);
        }
        match r1 {
            Ok(()) => Ok(moves),
            Err(e) => Err(e),
        }
    }
}

impl<T: Copy> Column<T> {
    /// Copy out the rows of `range` from the read buffer. `range` must lie
    /// inside one page; every row read must have been written.
    pub fn slice_read(&self, range: Range<usize>) -> (r: Result<Vec<T>, PoolError>)
        requires
            self.wf(),
            forall|g: int|
                range.start <= g < range.end && #[trigger] self.allocated(g) ==> self.cur_view()[g
                    / (self.spec_rows_per_page() as int)][g % (self.spec_rows_per_page() as int)] is Some,
        ensures
            tile_result(self.cur_view(), self.spec_rows_per_page(), range, r),
    {
        proof {
            assert forall|g: int|
                range.start <= g < range.end && #[trigger] self.cur.allocated(g) implies self.cur.slot(g).is_some() by {
                assert(self.allocated(g));
            }
        }
        self.cur.slice_tile(range)
    }
}

/// A value written to row `g` of the write buffer is what the read buffer
/// holds at `g` once the buffers are swapped.
pub proof fn law_written_then_swapped_is_read<T>(c0: Column<T>, c1: Column<T>, c2: Column<T>, g: int, v: T)
    requires
        c0.wf(),
        c0.allocated(g),
        c1.next_view() == c0.next_view().update(
            g / (c0.spec_rows_per_page() as int),
            c0.next_view()[g / (c0.spec_rows_per_page() as int)].update(g % (c0.spec_rows_per_page() as int), Some(v)),
        ),
        c2.cur_view() == c1.next_view(),
    ensures
        c2.cur_view()[g / (c0.spec_rows_per_page() as int)][g % (c0.spec_rows_per_page() as int)] == Some(v),
{
    c0.lemma_lockstep();
    let r = c0.spec_rows_per_page() as int;
    assert(c0.cur_view()[g / r].len() == c0.next_view()[g / r].len());
}

} // verus!
