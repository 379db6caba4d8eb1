//! Pools whose rows are packed from the start: every page but the last is
//! full. A pool that only ever grows stays packed, and in a packed pool
//! global row `g` is simply the `g`-th row of the concatenated pages.
use vstd::prelude::*;
use core::ops::Range;
use crate::pool::paged_pool::{alloc_target, bulk_alloc, last_open_page, with_target_page, PagedPool};

verus! {

/// Spans that allocating `count` rows after `start` rows hands out, one per
/// page touched.
pub open spec fn chunks(start: nat, count: nat, rpp: nat) -> Seq<Range<usize>>
    decreases count,
{
    if count == 0 || rpp == 0 {
        Seq::empty()
    } else {
        let room = (rpp - start % rpp) as nat;
        let take = if room < count { room } else { count };
        seq![Range { start: start as usize, end: (start + take) as usize }] + chunks(start + take, (count - take) as nat, rpp)
    }
}

/// Concatenation of the pages' rows.
pub open spec fn flat<A>(pages: Seq<Seq<A>>) -> Seq<A>
    decreases pages.len(),
{
    if pages.len() == 0 {
        Seq::empty()
    } else {
        flat(pages.drop_last()) + pages.last()
    }
}

/// The pages hold `n` rows packed from the start: all pages but the last
/// are full.
pub open spec fn packed<A>(pages: Seq<Seq<A>>, rpp: nat, n: nat) -> bool {
    &&& rpp > 0
    &&& pages.len() == 0 ==> n == 0
    &&& pages.len() > 0 ==> {
        &&& forall|p: int| 0 <= p < pages.len() - 1 ==> (#[trigger] pages[p]).len() == rpp
        &&& pages.last().len() <= rpp
        &&& n == (pages.len() - 1) * rpp + pages.last().len()
    }
}

/// Pages of equal lengths, page by page.
pub open spec fn same_shape<A, B>(a: Seq<Seq<A>>, b: Seq<Seq<B>>) -> bool {
    a.len() == b.len() && forall|p: int| 0 <= p < a.len() ==> (#[trigger] a[p]).len() == b[p].len()
}

/// Two packed pools with as many pages and as many rows have the same shape.
pub proof fn lemma_packed_same_shape<A, B>(a: Seq<Seq<A>>, b: Seq<Seq<B>>, rpp: nat, n: nat)
    requires
        packed(a, rpp, n),
        packed(b, rpp, n),
        a.len() == b.len(),
    ensures
        same_shape(a, b),
{
    if a.len() > 0 {
        assert forall|p: int| 0 <= p < a.len() implies (#[trigger] a[p]).len() == b[p].len() by {
            if p == a.len() - 1 {
                assert(a[p] == a.last() && b[p] == b.last());
            }
        }
    }
}

/// Dropping the last page of a packed pool leaves its full pages.
pub proof fn lemma_packed_drop_last<A>(pages: Seq<Seq<A>>, rpp: nat, n: nat)
    requires
        packed(pages, rpp, n),
        pages.len() > 0,
    ensures
        packed(pages.drop_last(), rpp, ((pages.len() - 1) * rpp) as nat),
        (pages.len() - 1) * rpp >= 0,
{
    let d = pages.drop_last();
    let m = pages.len() - 1;
    assert(m * rpp >= 0) by (nonlinear_arith)
        requires m >= 0;
    if d.len() > 0 {
        assert(d.last() == pages[d.len() - 1]);
        assert((d.len() - 1) * rpp + rpp == m * rpp) by (nonlinear_arith)
            requires d.len() == m;
        assert forall|p: int| 0 <= p < d.len() - 1 implies (#[trigger] d[p]).len() == rpp by {
            assert(d[p] == pages[p]);
        }
    } else {
        assert(m * rpp == 0) by (nonlinear_arith)
            requires m == 0;
    }
}

pub proof fn lemma_flat_len<A>(pages: Seq<Seq<A>>, rpp: nat, n: nat)
    requires
        packed(pages, rpp, n),
    ensures
        flat(pages).len() == n,
    decreases pages.len(),
{
    if pages.len() > 0 {
        lemma_packed_drop_last(pages, rpp, n);
        lemma_flat_len(pages.drop_last(), rpp, ((pages.len() - 1) * rpp) as nat);
    }
}

/// Packing depends on the page lengths only.
pub proof fn lemma_packed_shape<A, B>(a: Seq<Seq<A>>, b: Seq<Seq<B>>, rpp: nat, n: nat)
    requires
        packed(a, rpp, n),
        same_shape(a, b),
    ensures
        packed(b, rpp, n),
{
    if b.len() > 0 {
        assert forall|p: int| 0 <= p < b.len() - 1 implies (#[trigger] b[p]).len() == rpp by {
            assert(a[p].len() == rpp);
        }
    }
}

proof fn lemma_no_open_page<A>(pages: Seq<Seq<A>>, rpp: nat, i: int)
    requires
        0 <= i <= pages.len(),
        forall|p: int| 0 <= p < i ==> (#[trigger] pages[p]).len() >= rpp,
    ensures
        last_open_page(pages, rpp, i) == -1,
    decreases i,
{
    if i > 0 {
        lemma_no_open_page(pages, rpp, i - 1);
    }
}

/// In a packed pool the next row goes to the last page when it has room,
/// else to a new page; either way its global index is the row count.
pub proof fn lemma_packed_target<A>(pages: Seq<Seq<A>>, rpp: nat, n: nat)
    requires
        packed(pages, rpp, n),
    ensures
        ({
            let t = alloc_target(pages, rpp);
            let ps = with_target_page(pages, t);
            &&& t == ps.len() - 1
            &&& ps[t].len() < rpp
            &&& t * rpp + ps[t].len() == n
            &&& packed(ps, rpp, n)
            &&& flat(ps) == flat(pages)
        }),
{
    let len = pages.len() as int;
    if len == 0 {
        let ps = with_target_page(pages, alloc_target(pages, rpp));
        assert(ps.drop_last() =~= pages);
        assert(flat(ps) =~= flat(pages));
    } else if pages.last().len() < rpp {
        assert(pages[len - 1] == pages.last());
    } else {
        assert forall|p: int| 0 <= p < len implies (#[trigger] pages[p]).len() >= rpp by {
            if p < len - 1 {
            } else {
                assert(pages[p] == pages.last());
            }
        }
        lemma_no_open_page(pages, rpp, len);
        let ps = pages.push(Seq::<A>::empty());
        assert(ps.drop_last() =~= pages);
        assert(flat(ps) =~= flat(pages));
        assert((len - 1) * rpp + rpp == len * rpp) by (nonlinear_arith);
        assert forall|p: int| 0 <= p < ps.len() - 1 implies (#[trigger] ps[p]).len() == rpp by {
            if p < len - 1 {
                assert(ps[p] == pages[p]);
            } else {
                assert(ps[p] == pages.last());
            }
        }
    }
}

/// Appending `k` rows to the last page of a packed pool, within its room.
pub proof fn lemma_packed_append<A>(ps: Seq<Seq<A>>, rpp: nat, n: nat, e: Seq<A>)
    requires
        packed(ps, rpp, n),
        ps.len() > 0,
        ps.last().len() + e.len() <= rpp,
    ensures
        ({
            let t = ps.len() - 1;
            let ps2 = ps.update(t, ps[t] + e);
            &&& packed(ps2, rpp, n + e.len())
            &&& flat(ps2) == flat(ps) + e
        }),
{
    let t = ps.len() - 1;
    let ps2 = ps.update(t, ps[t] + e);
    assert(ps2.drop_last() =~= ps.drop_last());
    assert(ps2.last() == ps.last() + e);
    assert(flat(ps2) =~= flat(ps) + e);
    assert forall|p: int| 0 <= p < ps2.len() - 1 implies (#[trigger] ps2[p]).len() == rpp by {
        assert(ps2[p] == ps[p]);
    }
}

/// Bulk allocation in a packed pool hands out consecutive rows from the row
/// count on, in chunks that end at page boundaries.
pub proof fn lemma_packed_bulk<A>(pages: Seq<Seq<Option<A>>>, rpp: nat, n: nat, count: nat)
    requires
        packed(pages, rpp, n),
    ensures
        ({
            let res = bulk_alloc(pages, rpp, count);
            &&& res.1 == chunks(n, count, rpp)
            &&& packed(res.0, rpp, n + count)
            &&& flat(res.0) == flat(pages) + Seq::new(count, |i: int| None::<A>)
        }),
    decreases count,
{
    if count == 0 {
        assert(flat(pages) + Seq::new(0, |i: int| None::<A>) =~= flat(pages));
    } else {
        lemma_packed_target(pages, rpp, n);
        let t = alloc_target(pages, rpp);
        let ps = with_target_page(pages, t);
        let len = ps[t].len();
        let avail = rpp - len;
        let take: nat = if avail < count { avail as nat } else { count };
        let e = Seq::new(take, |i: int| None::<A>);
        assert(ps.last() == ps[t]);
        lemma_packed_append(ps, rpp, n, e);
        let ps2 = ps.update(t, ps[t] + e);
        lemma_packed_bulk(ps2, rpp, n + take, (count - take) as nat);
        assert(n % rpp == len) by {
            vstd::arithmetic::div_mod::lemma_fundamental_div_mod_converse(n as int, rpp as int, t, len as int);
        }
        assert(flat(ps2) + Seq::new((count - take) as nat, |i: int| None::<A>) =~= flat(pages) + Seq::new(
            count,
            |i: int| None::<A>,
        ));
    }
}

/// Chunks are consecutive: they start at `start`, each begins where the
/// previous ends, none is empty, and the last ends at `start + count`.
pub proof fn lemma_chunks_contiguous(start: nat, count: nat, rpp: nat)
    requires
        rpp > 0,
        start + count <= usize::MAX,
    ensures
        ({
            let c = chunks(start, count, rpp);
            &&& count == 0 <==> c.len() == 0
            &&& c.len() > 0 ==> c[0].start == start && c.last().end == start + count
            &&& forall|k: int| 0 <= k < c.len() ==> (#[trigger] c[k]).start < c[k].end
            &&& forall|k: int| 0 <= k < c.len() - 1 ==> (#[trigger] c[k]).end == c[k + 1].start
        }),
    decreases count,
{
    if count > 0 {
        let room = (rpp - start % rpp) as nat;
        let take = if room < count { room } else { count };
        assert(start % rpp < rpp) by {
            vstd::arithmetic::div_mod::lemma_mod_bound(start as int, rpp as int);
        }
        lemma_chunks_contiguous(start + take, (count - take) as nat, rpp);
        let c = chunks(start, count, rpp);
        let rest = chunks(start + take, (count - take) as nat, rpp);
        assert(c == seq![Range { start: start as usize, end: (start + take) as usize }] + rest);
        assert forall|k: int| 0 <= k < c.len() - 1 implies (#[trigger] c[k]).end == c[k + 1].start by {
            if k > 0 {
                assert(c[k] == rest[k - 1]);
                assert(c[k + 1] == rest[k]);
            }
        }
        assert forall|k: int| 0 <= k < c.len() implies (#[trigger] c[k]).start < c[k].end by {
            if k > 0 {
                assert(c[k] == rest[k - 1]);
            }
        }
        if rest.len() > 0 {
            assert(c.last() == rest.last());
        }
    }
}

/// Row `g` of a packed pool: its page and slot exist, it is the `g`-th row
/// of the concatenation, and overwriting it overwrites that row.
pub proof fn lemma_packed_row<A>(pages: Seq<Seq<A>>, rpp: nat, n: nat, g: int, v: A)
    requires
        packed(pages, rpp, n),
        0 <= g < n,
    ensures
        ({
            let p = g / (rpp as int);
            let l = g % (rpp as int);
            &&& 0 <= p < pages.len()
            &&& 0 <= l < pages[p].len()
            &&& flat(pages)[g] == pages[p][l]
            &&& flat(pages.update(p, pages[p].update(l, v))) == flat(pages).update(g, v)
            &&& same_shape(pages, pages.update(p, pages[p].update(l, v)))
        }),
    decreases pages.len(),
{
    let r = rpp as int;
    let len = pages.len() as int;
    let p = g / r;
    let l = g % r;
    assert(r * p + l == g && 0 <= l < r && 0 <= p) by {
        vstd::arithmetic::div_mod::lemma_fundamental_div_mod(g, r);
        vstd::arithmetic::div_mod::lemma_mod_bound(g, r);
        vstd::arithmetic::div_mod::lemma_div_pos_is_pos(g, r);
    }
    let last = len - 1;
    let d = pages.drop_last();
    assert(len > 0);
    lemma_flat_len(pages, rpp, n);
    lemma_packed_drop_last(pages, rpp, n);
    lemma_flat_len(d, rpp, (last * r) as nat);
    let u = pages.update(p, pages[p].update(l, v));
    if g >= last * r {
        assert(p == last) by (nonlinear_arith)
            requires r * p + l == g, 0 <= l < r, g >= last * r, g < last * r + r, r > 0;
        assert(r * p == last * r) by (nonlinear_arith)
            requires p == last;
        assert(l == g - last * r);
        assert(u.drop_last() =~= d);
        assert(flat(u) =~= flat(pages).update(g, v));
    } else {
        assert(p < last) by (nonlinear_arith)
            requires r * p + l == g, 0 <= l < r, g < last * r, r > 0;
        assert(d[p] == pages[p]);
        lemma_packed_row(d, rpp, (last * r) as nat, g, v);
        assert(u.drop_last() =~= d.update(p, d[p].update(l, v)));
        assert(u.last() == pages.last());
        assert(flat(u) =~= flat(pages).update(g, v));
    }
    assert(pages[p] == pages.update(p, pages[p].update(l, v))[p].update(l, pages[p][l]));
}


/// Rows `s .. e` of a packed pool that lie in one page are a slice of that
/// page.
pub proof fn lemma_packed_tile<A>(pages: Seq<Seq<A>>, rpp: nat, n: nat, s: int, e: int)
    requires
        packed(pages, rpp, n),
        0 <= s < e <= n,
        s / (rpp as int) == (e - 1) / (rpp as int),
    ensures
        ({
            let p = s / (rpp as int);
            let ls = s % (rpp as int);
            &&& 0 <= p < pages.len()
            &&& ls + (e - s) <= pages[p].len()
            &&& pages[p].subrange(ls, ls + (e - s)) == flat(pages).subrange(s, e)
        }),
{
    let r = rpp as int;
    let p = s / r;
    let ls = s % r;
    vstd::arithmetic::div_mod::lemma_fundamental_div_mod(s, r);
    vstd::arithmetic::div_mod::lemma_fundamental_div_mod(e - 1, r);
    let dummy = flat(pages)[s];
    lemma_packed_row(pages, rpp, n, s, dummy);
    lemma_packed_row(pages, rpp, n, e - 1, dummy);
    assert((e - 1) % r == ls + (e - 1 - s));
    lemma_flat_len(pages, rpp, n);
    assert(ls + (e - s) <= pages[p].len());
    assert(0 <= ls);
    assert forall|i: int| 0 <= i < e - s implies #[trigger] pages[p].subrange(ls, ls + (e - s))[i] == flat(pages).subrange(s, e)[i] by {
        let g = s + i;
        vstd::arithmetic::div_mod::lemma_div_is_ordered(s, g, r);
        vstd::arithmetic::div_mod::lemma_div_is_ordered(g, e - 1, r);
        vstd::arithmetic::div_mod::lemma_fundamental_div_mod(g, r);
        lemma_packed_row(pages, rpp, n, g, dummy);
        assert(g / r == p);
        assert(g % r == ls + i) by (nonlinear_arith)
            requires g == r * (g / r) + g % r, s == r * p + ls, g / r == p, g == s + i;
        assert(flat(pages)[g] == pages[p][ls + i]);
    }
    assert(pages[p].subrange(ls, ls + (e - s)) =~= flat(pages).subrange(s, e));
}


/// Every allocated row of a packed pool is one of its `n` rows.
pub proof fn lemma_packed_allocated<A>(pages: Seq<Seq<A>>, rpp: nat, n: nat, g: int)
    requires
        packed(pages, rpp, n),
        0 <= g,
        g / (rpp as int) < pages.len(),
        g % (rpp as int) < pages[g / (rpp as int)].len(),
    ensures
        g < n,
{
    let r = rpp as int;
    let p = g / r;
    let l = g % r;
    let len = pages.len() as int;
    vstd::arithmetic::div_mod::lemma_fundamental_div_mod(g, r);
    if p < len - 1 {
        assert(pages[p].len() == rpp);
        assert(g < (len - 1) * r) by (nonlinear_arith)
            requires g == r * p + l, l < r, p < len - 1, r > 0;
    } else {
        assert(pages[p] == pages.last());
        assert(r * p == (len - 1) * r) by (nonlinear_arith)
            requires p == len - 1;
    }
}

/// In a packed pool whose rows are all written, every allocated row is
/// written.
pub proof fn lemma_pool_written<T>(pool: &PagedPool<T>, n: nat)
    requires
        pool.wf(),
        packed(pool.pages_view(), pool.spec_rows_per_page() as nat, n),
        forall|i: int| 0 <= i < n ==> (#[trigger] flat(pool.pages_view())[i]) is Some,
    ensures
        forall|g: int| #[trigger] pool.allocated(g) ==> pool.slot(g) is Some,
{
    let rpp = pool.spec_rows_per_page() as nat;
    let pv = pool.pages_view();
    assert forall|g: int| #[trigger] pool.allocated(g) implies pool.slot(g) is Some by {
        lemma_packed_allocated(pv, rpp, n, g);
        lemma_packed_row(pv, rpp, n, g, flat(pv)[g]);
    }
}

} // verus!
