//! Double-buffered, paged byte column of one component.
//!
//! Every row takes `stride` bytes. Rows are kept contiguous: row `g` is row
//! `g % rows_per_page` of page `g / rows_per_page`, all pages but the last
//! are full, and removal moves the last row into the hole. Reads go to the
//! current buffer, writes of the next tick to the next buffer, and
//! `swap_buffers` exchanges them.
use vstd::prelude::*;
use core::ops::Range;
use crate::ecs::storage::plan::ColumnPlan;
use crate::ecs::component::meta_eq;
use crate::pool::sort::{sort_indices, sorted_usize};
use crate::pool::packed::chunks;

verus! {

/// Errors of a [`ComponentColumn`].
#[derive(Debug, PartialEq, Eq, Structural)]
pub enum ColumnError {
    RangeOutOfBounds { start: usize, end: usize, len: usize },
    RangeCrossesPage { start: usize, end: usize, rows_per_page: usize },
    IndexOutOfBounds { index: usize, len: usize },
    StrideMismatch { expected: usize, got: usize },
}

/// Number of pages that hold `len` rows.
pub open spec fn pages_for(len: nat, rpp: nat) -> nat {
    if rpp == 0 { 0 } else { ((len + rpp - 1) / (rpp as int)) as nat }
}

/// Bytes of row `g` in page buffers `bufs`.
pub open spec fn row_of(bufs: Seq<Seq<u8>>, g: int, rpp: nat, stride: nat) -> Seq<u8> {
    let off = (g % (rpp as int)) * stride;
    bufs[g / (rpp as int)].subrange(off, off + stride)
}

/// Page buffers after row `g` is overwritten with `bytes`.
pub open spec fn write_row(bufs: Seq<Seq<u8>>, g: int, rpp: nat, stride: nat, bytes: Seq<u8>) -> Seq<Seq<u8>> {
    let p = g / (rpp as int);
    let off = (g % (rpp as int)) * stride;
    bufs.update(p, bufs[p].subrange(0, off) + bytes + bufs[p].subrange(off + stride, bufs[p].len() as int))
}

/// A fresh page buffer.
pub open spec fn zero_page(n: nat) -> Seq<u8> {
    Seq::new(n, |i: int| 0u8)
}

/// Page buffers after removing row `t` of `len` rows: the last row moves
/// into row `t` and pages no longer needed are dropped.
pub open spec fn remove_row(bufs: Seq<Seq<u8>>, len: nat, t: int, rpp: nat, stride: nat) -> Seq<Seq<u8>> {
    let last = len - 1;
    let b2 = if t != last { write_row(bufs, t, rpp, stride, row_of(bufs, last, rpp, stride)) } else { bufs };
    b2.take(pages_for((len - 1) as nat, rpp) as int)
}

/// Page buffers after removing the rows of the strictly increasing list `u`
/// from `len` rows, largest first.
pub open spec fn bulk_rows(bufs: Seq<Seq<u8>>, len: nat, u: Seq<usize>, rpp: nat, stride: nat) -> Seq<Seq<u8>>
    decreases u.len(),
{
    if u.len() == 0 || len == 0 {
        bufs
    } else {
        bulk_rows(remove_row(bufs, len, u.last() as int, rpp, stride), (len - 1) as nat, u.drop_last(), rpp, stride)
    }
}

/// The `(from, to)` moves of [`bulk_rows`], in the order they happen.
pub open spec fn bulk_row_moves(len: nat, u: Seq<usize>) -> Seq<(usize, usize)>
    decreases u.len(),
{
    if u.len() == 0 || len == 0 {
        Seq::empty()
    } else {
        let t = u.last();
        let last = (len - 1) as usize;
        let rest = bulk_row_moves((len - 1) as nat, u.drop_last());
        if t != last { seq![(last, t)] + rest } else { rest }
    }
}

/// One page of `capacity_rows` rows of `stride` bytes; the first `len` rows
/// are in use.
struct BytePage {
    buf: Vec<u8>,
    len: usize,
    capacity_rows: usize,
    stride: usize,
}

impl BytePage {
    spec fn wf(&self) -> bool {
        self.buf@.len() == self.capacity_rows * self.stride && self.len <= self.capacity_rows
            && self.capacity_rows * self.stride <= usize::MAX
    }

    fn with_capacity(rows: usize, stride: usize) -> (p: Self)
        requires
            rows * stride <= usize::MAX,
        ensures
            p.wf(),
            p.len == 0,
            p.capacity_rows == rows,
            p.stride == stride,
            p.buf@ == zero_page((rows * stride) as nat),
    {
        let total = rows * stride;
        let buf = vec![0u8; total];
        assert(buf@ =~= zero_page(total as nat));
        BytePage { buf, len: 0, capacity_rows: rows, stride }
    }

    fn len(&self) -> (n: usize)
        ensures
            n == self.len,
    {
        self.len
    }

    fn is_full(&self) -> (b: bool)
        ensures
            b == (self.len == self.capacity_rows),
    {
        self.len == self.capacity_rows
    }

    fn alloc_one(&mut self) -> (idx: usize)
        requires
            old(self).len < old(self).capacity_rows,
        ensures
            idx == old(self).len,
            final(self).len == old(self).len + 1,
            final(self).buf@ == old(self).buf@,
            final(self).capacity_rows == old(self).capacity_rows,
            final(self).stride == old(self).stride,
    {
        let idx = self.len;
        self.len = self.len + 1;
        idx
    }

    fn extend(&mut self, count: usize) -> (r: Range<usize>)
        requires
            old(self).len + count <= old(self).capacity_rows,
        ensures
            r == (Range { start: old(self).len, end: (old(self).len + count) as usize }),
            final(self).len == old(self).len + count,
            final(self).buf@ == old(self).buf@,
            final(self).capacity_rows == old(self).capacity_rows,
            final(self).stride == old(self).stride,
    {
        let start = self.len;
        self.len = self.len + count;
        Range { start, end: self.len }
    }

    fn pop_one(&mut self)
        ensures
            final(self).len == if old(self).len > 0 { old(self).len - 1 } else { 0 },
            final(self).buf@ == old(self).buf@,
            final(self).capacity_rows == old(self).capacity_rows,
            final(self).stride == old(self).stride,
    {
        if self.len > 0 {
            self.len = self.len - 1;
        }
    }

    /// Bytes of `rows` rows from `row_start`.
    fn slice_bytes(&self, row_start: usize, rows: usize) -> (s: &[u8])
        requires
            self.wf(),
            row_start + rows <= self.capacity_rows,
        ensures
            s@ == self.buf@.subrange(row_start * self.stride, (row_start + rows) * self.stride),
    {
        proof {
            lemma_mul_le(row_start + rows, self.capacity_rows as int, self.stride as int);
            lemma_mul_le(row_start as int, (row_start + rows) as int, self.stride as int);
        }
        let a = row_start * self.stride;
        let b = (row_start + rows) * self.stride;
        vstd::slice::slice_subrange(self.buf.as_slice(), a, b)
    }

    /// Copy of the bytes of row `row`.
    fn row_copy(&self, row: usize) -> (v: Vec<u8>)
        requires
            self.wf(),
            row < self.capacity_rows,
        ensures
            v@ == self.buf@.subrange(row * self.stride, row * self.stride + self.stride),
            v@.len() == self.stride,
    {
        proof {
            lemma_mul_le(row + 1, self.capacity_rows as int, self.stride as int);
            assert((row + 1) * self.stride == row * self.stride + self.stride) by (nonlinear_arith);
        }
        let start = row * self.stride;
        let mut v: Vec<u8> = Vec::new();
        let mut k: usize = 0;
        while k < self.stride
            invariant
                k <= self.stride,
                start + self.stride <= self.buf@.len(),
                self.buf@.len() <= usize::MAX,
                v@ == self.buf@.subrange(start as int, start + k),
            decreases self.stride - k,
        {
            v.push(self.buf[start + k]);
            k = k + 1;
            assert(v@ =~= self.buf@.subrange(start as int, start + k));
        }
        v
    }

    /// Overwrite row `row` with `bytes` (exactly `stride` bytes).
    fn write_row(&mut self, row: usize, bytes: &[u8])
        requires
            old(self).wf(),
            row < old(self).capacity_rows,
            bytes@.len() == old(self).stride,
        ensures
            final(self).wf(),
            final(self).len == old(self).len,
            final(self).capacity_rows == old(self).capacity_rows,
            final(self).stride == old(self).stride,
            ({
                let off = row * old(self).stride;
                final(self).buf@ == old(self).buf@.subrange(0, off) + bytes@ + old(self).buf@.subrange(
                    off + old(self).stride,
                    old(self).buf@.len() as int,
                )
            }),
    {
        proof {
            lemma_mul_le(row + 1, self.capacity_rows as int, self.stride as int);
            assert((row + 1) * self.stride == row * self.stride + self.stride) by (nonlinear_arith);
        }
        let start = row * self.stride;
        let ghost orig = self.buf@;
        let mut k: usize = 0;
        while k < self.stride
            invariant
                k <= self.stride == bytes@.len(),
                start + self.stride <= orig.len(),
                orig.len() <= usize::MAX,
                orig == old(self).buf@,
                self.buf@.len() == orig.len(),
                self.len == old(self).len,
                self.capacity_rows == old(self).capacity_rows,
                self.stride == old(self).stride,
                forall|j: int| 0 <= j < orig.len() ==> #[trigger] self.buf@[j] == if start <= j < start + k {
                    bytes@[j - start]
                } else {
                    orig[j]
                },
            decreases self.stride - k,
        {
            self.buf.set(start + k, bytes[k]);
            k = k + 1;
        }
        assert(self.buf@ =~= orig.subrange(0, start as int) + bytes@ + orig.subrange(
            start + self.stride,
            orig.len() as int,
        ));
    }
}

/// Rows held by page `p` of a column of `len` rows.
pub open spec fn page_rows(len: nat, rpp: nat, p: int) -> int {
    if (p + 1) * rpp <= len { rpp as int } else { len - p * rpp }
}

proof fn lemma_row_location(len: nat, rpp: nat, g: int)
    requires
        rpp > 0,
        0 <= g < len,
    ensures
        0 <= g / (rpp as int) < pages_for(len, rpp),
        0 <= g % (rpp as int) < page_rows(len, rpp, g / (rpp as int)),
        g % (rpp as int) < rpp,
        (g / (rpp as int)) * rpp + g % (rpp as int) == g,
{
    let r = rpp as int;
    let p = g / r;
    let l = g % r;
    assert(r * p + l == g && 0 <= l < r) by (nonlinear_arith)
        requires r > 0, p == g / r, l == g % r;
    assert(p * r == r * p) by (nonlinear_arith);
    assert(0 <= p) by (nonlinear_arith)
        requires r > 0, g >= 0, p == g / r;
    assert(p < (len + r - 1) / r) by (nonlinear_arith)
        requires r > 0, g < len, r * p + l == g, 0 <= l < r, p >= 0;
    if (p + 1) * r <= len {
    } else {
        assert((p + 1) * r == p * r + r) by (nonlinear_arith);
    }
}

proof fn lemma_grow(len: nat, rpp: nat, k: nat)
    requires
        rpp > 0,
        1 <= k <= rpp - (len as int) % (rpp as int),
    ensures
        (len / rpp) * rpp + len % rpp == len,
        len % rpp < rpp,
        len % rpp == 0 ==> pages_for(len, rpp) == len / rpp,
        len % rpp == 0 ==> pages_for(len + k, rpp) == len / rpp + 1,
        len % rpp == 0 ==> page_rows(len + k, rpp, (len / rpp) as int) == k,
        len % rpp != 0 ==> pages_for(len, rpp) == len / rpp + 1,
        len % rpp != 0 ==> pages_for(len + k, rpp) == len / rpp + 1,
        len % rpp != 0 ==> page_rows(len, rpp, (len / rpp) as int) == len % rpp,
        len % rpp != 0 ==> page_rows(len + k, rpp, (len / rpp) as int) == len % rpp + k,
        forall|p: int| 0 <= p < len / rpp ==> #[trigger] page_rows(len, rpp, p) == rpp,
        forall|p: int| 0 <= p < len / rpp ==> #[trigger] page_rows(len + k, rpp, p) == rpp,
{
    let r = rpp as int;
    let l = len as int;
    let q = l / r;
    let m = l % r;
    assert(r * q + m == l && 0 <= m < r && q >= 0) by (nonlinear_arith)
        requires r > 0, l >= 0, q == l / r, m == l % r;
    assert(q * r == r * q) by (nonlinear_arith);
    assert(len / rpp == q);
    assert((q + 1) * r == q * r + r) by (nonlinear_arith);
    if m == 0 {
        assert((l + r - 1) / r == q) by (nonlinear_arith)
            requires r > 0, l == q * r, q >= 0;
        assert((l + k + r - 1) / r == q + 1) by (nonlinear_arith)
            requires r > 0, l == q * r, 1 <= k <= r, q >= 0;
    } else {
        assert((l + r - 1) / r == q + 1) by (nonlinear_arith)
            requires r > 0, l == q * r + m, 0 < m < r, q >= 0;
        assert((l + k + r - 1) / r == q + 1) by (nonlinear_arith)
            requires r > 0, l == q * r + m, 0 < m, m + k <= r, k >= 1, q >= 0;
    }
    assert forall|p: int| 0 <= p < len / rpp implies #[trigger] page_rows(len, rpp, p) == rpp && page_rows(len + k, rpp, p) == rpp by {
        assert((p + 1) * r <= q * r) by (nonlinear_arith)
            requires p + 1 <= q, r > 0;
        assert((p + 1) * r <= l);
        assert((p + 1) * rpp <= len);
        assert((p + 1) * rpp <= len + k);
    }
    assert forall|p: int| 0 <= p < len / rpp implies #[trigger] page_rows(len + k, rpp, p) == rpp by {
        assert((p + 1) * r <= q * r) by (nonlinear_arith)
            requires p + 1 <= q, r > 0;
        assert((p + 1) * r <= l);
    }
}


proof fn lemma_page_nonempty(len: nat, rpp: nat, p: int)
    requires
        rpp > 0,
        0 <= p < pages_for(len, rpp),
    ensures
        page_rows(len, rpp, p) >= 1,
        p * rpp < len,
{
    let r = rpp as int;
    let l = len as int;
    assert(p * r < l) by (nonlinear_arith)
        requires r > 0, p < (l + r - 1) / r, p >= 0, l >= 0;
}


/// Double-buffered byte column of one component, in pages of
/// `rows_per_page` rows.
pub struct ComponentColumn {
    plan: ColumnPlan,
    rows_per_page: usize,
    stride: usize,
    cur_pages: Vec<BytePage>,
    nxt_pages: Vec<BytePage>,
    len: usize,
}

impl ComponentColumn {
    pub closed spec fn spec_len(&self) -> nat {
        self.len as nat
    }

    pub closed spec fn spec_rows_per_page(&self) -> nat {
        self.rows_per_page as nat
    }

    pub closed spec fn spec_stride(&self) -> nat {
        self.stride as nat
    }

    pub closed spec fn spec_plan(&self) -> ColumnPlan {
        self.plan
    }

    /// Page buffers of the buffer that is read.
    pub closed spec fn cur_bufs(&self) -> Seq<Seq<u8>> {
        Seq::new(self.cur_pages@.len(), |i: int| self.cur_pages@[i].buf@)
    }

    /// Page buffers of the buffer that is written.
    pub closed spec fn nxt_bufs(&self) -> Seq<Seq<u8>> {
        Seq::new(self.nxt_pages@.len(), |i: int| self.nxt_pages@[i].buf@)
    }

    spec fn page_ok(&self, pg: BytePage, p: int) -> bool {
        &&& pg.wf()
        &&& pg.capacity_rows == self.rows_per_page
        &&& pg.stride == self.stride
        &&& pg.len == page_rows(self.len as nat, self.rows_per_page as nat, p)
    }

    pub closed spec fn wf(&self) -> bool {
        &&& self.rows_per_page > 0
        &&& self.rows_per_page * self.stride <= usize::MAX
        &&& self.stride == self.plan.meta.stride
        &&& self.cur_pages@.len() == pages_for(self.len as nat, self.rows_per_page as nat)
        &&& self.nxt_pages@.len() == self.cur_pages@.len()
        &&& forall|p: int| 0 <= p < self.cur_pages@.len() ==> self.page_ok(#[trigger] self.cur_pages@[p], p)
        &&& forall|p: int| 0 <= p < self.nxt_pages@.len() ==> self.page_ok(#[trigger] self.nxt_pages@[p], p)
    }

    /// A well-formed column's rows are as wide as its plan's stride.
    pub proof fn lemma_stride(&self)
        requires
            self.wf(),
        ensures
            self.spec_stride() == self.spec_plan().meta.stride,
            self.spec_rows_per_page() > 0,
    {
    }

    /// Shape of a well-formed column: one buffer per page, each of
    /// `rows_per_page * stride` bytes.
    pub proof fn lemma_shape(&self)
        requires
            self.wf(),
        ensures
            self.cur_bufs().len() == pages_for(self.spec_len(), self.spec_rows_per_page()),
            self.nxt_bufs().len() == self.cur_bufs().len(),
            forall|p: int| 0 <= p < self.cur_bufs().len() ==> (#[trigger] self.cur_bufs()[p]).len()
                == self.spec_rows_per_page() * self.spec_stride(),
            forall|p: int| 0 <= p < self.nxt_bufs().len() ==> (#[trigger] self.nxt_bufs()[p]).len()
                == self.spec_rows_per_page() * self.spec_stride(),
            self.spec_rows_per_page() > 0,
            self.spec_rows_per_page() * self.spec_stride() <= usize::MAX,
            self.spec_stride() == self.spec_plan().meta.stride,
    {
        assert forall|p: int| 0 <= p < self.cur_bufs().len() implies (#[trigger] self.cur_bufs()[p]).len()
            == self.spec_rows_per_page() * self.spec_stride() by {
            assert(self.page_ok(self.cur_pages@[p], p));
        }
        assert forall|p: int| 0 <= p < self.nxt_bufs().len() implies (#[trigger] self.nxt_bufs()[p]).len()
            == self.spec_rows_per_page() * self.spec_stride() by {
            assert(self.page_ok(self.nxt_pages@[p], p));
        }
    }

    /// An empty column for `plan` with pages of `rows_per_page` rows (a
    /// non-zero power of two).
    pub fn new(plan: ColumnPlan, rows_per_page: usize) -> (c: Self)
        requires
            crate::ecs::component::is_power_of_two(rows_per_page as nat),
            rows_per_page * plan.meta.stride <= usize::MAX,
        ensures
            c.wf(),
            c.spec_len() == 0,
            c.spec_rows_per_page() == rows_per_page,
            c.spec_stride() == plan.meta.stride,
            c.spec_plan() == plan,
            c.cur_bufs().len() == 0,
    {
        proof {
            if rows_per_page == 0 {
                assert(!crate::ecs::component::is_power_of_two(0));
            }
        }
        let stride = plan.meta.stride;
        let c = ComponentColumn {
            plan,
            rows_per_page,
            stride,
            cur_pages: Vec::new(),
            nxt_pages: Vec::new(),
            len: 0,
        };
        assert(pages_for(0, rows_per_page as nat) == 0) by (nonlinear_arith)
            requires rows_per_page > 0;
        c
    }

    pub fn plan(&self) -> (p: &ColumnPlan)
        ensures
            *p == self.spec_plan(),
    {
        &self.plan
    }

    pub fn rows_per_page(&self) -> (r: usize)
        ensures
            r == self.spec_rows_per_page(),
    {
        self.rows_per_page
    }

    pub fn stride(&self) -> (s: usize)
        ensures
            s == self.spec_stride(),
    {
        self.stride
    }

    pub fn len(&self) -> (n: usize)
        ensures
            n == self.spec_len(),
    {
        self.len
    }

    /// Bytes of row `g` in the read buffer.
    pub open spec fn cur_row(&self, g: int) -> Seq<u8> {
        row_of(self.cur_bufs(), g, self.spec_rows_per_page(), self.spec_stride())
    }

    /// Bytes of row `g` in the write buffer.
    pub open spec fn nxt_row(&self, g: int) -> Seq<u8> {
        row_of(self.nxt_bufs(), g, self.spec_rows_per_page(), self.spec_stride())
    }

    fn global_to_local(&self, gidx: usize) -> (r: Result<(usize, usize), ColumnError>)
        requires
            self.wf(),
        ensures
            gidx >= self.spec_len() ==> r == Err::<(usize, usize), ColumnError>(
                ColumnError::IndexOutOfBounds { index: gidx, len: self.spec_len() as usize },
            ),
            gidx < self.spec_len() ==> r == Ok::<(usize, usize), ColumnError>(
                (
                    (gidx as int / self.spec_rows_per_page() as int) as usize,
                    (gidx as int % self.spec_rows_per_page() as int) as usize,
                ),
            ),
    {
        if gidx >= self.len {
            return Err(ColumnError::IndexOutOfBounds { index: gidx, len: self.len });
        }
        Ok((gidx / self.rows_per_page, gidx % self.rows_per_page))
    }

    fn validate_stride(&self, got: usize) -> (r: Result<(), ColumnError>)
        ensures
            got != self.spec_stride() ==> r == Err::<(), ColumnError>(
                ColumnError::StrideMismatch { expected: self.spec_stride() as usize, got },
            ),
            got == self.spec_stride() ==> r is Ok,
    {
        if got != self.stride {
            return Err(ColumnError::StrideMismatch { expected: self.stride, got });
        }
        Ok(())
    }

    /// One past the last row of the page holding `start`.
    fn end_of_page(&self, start: usize) -> (e: usize)
        requires
            self.wf(),
            start - (start as int) % (self.spec_rows_per_page() as int) + self.spec_rows_per_page() <= usize::MAX,
        ensures
            e == start - (start as int) % (self.spec_rows_per_page() as int) + self.spec_rows_per_page(),
    {
        proof {
            let r = self.rows_per_page as int;
            let s = start as int;
            assert(r * (s / r) + s % r == s && s / r >= 0 && r * (s / r) >= 0) by (nonlinear_arith)
                requires r > 0, s >= 0;
        }
        start - start % self.rows_per_page + self.rows_per_page
    }

    /// Number of pages holding rows.
    pub fn page_count(&self) -> (n: usize)
        requires
            self.wf(),
        ensures
            n == pages_for(self.spec_len(), self.spec_rows_per_page()),
    {
        self.cur_pages.len()
    }

    /// The rows of page `page`: from its first row to the end of the page or
    /// of the column, whichever comes first.
    pub fn page_range(&self, page: usize) -> (r: Range<usize>)
        requires
            self.wf(),
            page < pages_for(self.spec_len(), self.spec_rows_per_page()),
        ensures
            r.start == page * self.spec_rows_per_page(),
            r.end == page * self.spec_rows_per_page() + page_rows(self.spec_len(), self.spec_rows_per_page(), page as int),
            r.start < r.end <= self.spec_len(),
    {
        let rpp = self.rows_per_page;
        proof {
            let r = rpp as int;
            let l = self.len as int;
            let q = page as int;
            assert(q * r < l) by (nonlinear_arith)
                requires r > 0, l >= 0, q < (l + r - 1) / r, q >= 0;
            assert(q * r >= 0) by (nonlinear_arith)
                requires r > 0, q >= 0;
            assert((q + 1) * r == q * r + r) by (nonlinear_arith);
        }
        let start = page * rpp;
        let rest = self.len - start;
        let end = if rest >= rpp { start + rpp } else { self.len };
        Range { start, end }
    }

    /// Clamp `start .. start + nominal_len` to the page of `start` and to the
    /// column length.
    pub fn clamp_to_page(&self, start: usize, nominal_len: usize) -> (r: Range<usize>)
        requires
            self.wf(),
            start + nominal_len <= usize::MAX,
            start - (start as int) % (self.spec_rows_per_page() as int) + self.spec_rows_per_page() <= usize::MAX,
        ensures
            ({
                let rpp = self.spec_rows_per_page() as int;
                let page_end = start - (start as int) % rpp + rpp;
                let page_end = if page_end < self.spec_len() { page_end } else { self.spec_len() as int };
                let end = if start + nominal_len < page_end { start + nominal_len } else { page_end };
                r == Range { start, end: end as usize }
            }),
    {
        let e = self.end_of_page(start);
        let page_end = if e < self.len { e } else { self.len };
        let want = start + nominal_len;
        let end = if want < page_end { want } else { page_end };
        Range { start, end }
    }

    /// Exchange the read and write buffers.
    pub fn swap_buffers(&mut self)
        requires
            old(self).wf(),
        ensures
            final(self).wf(),
            final(self).spec_len() == old(self).spec_len(),
            final(self).spec_rows_per_page() == old(self).spec_rows_per_page(),
            final(self).spec_stride() == old(self).spec_stride(),
            final(self).spec_plan() == old(self).spec_plan(),
            final(self).cur_bufs() == old(self).nxt_bufs(),
            final(self).nxt_bufs() == old(self).cur_bufs(),
    {
        std::mem::swap(&mut self.cur_pages, &mut self.nxt_pages);
    }

    /// Page that the next row goes to; appends a fresh page to both buffers
    /// when the last page is full or there is none.
    fn ensure_page_with_space(&mut self) -> (idx: usize)
        requires
            old(self).wf(),
        ensures
            final(self).spec_len() == old(self).spec_len(),
            final(self).rows_per_page == old(self).rows_per_page,
            final(self).stride == old(self).stride,
            final(self).plan == old(self).plan,
            ({
                let rpp = old(self).rows_per_page as nat;
                let len = old(self).len as nat;
                let z = zero_page((rpp * old(self).stride) as nat);
                &&& idx == len / rpp
                &&& len % rpp == 0 ==> final(self).cur_bufs() == old(self).cur_bufs().push(z)
                    && final(self).nxt_bufs() == old(self).nxt_bufs().push(z)
                    && final(self).cur_pages@.len() == old(self).cur_pages@.len() + 1
                &&& len % rpp != 0 ==> final(self).cur_bufs() == old(self).cur_bufs()
                    && final(self).nxt_bufs() == old(self).nxt_bufs()
                    && final(self).cur_pages@ == old(self).cur_pages@
                    && final(self).nxt_pages@ == old(self).nxt_pages@
            }),
            final(self).nxt_pages@.len() == final(self).cur_pages@.len(),
            idx < final(self).cur_pages@.len(),
            forall|p: int| 0 <= p < old(self).cur_pages@.len() ==> final(self).cur_pages@[p] == old(self).cur_pages@[p]
                && final(self).nxt_pages@[p] == old(self).nxt_pages@[p],
            old(self).spec_len() % old(self).spec_rows_per_page() == 0 ==> ({
                let pg = final(self).cur_pages@[idx as int];
                let pn = final(self).nxt_pages@[idx as int];
                &&& pg.wf() && pg.len == 0 && pg.capacity_rows == old(self).rows_per_page && pg.stride == old(self).stride
                &&& pn.wf() && pn.len == 0 && pn.capacity_rows == old(self).rows_per_page && pn.stride == old(self).stride
            }),
    {
        proof {
            lemma_grow(self.len as nat, self.rows_per_page as nat, 1);
        }
        let n = self.cur_pages.len();
        let need_new = if n == 0 {
            true
        } else {
            self.cur_pages[n - 1].is_full()
        };
        proof {
            let r = self.rows_per_page as nat;
            let len = self.len as nat;
            if n > 0 {
                assert(self.page_ok(self.cur_pages@[n - 1], n - 1));
                if len % r != 0 {
                    assert(n - 1 == len / r);
                } else {
                    assert(n == len / r);
                }
            } else {
                assert(len / r == 0);
            }
            assert(need_new == (len % r == 0));
        }
        if need_new {
            let ghost cb = self.cur_bufs();
            let ghost nb = self.nxt_bufs();
            self.cur_pages.push(BytePage::with_capacity(self.rows_per_page, self.stride));
            self.nxt_pages.push(BytePage::with_capacity(self.rows_per_page, self.stride));
            assert(self.cur_bufs() =~= cb.push(zero_page((self.rows_per_page * self.stride) as nat)));
            assert(self.nxt_bufs() =~= nb.push(zero_page((self.rows_per_page * self.stride) as nat)));
        }
        self.cur_pages.len() - 1
    }

    /// Allocate one row at the end and return its index.
    pub fn alloc_one(&mut self) -> (gidx: usize)
        requires
            old(self).wf(),
            old(self).spec_len() < usize::MAX,
        ensures
            final(self).wf(),
            gidx == old(self).spec_len(),
            final(self).spec_len() == old(self).spec_len() + 1,
            final(self).spec_rows_per_page() == old(self).spec_rows_per_page(),
            final(self).spec_stride() == old(self).spec_stride(),
            final(self).spec_plan() == old(self).spec_plan(),
            ({
                let z = zero_page(old(self).spec_rows_per_page() * old(self).spec_stride());
                if old(self).spec_len() % old(self).spec_rows_per_page() == 0 {
                    final(self).cur_bufs() == old(self).cur_bufs().push(z) && final(self).nxt_bufs()
                        == old(self).nxt_bufs().push(z)
                } else {
                    final(self).cur_bufs() == old(self).cur_bufs() && final(self).nxt_bufs()
                        == old(self).nxt_bufs()
                }
            }),
    {
        proof {
            lemma_grow(self.len as nat, self.rows_per_page as nat, 1);
        }
        let ghost old_pages = self.cur_pages@;
        let ghost old_npages = self.nxt_pages@;
        let page_idx = self.ensure_page_with_space();
        proof {
            if (self.len as nat) % (self.rows_per_page as nat) != 0 {
                assert(self.page_ok(old_pages[page_idx as int], page_idx as int));
                assert(self.page_ok(old_npages[page_idx as int], page_idx as int));
            }
        }
        let ghost cb = self.cur_bufs();
        let ghost nb = self.nxt_bufs();
        let local = self.cur_pages[page_idx].alloc_one();
        self.nxt_pages[page_idx].alloc_one();
        assert(self.cur_bufs() =~= cb);
        assert(self.nxt_bufs() =~= nb);
        let gidx = page_idx * self.rows_per_page + local;
        self.len = self.len + 1;
        proof {
            let r = self.rows_per_page as nat;
            let len = (self.len - 1) as nat;
            assert forall|p: int| 0 <= p < self.cur_pages@.len() implies self.page_ok(#[trigger] self.cur_pages@[p], p) by {
                if p < page_idx {
                    assert(old_pages[p] == self.cur_pages@[p]);
                }
            }
            assert forall|p: int| 0 <= p < self.nxt_pages@.len() implies self.page_ok(#[trigger] self.nxt_pages@[p], p) by {
                if p < page_idx {
                    assert(old_npages[p] == self.nxt_pages@[p]);
                }
            }
        }
        gidx
    }

    /// Bytes written to row `g` of buffer `which` keep every other row.
    proof fn lemma_write_keeps_shape(&self, bufs: Seq<Seq<u8>>, g: int, bytes: Seq<u8>)
        requires
            self.wf(),
            0 <= g < self.spec_len(),
            bytes.len() == self.spec_stride(),
            bufs.len() == self.cur_pages@.len(),
            forall|p: int| 0 <= p < bufs.len() ==> (#[trigger] bufs[p]).len() == self.spec_rows_per_page() * self.spec_stride(),
        ensures
            ({
                let w = write_row(bufs, g, self.spec_rows_per_page(), self.spec_stride(), bytes);
                &&& w.len() == bufs.len()
                &&& forall|p: int| 0 <= p < w.len() ==> (#[trigger] w[p]).len() == self.spec_rows_per_page() * self.spec_stride()
            }),
    {
        let r = self.rows_per_page as nat;
        let st = self.stride as nat;
        lemma_row_location(self.len as nat, r, g);
        let l = g % (r as int);
        lemma_mul_le(l + 1, r as int, st as int);
        assert((l + 1) * st == l * st + st) by (nonlinear_arith);
        lemma_mul_le(l, l + 1, st as int);
    }

    fn localize_range(&self, range: &Range<usize>) -> (r: Result<(usize, Range<usize>), ColumnError>)
        requires
            self.wf(),
        ensures
            ({
                let rpp = self.spec_rows_per_page() as int;
                let len = self.spec_len();
                if range.start > range.end || range.end > len {
                    r == Err::<(usize, Range<usize>), ColumnError>(
                        ColumnError::RangeOutOfBounds { start: range.start, end: range.end, len: len as usize },
                    )
                } else if range.start == range.end {
                    r == Ok::<(usize, Range<usize>), ColumnError>(
                        (
                            (range.start as int / rpp) as usize,
                            Range { start: (range.start as int % rpp) as usize, end: (range.start as int % rpp) as usize },
                        ),
                    )
                } else if range.start as int / rpp != (range.end - 1) as int / rpp {
                    r == Err::<(usize, Range<usize>), ColumnError>(
                        ColumnError::RangeCrossesPage {
                            start: range.start,
                            end: range.end,
                            rows_per_page: rpp as usize,
                        },
                    )
                } else {
                    &&& r is Ok
                    &&& r->Ok_0.0 == range.start as int / rpp
                    &&& r->Ok_0.1.start == range.start as int % rpp
                    &&& r->Ok_0.1.end == range.start as int % rpp + (range.end - range.start)
                }
            }),
    {
        if range.start > range.end || range.end > self.len {
            return Err(ColumnError::RangeOutOfBounds { start: range.start, end: range.end, len: self.len });
        }
        if range.start == range.end {
            let page = range.start / self.rows_per_page;
            let local = range.start % self.rows_per_page;
            return Ok((page, Range { start: local, end: local }));
        }
        let p0 = range.start / self.rows_per_page;
        let p1 = (range.end - 1) / self.rows_per_page;
        if p0 != p1 {
            return Err(
                ColumnError::RangeCrossesPage {
                    start: range.start,
                    end: range.end,
                    rows_per_page: self.rows_per_page,
                },
            );
        }
        let local_start = range.start % self.rows_per_page;
        proof {
            let r = self.rows_per_page as int;
            let st = range.start as int;
            assert(r * (st / r) + st % r == st && st / r >= 0 && r * (st / r) >= 0) by (nonlinear_arith)
                requires r > 0, st >= 0;
        }
        Ok((p0, Range { start: local_start, end: local_start + (range.end - range.start) }))
    }

    /// Overwrite the rows of `range` in the write buffer with `bytes`, row
    /// after row; the range may span pages. Refused, with nothing changed,
    /// when the range does not lie in the column or `bytes` is not exactly
    /// its rows.
    pub fn write_next_range(&mut self, range: Range<usize>, bytes: &[u8]) -> (r: Result<(), ColumnError>)
        requires
            old(self).wf(),
        ensures
            final(self).wf(),
            final(self).spec_len() == old(self).spec_len(),
            final(self).spec_rows_per_page() == old(self).spec_rows_per_page(),
            final(self).spec_stride() == old(self).spec_stride(),
            final(self).spec_plan() == old(self).spec_plan(),
            final(self).cur_bufs() == old(self).cur_bufs(),
            range.start > range.end || range.end > old(self).spec_len() ==> r == Err::<(), ColumnError>(
                ColumnError::RangeOutOfBounds { start: range.start, end: range.end, len: old(self).spec_len() as usize },
            ),
            range.start <= range.end <= old(self).spec_len() && (range.end - range.start) * old(self).spec_stride()
                > usize::MAX ==> r == Err::<(), ColumnError>(
                ColumnError::StrideMismatch { expected: usize::MAX, got: bytes@.len() as usize },
            ),
            range.start <= range.end <= old(self).spec_len() && (range.end - range.start) * old(self).spec_stride()
                <= usize::MAX && bytes@.len() != (range.end - range.start) * old(self).spec_stride()
                ==> r == Err::<(), ColumnError>(
                ColumnError::StrideMismatch {
                    expected: ((range.end - range.start) * old(self).spec_stride()) as usize,
                    got: bytes@.len() as usize,
                },
            ),
            r is Err ==> final(self).nxt_bufs() == old(self).nxt_bufs(),
            r is Ok <==> range.start <= range.end <= old(self).spec_len() && bytes@.len() == (range.end - range.start)
                * old(self).spec_stride(),
            r is Ok ==> forall|g: int| range.start <= g < range.end ==> #[trigger] final(self).nxt_row(g) == bytes@.subrange(
                (g - range.start) * old(self).spec_stride(),
                (g - range.start + 1) * old(self).spec_stride(),
            ),
            r is Ok ==> forall|h: int|
                0 <= h < old(self).spec_len() && !(range.start <= h < range.end) ==> #[trigger] final(self).nxt_row(h)
                    == old(self).nxt_row(h),
            next_range_written(*old(self), *final(self), range.start, range.end, bytes@, r),
    {
        proof {
            self.lemma_shape();
        }
        if range.start > range.end || range.end > self.len {
            return Err(ColumnError::RangeOutOfBounds { start: range.start, end: range.end, len: self.len });
        }
        let rows = range.end - range.start;
        let st = self.stride;
        let want = match rows.checked_mul(st) {
            Some(w) => w,
            None => {
                return Err(ColumnError::StrideMismatch { expected: usize::MAX, got: bytes.len() });
            },
        };
        if bytes.len() != want {
            return Err(ColumnError::StrideMismatch { expected: want, got: bytes.len() });
        }
        let ghost o = *self;
        let ghost rpp = self.spec_rows_per_page();
        let mut g = range.start;
        while g < range.end
            invariant
                range.start <= g <= range.end <= o.spec_len(),
                self.wf(),
                self.spec_len() == o.spec_len(),
                self.spec_rows_per_page() == rpp,
                rpp == o.spec_rows_per_page(),
                self.spec_stride() == st,
                st == o.spec_stride(),
                self.spec_plan() == o.spec_plan(),
                self.cur_bufs() == o.cur_bufs(),
                bytes@.len() == (range.end - range.start) * st,
                bytes@.len() == want,
                forall|x: int| range.start <= x < g ==> #[trigger] self.nxt_row(x) == bytes@.subrange(
                    (x - range.start) * st,
                    (x - range.start + 1) * st,
                ),
                forall|h: int| 0 <= h < o.spec_len() && !(range.start <= h < g) ==> #[trigger] self.nxt_row(h) == o.nxt_row(h),
            decreases range.end - g,
        {
            let k = g - range.start;
            proof {
                assert((k + 1) * st == k * st + st) by (nonlinear_arith);
                lemma_mul_le(k + 1, (range.end - range.start) as int, st as int);
                lemma_mul_le(k as int, k + 1, st as int);
                assert(k * st + st <= bytes@.len());
            }
            let chunk = vstd::slice::slice_subrange(bytes, k * st, k * st + st);
            let ghost before = *self;
            proof {
                self.lemma_shape();
            }
            let res = self.write_next_at(g, chunk);
            proof {
                assert(res is Ok);
                lemma_write_row_effect(before.nxt_bufs(), before.spec_len(), rpp, st as nat, g as int, chunk@);
                assert forall|x: int| range.start <= x < g + 1 implies #[trigger] self.nxt_row(x) == bytes@.subrange(
                    (x - range.start) * st,
                    (x - range.start + 1) * st,
                ) by {
                    if x < g {
                        assert(self.nxt_row(x) == before.nxt_row(x));
                    }
                }
                assert forall|h: int| 0 <= h < o.spec_len() && !(range.start <= h < g + 1) implies #[trigger] self.nxt_row(h)
                    == o.nxt_row(h) by {
                    assert(self.nxt_row(h) == before.nxt_row(h));
                }
            }
            g = g + 1;
        }
        Ok(())
    }

    /// Overwrite row `gidx` of the read buffer with `bytes`.
    pub fn write_cur_at(&mut self, gidx: usize, bytes: &[u8]) -> (r: Result<(), ColumnError>)
        requires
            old(self).wf(),
        ensures
            final(self).wf(),
            final(self).spec_len() == old(self).spec_len(),
            final(self).spec_rows_per_page() == old(self).spec_rows_per_page(),
            final(self).spec_stride() == old(self).spec_stride(),
            final(self).spec_plan() == old(self).spec_plan(),
            final(self).nxt_bufs() == old(self).nxt_bufs(),
            bytes@.len() != old(self).spec_stride() ==> r == Err::<(), ColumnError>(
                ColumnError::StrideMismatch { expected: old(self).spec_stride() as usize, got: bytes@.len() as usize },
            ) && final(self).cur_bufs() == old(self).cur_bufs(),
            bytes@.len() == old(self).spec_stride() && gidx >= old(self).spec_len() ==> r == Err::<(), ColumnError>(
                ColumnError::IndexOutOfBounds { index: gidx, len: old(self).spec_len() as usize },
            ) && final(self).cur_bufs() == old(self).cur_bufs(),
            bytes@.len() == old(self).spec_stride() && gidx < old(self).spec_len() ==> r is Ok
                && final(self).cur_bufs() == write_row(
                old(self).cur_bufs(),
                gidx as int,
                old(self).spec_rows_per_page(),
                old(self).spec_stride(),
                bytes@,
            ),
    {
        match self.validate_stride(bytes.len()) {
            Err(e) => {
                return Err(e);
            },
            Ok(()) => {},
        }
        let (page_idx, local_idx) = match self.global_to_local(gidx) {
            Err(e) => {
                return Err(e);
            },
            Ok(v) => v,
        };
        proof {
            lemma_row_location(self.len as nat, self.rows_per_page as nat, gidx as int);
            assert(self.page_ok(self.cur_pages@[page_idx as int], page_idx as int));
            self.lemma_shape();
            self.lemma_write_keeps_shape(self.cur_bufs(), gidx as int, bytes@);
        }
        let ghost cb = self.cur_bufs();
        let ghost pages = self.cur_pages@;
        self.cur_pages[page_idx].write_row(local_idx, bytes);
        proof {
            assert(self.cur_bufs() =~= write_row(cb, gidx as int, self.rows_per_page as nat, self.stride as nat, bytes@));
            assert forall|p: int| 0 <= p < self.cur_pages@.len() implies self.page_ok(#[trigger] self.cur_pages@[p], p) by {
                if p != page_idx {
                    assert(self.cur_pages@[p] == pages[p]);
                }
            }
        }
        Ok(())
    }

    /// Overwrite row `gidx` of the write buffer with `bytes`.
    pub fn write_next_at(&mut self, gidx: usize, bytes: &[u8]) -> (r: Result<(), ColumnError>)
        requires
            old(self).wf(),
        ensures
            final(self).wf(),
            final(self).spec_len() == old(self).spec_len(),
            final(self).spec_rows_per_page() == old(self).spec_rows_per_page(),
            final(self).spec_stride() == old(self).spec_stride(),
            final(self).spec_plan() == old(self).spec_plan(),
            final(self).cur_bufs() == old(self).cur_bufs(),
            bytes@.len() != old(self).spec_stride() ==> r == Err::<(), ColumnError>(
                ColumnError::StrideMismatch { expected: old(self).spec_stride() as usize, got: bytes@.len() as usize },
            ) && final(self).nxt_bufs() == old(self).nxt_bufs(),
            bytes@.len() == old(self).spec_stride() && gidx >= old(self).spec_len() ==> r == Err::<(), ColumnError>(
                ColumnError::IndexOutOfBounds { index: gidx, len: old(self).spec_len() as usize },
            ) && final(self).nxt_bufs() == old(self).nxt_bufs(),
            bytes@.len() == old(self).spec_stride() && gidx < old(self).spec_len() ==> r is Ok
                && final(self).nxt_bufs() == write_row(
                old(self).nxt_bufs(),
                gidx as int,
                old(self).spec_rows_per_page(),
                old(self).spec_stride(),
                bytes@,
            ),
    {
        match self.validate_stride(bytes.len()) {
            Err(e) => {
                return Err(e);
            },
            Ok(()) => {},
        }
        let (page_idx, local_idx) = match self.global_to_local(gidx) {
            Err(e) => {
                return Err(e);
            },
            Ok(v) => v,
        };
        proof {
            lemma_row_location(self.len as nat, self.rows_per_page as nat, gidx as int);
            assert(self.page_ok(self.nxt_pages@[page_idx as int], page_idx as int));
            self.lemma_shape();
        }
        let ghost nb = self.nxt_bufs();
        let ghost pages = self.nxt_pages@;
        self.nxt_pages[page_idx].write_row(local_idx, bytes);
        proof {
            assert(self.nxt_bufs() =~= write_row(nb, gidx as int, self.rows_per_page as nat, self.stride as nat, bytes@));
            assert forall|p: int| 0 <= p < self.nxt_pages@.len() implies self.page_ok(#[trigger] self.nxt_pages@[p], p) by {
                if p != page_idx {
                    assert(self.nxt_pages@[p] == pages[p]);
                }
            }
        }
        Ok(())
    }

    /// Copy row `gidx` of the read buffer into the write buffer.
    pub fn copy_cur_to_next(&mut self, gidx: usize) -> (r: Result<(), ColumnError>)
        requires
            old(self).wf(),
        ensures
            final(self).wf(),
            final(self).spec_len() == old(self).spec_len(),
            final(self).spec_rows_per_page() == old(self).spec_rows_per_page(),
            final(self).spec_stride() == old(self).spec_stride(),
            final(self).spec_plan() == old(self).spec_plan(),
            final(self).cur_bufs() == old(self).cur_bufs(),
            gidx >= old(self).spec_len() ==> r == Err::<(), ColumnError>(
                ColumnError::IndexOutOfBounds { index: gidx, len: old(self).spec_len() as usize },
            ) && final(self).nxt_bufs() == old(self).nxt_bufs(),
            gidx < old(self).spec_len() ==> r is Ok && final(self).nxt_bufs() == write_row(
                old(self).nxt_bufs(),
                gidx as int,
                old(self).spec_rows_per_page(),
                old(self).spec_stride(),
                old(self).cur_row(gidx as int),
            ),
    {
        let (page_idx, local_idx) = match self.global_to_local(gidx) {
            Err(e) => {
                return Err(e);
            },
            Ok(v) => v,
        };
        proof {
            lemma_row_location(self.len as nat, self.rows_per_page as nat, gidx as int);
            assert(self.page_ok(self.cur_pages@[page_idx as int], page_idx as int));
            assert(self.page_ok(self.nxt_pages@[page_idx as int], page_idx as int));
        }
        let row = self.cur_pages[page_idx].row_copy(local_idx);
        let ghost nb = self.nxt_bufs();
        let ghost pages = self.nxt_pages@;
        self.nxt_pages[page_idx].write_row(local_idx, row.as_slice());
        proof {
            assert(self.nxt_bufs() =~= write_row(nb, gidx as int, self.rows_per_page as nat, self.stride as nat, row@));
            assert forall|p: int| 0 <= p < self.nxt_pages@.len() implies self.page_ok(#[trigger] self.nxt_pages@[p], p) by {
                if p != page_idx {
                    assert(self.nxt_pages@[p] == pages[p]);
                }
            }
        }
        Ok(())
    }

    /// The bytes of the rows of `range` in the read buffer; the range must
    /// lie inside one page. An empty range at the very end of a column whose
    /// last page is full names a page that does not exist; the caller must
    /// not ask for it.
    pub fn slice_read(&self, range: Range<usize>) -> (r: Result<&[u8], ColumnError>)
        requires
            self.wf(),
            !(range.start == range.end && range.start == self.spec_len() && self.spec_len()
                % self.spec_rows_per_page() == 0),
        ensures
            ({
                let rpp = self.spec_rows_per_page() as int;
                let st = self.spec_stride() as int;
                let len = self.spec_len();
                let p = range.start as int / rpp;
                let ls = range.start as int % rpp;
                if range.start > range.end || range.end > len {
                    r == Err::<&[u8], ColumnError>(
                        ColumnError::RangeOutOfBounds { start: range.start, end: range.end, len: len as usize },
                    )
                } else if range.start < range.end && p != (range.end - 1) as int / rpp {
                    r == Err::<&[u8], ColumnError>(
                        ColumnError::RangeCrossesPage {
                            start: range.start,
                            end: range.end,
                            rows_per_page: rpp as usize,
                        },
                    )
                } else {
                    r is Ok && r->Ok_0@ == self.cur_bufs()[p].subrange(ls * st, (ls + (range.end - range.start)) * st)
                }
            }),
    {
        let (page_idx, local) = match self.localize_range(&range) {
            Err(e) => {
                return Err(e);
            },
            Ok(v) => v,
        };
        proof {
            let rl = self.rows_per_page as nat;
            if range.start < range.end {
                lemma_row_location(self.len as nat, rl, range.start as int);
                lemma_row_location(self.len as nat, rl, (range.end - 1) as int);
            } else if range.start < self.len {
                lemma_row_location(self.len as nat, rl, range.start as int);
            } else {
                let r = rl as int;
                let l = self.len as int;
                assert(l / r < (l + r - 1) / r) by (nonlinear_arith)
                    requires r > 0, l % r != 0, l >= 0;
            }
            assert(self.page_ok(self.cur_pages@[page_idx as int], page_idx as int));
            let r = rl as int;
            let q = page_idx as int;
            if range.start < range.end {
                assert(local.end <= r) by (nonlinear_arith)
                    requires q == range.start as int / r, q == (range.end - 1) as int / r, r > 0,
                        local.start == range.start as int % r, local.end == local.start + (range.end - range.start),
                        range.start < range.end;
            }
        }
        Ok(self.cur_pages[page_idx].slice_bytes(local.start, local.end - local.start))
    }

    /// Allocate `count` rows at the end; returns one span per page touched.
    pub fn alloc_bulk(&mut self, count: usize) -> (spans: Vec<Range<usize>>)
        requires
            old(self).wf(),
            old(self).spec_len() + count <= usize::MAX,
        ensures
            final(self).wf(),
            spans@ == chunks(old(self).spec_len(), count as nat, old(self).spec_rows_per_page()),
            final(self).spec_len() == old(self).spec_len() + count,
            final(self).spec_rows_per_page() == old(self).spec_rows_per_page(),
            final(self).spec_stride() == old(self).spec_stride(),
            final(self).spec_plan() == old(self).spec_plan(),
            ({
                let rpp = old(self).spec_rows_per_page();
                let extra = pages_for(final(self).spec_len(), rpp) - pages_for(old(self).spec_len(), rpp);
                let z = zero_page(rpp * old(self).spec_stride());
                &&& final(self).cur_bufs() == old(self).cur_bufs() + Seq::new(extra as nat, |i: int| z)
                &&& final(self).nxt_bufs() == old(self).nxt_bufs() + Seq::new(extra as nat, |i: int| z)
            }),
    {
        let ghost rpp = self.rows_per_page as nat;
        let ghost z = zero_page((self.rows_per_page * self.stride) as nat);
        let ghost goal = chunks(self.len as nat, count as nat, rpp);
        let ghost cb0 = self.cur_bufs();
        let ghost nb0 = self.nxt_bufs();
        let ghost len0 = self.len as nat;
        let ghost count0 = count as nat;
        let mut spans: Vec<Range<usize>> = Vec::new();
        let mut count = count;
        assert(spans@ + chunks(self.len as nat, count as nat, rpp) =~= goal);
        assert(cb0 + Seq::new(0, |i: int| z) =~= cb0);
        assert(nb0 + Seq::new(0, |i: int| z) =~= nb0);
        while count > 0
            invariant
                self.wf(),
                rpp == self.rows_per_page,
                self.stride == old(self).stride,
                self.rows_per_page == old(self).rows_per_page,
                self.plan == old(self).plan,
                z == zero_page((self.rows_per_page * self.stride) as nat),
                self.len + count == len0 + count0,
                self.len + count <= usize::MAX,
                len0 == old(self).len,
                self.len >= len0,
                spans@ + chunks(self.len as nat, count as nat, rpp) == goal,
                self.cur_bufs() == cb0 + Seq::new((pages_for(self.len as nat, rpp) - pages_for(len0, rpp)) as nat, |i: int| z),
                self.nxt_bufs() == nb0 + Seq::new((pages_for(self.len as nat, rpp) - pages_for(len0, rpp)) as nat, |i: int| z),
                pages_for(self.len as nat, rpp) >= pages_for(len0, rpp),
            decreases count,
        {
            let ghost len = self.len as nat;
            let ghost old_pages = self.cur_pages@;
            let ghost old_npages = self.nxt_pages@;
            let ghost cb = self.cur_bufs();
            let ghost nb = self.nxt_bufs();
            proof {
                lemma_grow(len, rpp, 1);
            }
            let page_idx = self.ensure_page_with_space();
            proof {
                if len % rpp != 0 {
                    assert(self.page_ok(old_pages[page_idx as int], page_idx as int));
                    assert(self.page_ok(old_npages[page_idx as int], page_idx as int));
                }
            }
            let plen = self.cur_pages[page_idx].len();
            let available = self.rows_per_page - plen;
            let take = if available < count { available } else { count };
            proof {
                lemma_grow(len, rpp, take as nat);
                if len % rpp == 0 {
                    assert(plen == 0);
                } else {
                    assert(plen == len % rpp);
                }
            }
            let ghost cb1 = self.cur_bufs();
            let ghost nb1 = self.nxt_bufs();
            let range_local = self.cur_pages[page_idx].extend(take);
            self.nxt_pages[page_idx].extend(take);
            assert(self.cur_bufs() =~= cb1);
            assert(self.nxt_bufs() =~= nb1);
            proof {
                let r = self.rows_per_page as int;
                assert(page_idx * r + plen == len) by (nonlinear_arith)
                    requires page_idx == len / rpp, plen == len % rpp, r == rpp, rpp > 0;
            }
            let start = page_idx * self.rows_per_page + range_local.start;
            let end = start + take;
            spans.push(Range { start, end });
            self.len = self.len + take;
            count = count - take;
            proof {
                assert forall|p: int| 0 <= p < self.cur_pages@.len() implies self.page_ok(#[trigger] self.cur_pages@[p], p) by {
                    if p < page_idx {
                        assert(old_pages[p] == self.cur_pages@[p]);
                    }
                }
                assert forall|p: int| 0 <= p < self.nxt_pages@.len() implies self.page_ok(#[trigger] self.nxt_pages@[p], p) by {
                    if p < page_idx {
                        assert(old_npages[p] == self.nxt_pages@[p]);
                    }
                }
                assert(chunks(len, (count + take) as nat, rpp) == seq![Range { start, end }] + chunks(
                    self.len as nat,
                    count as nat,
                    rpp,
                ));
                assert(spans@ + chunks(self.len as nat, count as nat, rpp) =~= goal);
                let e_old = (pages_for(len, rpp) - pages_for(len0, rpp)) as nat;
                let e_new = (pages_for(self.len as nat, rpp) - pages_for(len0, rpp)) as nat;
                if len % rpp == 0 {
                    assert(e_new == e_old + 1);
                    assert(self.cur_bufs() =~= cb0 + Seq::new(e_new, |i: int| z));
                    assert(self.nxt_bufs() =~= nb0 + Seq::new(e_new, |i: int| z));
                } else {
                    assert(e_new == e_old);
                }
            }
        }
        assert(spans@ + Seq::<Range<usize>>::empty() =~= spans@);
        spans
    }

    /// Copy row `from` over row `to` in both buffers.
    fn move_row(&mut self, from: usize, to: usize) -> (r: Result<(), ColumnError>)
        requires
            old(self).wf(),
            from < old(self).spec_len(),
            to < old(self).spec_len(),
        ensures
            r is Ok,
            final(self).wf(),
            final(self).spec_len() == old(self).spec_len(),
            final(self).spec_rows_per_page() == old(self).spec_rows_per_page(),
            final(self).spec_stride() == old(self).spec_stride(),
            final(self).spec_plan() == old(self).spec_plan(),
            from == to ==> final(self).cur_bufs() == old(self).cur_bufs() && final(self).nxt_bufs() == old(self).nxt_bufs(),
            from != to ==> final(self).cur_bufs() == write_row(
                old(self).cur_bufs(),
                to as int,
                old(self).spec_rows_per_page(),
                old(self).spec_stride(),
                old(self).cur_row(from as int),
            ) && final(self).nxt_bufs() == write_row(
                old(self).nxt_bufs(),
                to as int,
                old(self).spec_rows_per_page(),
                old(self).spec_stride(),
                old(self).nxt_row(from as int),
            ),
    {
        let (from_page, from_local) = match self.global_to_local(from) {
            Ok(v) => v,
            Err(e) => {
                return Err(e);
            },
        };
        let (to_page, to_local) = match self.global_to_local(to) {
            Ok(v) => v,
            Err(e) => {
                return Err(e);
            },
        };
        if from_page == to_page && from_local == to_local {
            proof {
                lemma_row_location(self.len as nat, self.rows_per_page as nat, from as int);
                lemma_row_location(self.len as nat, self.rows_per_page as nat, to as int);
            }
            return Ok(());
        }
        proof {
            lemma_row_location(self.len as nat, self.rows_per_page as nat, from as int);
            lemma_row_location(self.len as nat, self.rows_per_page as nat, to as int);
            assert(self.page_ok(self.cur_pages@[from_page as int], from_page as int));
            assert(self.page_ok(self.nxt_pages@[from_page as int], from_page as int));
            assert(self.page_ok(self.cur_pages@[to_page as int], to_page as int));
            assert(self.page_ok(self.nxt_pages@[to_page as int], to_page as int));
        }
        let cur_tmp = self.cur_pages[from_page].row_copy(from_local);
        let nxt_tmp = self.nxt_pages[from_page].row_copy(from_local);
        let ghost cb = self.cur_bufs();
        let ghost nb = self.nxt_bufs();
        let ghost cp = self.cur_pages@;
        let ghost np = self.nxt_pages@;
        self.cur_pages[to_page].write_row(to_local, cur_tmp.as_slice());
        self.nxt_pages[to_page].write_row(to_local, nxt_tmp.as_slice());
        proof {
            assert(self.cur_bufs() =~= write_row(cb, to as int, self.rows_per_page as nat, self.stride as nat, cur_tmp@));
            assert(self.nxt_bufs() =~= write_row(nb, to as int, self.rows_per_page as nat, self.stride as nat, nxt_tmp@));
            assert forall|p: int| 0 <= p < self.cur_pages@.len() implies self.page_ok(#[trigger] self.cur_pages@[p], p) by {
                if p != to_page {
                    assert(self.cur_pages@[p] == cp[p]);
                }
            }
            assert forall|p: int| 0 <= p < self.nxt_pages@.len() implies self.page_ok(#[trigger] self.nxt_pages@[p], p) by {
                if p != to_page {
                    assert(self.nxt_pages@[p] == np[p]);
                }
            }
        }
        Ok(())
    }

    /// Drop the last row and any page left empty at the end.
    fn remove_last_row(&mut self)
        requires
            old(self).wf(),
            old(self).spec_len() > 0,
        ensures
            final(self).wf(),
            final(self).spec_len() == old(self).spec_len() - 1,
            final(self).spec_rows_per_page() == old(self).spec_rows_per_page(),
            final(self).spec_stride() == old(self).spec_stride(),
            final(self).spec_plan() == old(self).spec_plan(),
            final(self).cur_bufs() == old(self).cur_bufs().take(
                pages_for((old(self).spec_len() - 1) as nat, old(self).spec_rows_per_page()) as int,
            ),
            final(self).nxt_bufs() == old(self).nxt_bufs().take(
                pages_for((old(self).spec_len() - 1) as nat, old(self).spec_rows_per_page()) as int,
            ),
    {
        let ghost rpp = self.rows_per_page as nat;
        let ghost cb0 = self.cur_bufs();
        let ghost nb0 = self.nxt_bufs();
        let last = self.len - 1;
        proof {
            lemma_grow(last as nat, rpp, 1);
            lemma_row_location(self.len as nat, rpp, last as int);
        }
        let page_idx = last / self.rows_per_page;
        let ghost cp = self.cur_pages@;
        let ghost np = self.nxt_pages@;
        self.cur_pages[page_idx].pop_one();
        self.nxt_pages[page_idx].pop_one();
        self.len = last;
        assert(self.cur_bufs() =~= cb0);
        assert(self.nxt_bufs() =~= nb0);
        let ghost target = pages_for(last as nat, rpp);
        proof {
            assert(self.page_ok(cp[page_idx as int], page_idx as int) || true);
            assert forall|p: int| 0 <= p < target implies self.page_ok(#[trigger] self.cur_pages@[p], p)
                && #[trigger] self.page_ok(self.nxt_pages@[p], p) by {
                assert(old(self).page_ok(cp[p], p));
                assert(old(self).page_ok(np[p], p));
            }
            if (last as nat) % rpp == 0 {
                assert(self.cur_pages@.len() == target + 1);
                assert(self.cur_pages@[target as int].len == 0);
                assert(self.nxt_pages@[target as int].len == 0);
            } else {
                assert(self.cur_pages@.len() == target);
            }
        }
        while self.cur_pages.len() > 0 && self.cur_pages[self.cur_pages.len() - 1].len() == 0
            invariant
                self.rows_per_page > 0,
                self.rows_per_page * self.stride <= usize::MAX,
                self.stride == self.plan.meta.stride,
                self.len == last,
                rpp == self.rows_per_page,
                self.rows_per_page == old(self).rows_per_page,
                self.stride == old(self).stride,
                self.plan == old(self).plan,
                target == pages_for(last as nat, rpp),
                self.nxt_pages@.len() == self.cur_pages@.len(),
                self.cur_pages@.len() == target || (self.cur_pages@.len() == target + 1
                    && self.cur_pages@[target as int].len == 0 && self.nxt_pages@[target as int].len == 0),
                forall|p: int| 0 <= p < target ==> self.page_ok(#[trigger] self.cur_pages@[p], p),
                forall|p: int| 0 <= p < target ==> self.page_ok(#[trigger] self.nxt_pages@[p], p),
                self.cur_bufs() == cb0.take(self.cur_pages@.len() as int),
                self.nxt_bufs() == nb0.take(self.nxt_pages@.len() as int),
                self.cur_pages@.len() <= cb0.len(),
                cb0.len() == nb0.len(),
            decreases self.cur_pages@.len(),
        {
            proof {
                let n = self.cur_pages@.len();
                if n == target && n > 0 {
                    lemma_page_nonempty(last as nat, rpp, n - 1);
                    assert(self.page_ok(self.cur_pages@[n - 1], n - 1));
                }
            }
            let ghost pv = self.cur_bufs();
            let ghost nv = self.nxt_bufs();
            let ghost cpp = self.cur_pages@;
            let ghost npp = self.nxt_pages@;
            self.cur_pages.pop();
            self.nxt_pages.pop();
            assert(self.cur_pages@ == cpp.drop_last());
            assert(self.nxt_pages@ == npp.drop_last());
            assert(self.cur_bufs() =~= pv.drop_last());
            assert(self.nxt_bufs() =~= nv.drop_last());
            assert(self.cur_bufs() =~= cb0.take(self.cur_pages@.len() as int));
            assert(self.nxt_bufs() =~= nb0.take(self.nxt_pages@.len() as int));
        }
        proof {
            let n = self.cur_pages@.len();
            if n == target + 1 {
                assert(self.cur_pages@[n - 1].len == 0);
            }
            assert(n == target);
        }
    }

    /// Remove row `gidx` by moving the last row into it. Returns the move
    /// `(last, gidx)` when another row moved.
    pub fn free_one_swap_remove(&mut self, gidx: usize) -> (r: Result<Option<(usize, usize)>, ColumnError>)
        requires
            old(self).wf(),
        ensures
            final(self).wf(),
            final(self).spec_rows_per_page() == old(self).spec_rows_per_page(),
            final(self).spec_stride() == old(self).spec_stride(),
            final(self).spec_plan() == old(self).spec_plan(),
            gidx >= old(self).spec_len() ==> r == Err::<Option<(usize, usize)>, ColumnError>(
                ColumnError::IndexOutOfBounds { index: gidx, len: old(self).spec_len() as usize },
            ) && *final(self) == *old(self),
            gidx < old(self).spec_len() ==> ({
                let len = old(self).spec_len();
                let rpp = old(self).spec_rows_per_page();
                let st = old(self).spec_stride();
                &&& final(self).spec_len() == len - 1
                &&& r == Ok::<Option<(usize, usize)>, ColumnError>(
                    if gidx == len - 1 { None } else { Some(((len - 1) as usize, gidx)) },
                )
                &&& final(self).cur_bufs() == remove_row(old(self).cur_bufs(), len, gidx as int, rpp, st)
                &&& final(self).nxt_bufs() == remove_row(old(self).nxt_bufs(), len, gidx as int, rpp, st)
            }),
    {
        if gidx >= self.len {
            return Err(ColumnError::IndexOutOfBounds { index: gidx, len: self.len });
        }
        let last_idx = self.len - 1;
        let moved = if gidx != last_idx {
            let _ = self.move_row(last_idx, gidx);
            Some((last_idx, gidx))
        } else {
            None
        };
        self.remove_last_row();
        Ok(moved)
    }

    /// Remove the rows listed in `gidxs` (duplicates count once), largest
    /// first, each by moving the current last row into it. Fails without
    /// change when the largest index is not a row. Returns the moves in
    /// ascending order of removal target, i.e. the reverse of the order they
    /// happened in.
    pub fn free_bulk_swap_remove(&mut self, gidxs: Vec<usize>) -> (r: Result<Vec<(usize, usize)>, ColumnError>)
        requires
            old(self).wf(),
        ensures
            final(self).wf(),
            final(self).spec_rows_per_page() == old(self).spec_rows_per_page(),
            final(self).spec_stride() == old(self).spec_stride(),
            final(self).spec_plan() == old(self).spec_plan(),
            gidxs@.len() == 0 ==> r is Ok && r->Ok_0@.len() == 0 && final(self).spec_len() == old(self).spec_len()
                && final(self).cur_bufs() == old(self).cur_bufs() && final(self).nxt_bufs() == old(self).nxt_bufs(),
            gidxs@.len() > 0 ==> ({
                    let u = crate::pool::sort::index_set(gidxs@);
                    let len = old(self).spec_len();
                    let rpp = old(self).spec_rows_per_page();
                    let st = old(self).spec_stride();
                    if u.last() >= len {
                        r == Err::<Vec<(usize, usize)>, ColumnError>(
                            ColumnError::IndexOutOfBounds { index: u.last(), len: len as usize },
                        ) && *final(self) == *old(self)
                    } else {
                        &&& r is Ok
                        &&& r->Ok_0@ == bulk_row_moves(len, u).reverse()
                        &&& final(self).spec_len() == len - u.len()
                        &&& final(self).cur_bufs() == bulk_rows(old(self).cur_bufs(), len, u, rpp, st)
                        &&& final(self).nxt_bufs() == bulk_rows(old(self).nxt_bufs(), len, u, rpp, st)
                    }
                }),
    {
        if gidxs.len() == 0 {
            return Ok(Vec::new());
        }
        let ghost orig = gidxs@;
        let mut sorted = gidxs;
        sort_indices(&mut sorted);
        proof {
            assert(sorted@.to_set() =~= orig.to_set()) by {
                assert forall|x: usize| sorted@.to_set().contains(x) <==> orig.to_set().contains(x) by {
                    sorted@.to_multiset_ensures();
                    orig.to_multiset_ensures();
                    assert(sorted@.to_multiset().count(x) == orig.to_multiset().count(x));
                    assert(sorted@.contains(x) <==> orig.contains(x));
                }
            }
        }
        let u = crate::pool::sort::dedup_sorted(&sorted);
        let ghost us = u@;
        proof {
            crate::pool::sort::lemma_index_set_is(orig, us);
        }
        let ghost len0 = self.len as nat;
        let ghost rpp = self.rows_per_page as nat;
        let ghost st = self.stride as nat;
        let ghost cb0 = self.cur_bufs();
        let ghost nb0 = self.nxt_bufs();
        let mut moves: Vec<(usize, usize)> = Vec::new();
        let mut k: usize = u.len();
        if u[k - 1] >= self.len {
            return Err(ColumnError::IndexOutOfBounds { index: u[k - 1], len: self.len });
        }
        assert(us.take(k as int) =~= us);
        assert(moves@ + bulk_row_moves(self.len as nat, us) =~= bulk_row_moves(len0, us));
        while k > 0
            invariant
                k <= us.len(),
                u@ == us,
                crate::pool::sort::strictly_sorted_usize(us),
                self.wf(),
                self.rows_per_page == old(self).rows_per_page,
                self.stride == old(self).stride,
                self.plan == old(self).plan,
                rpp == self.rows_per_page,
                st == self.stride,
                self.len == len0 - (us.len() - k),
                k > 0 ==> us[k - 1] < self.len,
                bulk_rows(self.cur_bufs(), self.len as nat, us.take(k as int), rpp, st) == bulk_rows(cb0, len0, us, rpp, st),
                bulk_rows(self.nxt_bufs(), self.len as nat, us.take(k as int), rpp, st) == bulk_rows(nb0, len0, us, rpp, st),
                moves@ + bulk_row_moves(self.len as nat, us.take(k as int)) == bulk_row_moves(len0, us),
            decreases k,
        {
            let g = u[k - 1];
            let last_idx = self.len - 1;
            let ghost len = self.len as nat;
            let ghost pre_moves = moves@;
            assert(us.take(k as int).last() == g);
            assert(us.take(k as int).drop_last() =~= us.take(k - 1));
            if g != last_idx {
                let _ = self.move_row(last_idx, g);
                moves.push((last_idx, g));
            }
            self.remove_last_row();
            proof {
                if g != last_idx {
                    assert(moves@ + bulk_row_moves(self.len as nat, us.take(k - 1)) =~= pre_moves + (
                        seq![(last_idx, g)] + bulk_row_moves(self.len as nat, us.take(k - 1))));
                }
                if k > 1 {
                    assert(us[k - 2] < us[k - 1]);
                }
            }
            k = k - 1;
        }
        assert(us.take(0) =~= Seq::<usize>::empty());
        assert(moves@ + Seq::<(usize, usize)>::empty() =~= moves@);
        // report the moves in reverse
        let mut out: Vec<(usize, usize)> = Vec::new();
        let mut j: usize = moves.len();
        while j > 0
            invariant
                j <= moves@.len(),
                out@ == moves@.subrange(j as int, moves@.len() as int).reverse(),
            decreases j,
        {
            out.push(moves[j - 1]);
            j = j - 1;
            assert(out@ =~= moves@.subrange(j as int, moves@.len() as int).reverse());
        }
        assert(moves@.subrange(0, moves@.len() as int) =~= moves@);
        Ok(out)
    }
}

/// After writing `bytes` to row `g`, row `g` reads back `bytes`.
pub proof fn lemma_row_after_write(new: ComponentColumn, old: ComponentColumn, g: int, bytes: Seq<u8>)
    requires
        old.wf(),
        0 <= g < old.spec_len(),
        bytes.len() == old.spec_stride(),
        new.cur_bufs() == write_row(old.cur_bufs(), g, old.spec_rows_per_page(), old.spec_stride(), bytes),
        new.spec_rows_per_page() == old.spec_rows_per_page(),
        new.spec_stride() == old.spec_stride(),
    ensures
        new.cur_row(g) == bytes,
{
    old.lemma_shape();
    let r = old.spec_rows_per_page();
    let st = old.spec_stride();
    lemma_row_location(old.spec_len(), r, g);
    let l = g % (r as int);
    lemma_mul_le(l + 1, r as int, st as int);
    assert((l + 1) * st == l * st + st) by (nonlinear_arith);
    lemma_mul_le(l, l + 1, st as int);
    let p = g / (r as int);
    let b = old.cur_bufs()[p];
    let off = l * st;
    assert((b.subrange(0, off) + bytes + b.subrange(off + st, b.len() as int)).subrange(off, off + st) =~= bytes);
}

/// `new` is `old` after writing `bytes` over the rows `start..end` of the
/// write buffer with result `r`: refused, with nothing changed, when the
/// rows do not lie in the column or `bytes` is not exactly their length;
/// otherwise each row of the range reads its part of `bytes` and every
/// other row is kept. The read buffer is kept either way.
pub open spec fn next_range_written(
    old: ComponentColumn,
    new: ComponentColumn,
    start: usize,
    end: usize,
    bytes: Seq<u8>,
    r: Result<(), ColumnError>,
) -> bool {
    let st = old.spec_stride();
    &&& new.wf()
    &&& new.spec_len() == old.spec_len()
    &&& new.spec_rows_per_page() == old.spec_rows_per_page()
    &&& new.spec_stride() == st
    &&& new.spec_plan() == old.spec_plan()
    &&& new.cur_bufs() == old.cur_bufs()
    &&& (start > end || end > old.spec_len() ==> r == Err::<(), ColumnError>(
        ColumnError::RangeOutOfBounds { start, end, len: old.spec_len() as usize },
    ))
    &&& (start <= end <= old.spec_len() && (end - start) * st > usize::MAX ==> r == Err::<(), ColumnError>(
        ColumnError::StrideMismatch { expected: usize::MAX, got: bytes.len() as usize },
    ))
    &&& (start <= end <= old.spec_len() && (end - start) * st <= usize::MAX && bytes.len() != (end - start) * st
        ==> r == Err::<(), ColumnError>(
        ColumnError::StrideMismatch { expected: ((end - start) * st) as usize, got: bytes.len() as usize },
    ))
    &&& (r is Err ==> new.nxt_bufs() == old.nxt_bufs())
    &&& (r is Ok <==> start <= end <= old.spec_len() && bytes.len() == (end - start) * st)
    &&& (r is Ok ==> forall|g: int| start <= g < end ==> #[trigger] new.nxt_row(g) == bytes.subrange(
        (g - start) * st,
        (g - start + 1) * st,
    ))
    &&& (r is Ok ==> forall|h: int| 0 <= h < old.spec_len() && !(start <= h < end) ==> #[trigger] new.nxt_row(h) == old.nxt_row(h))
}

/// In page buffers of `len` rows shaped as a column keeps them, writing
/// row `g` keeps the shape, makes row `g` read `b` and leaves every other
/// row as it was.
proof fn lemma_write_row_effect(bufs: Seq<Seq<u8>>, len: nat, rpp: nat, st: nat, g: int, b: Seq<u8>)
    requires
        rpp > 0,
        bufs.len() == pages_for(len, rpp),
        forall|p: int| 0 <= p < bufs.len() ==> (#[trigger] bufs[p]).len() == rpp * st,
        0 <= g < len,
        b.len() == st,
    ensures
        write_row(bufs, g, rpp, st, b).len() == bufs.len(),
        forall|p: int| 0 <= p < bufs.len() ==> (#[trigger] write_row(bufs, g, rpp, st, b)[p]).len() == rpp * st,
        row_of(write_row(bufs, g, rpp, st, b), g, rpp, st) == b,
        forall|h: int| 0 <= h < len && h != g ==> #[trigger] row_of(write_row(bufs, g, rpp, st, b), h, rpp, st) == row_of(
            bufs,
            h,
            rpp,
            st,
        ),
{
    let r = rpp as int;
    let l = g % r;
    let p = g / r;
    lemma_row_location(len, rpp, g);
    lemma_mul_le(l + 1, r, st as int);
    lemma_mul_le(l, l + 1, st as int);
    assert((l + 1) * st == l * st + st) by (nonlinear_arith);
    let bp = bufs[p];
    let off = l * st;
    let nb = bp.subrange(0, off) + b + bp.subrange(off + st, bp.len() as int);
    let nw = write_row(bufs, g, rpp, st, b);
    assert(nw[p] == nb);
    assert(nb.subrange(off, off + st) =~= b);
    assert forall|h: int| 0 <= h < len && h != g implies #[trigger] row_of(nw, h, rpp, st) == row_of(bufs, h, rpp, st) by {
        lemma_row_location(len, rpp, h);
        let q = h / r;
        if q == p {
            let hl = h % r;
            assert(hl != l);
            assert((hl + 1) * st == hl * st + st) by (nonlinear_arith);
            if hl < l {
                lemma_mul_le(hl + 1, l, st as int);
                lemma_mul_le(hl, hl + 1, st as int);
                assert(nb.subrange(hl * st, hl * st + st) =~= bp.subrange(hl * st, hl * st + st));
            } else {
                lemma_mul_le(l + 1, hl, st as int);
                lemma_mul_le(hl + 1, r, st as int);
                assert(nb.subrange(hl * st, hl * st + st) =~= bp.subrange(hl * st, hl * st + st));
            }
        }
    }
}

/// Writing `bytes` to row `g` of the read buffer, as `write_cur_at` does,
/// makes `slice_read(g..g + 1)` give back `bytes` (those are the bytes of
/// page `g / rows_per_page` at that row's offset) and leaves every other
/// row of the read buffer as it was.
pub proof fn law_write_cur_then_read(old: ComponentColumn, new: ComponentColumn, g: int, bytes: Seq<u8>)
    requires
        old.wf(),
        0 <= g < old.spec_len(),
        bytes.len() == old.spec_stride(),
        new.cur_bufs() == write_row(old.cur_bufs(), g, old.spec_rows_per_page(), old.spec_stride(), bytes),
        new.spec_rows_per_page() == old.spec_rows_per_page(),
        new.spec_stride() == old.spec_stride(),
    ensures
        ({
            let rpp = new.spec_rows_per_page() as int;
            let st = new.spec_stride() as int;
            let ls = g % rpp;
            new.cur_bufs()[g / rpp].subrange(ls * st, (ls + 1) * st) == bytes
        }),
        forall|h: int| 0 <= h < old.spec_len() && h != g ==> #[trigger] new.cur_row(h) == old.cur_row(h),
{
    lemma_row_after_write(new, old, g, bytes);
    old.lemma_shape();
    let r = old.spec_rows_per_page();
    let st = old.spec_stride();
    let l = g % (r as int);
    assert((l + 1) * st == l * st + st) by (nonlinear_arith);
    lemma_row_location(old.spec_len(), r, g);
    assert forall|h: int| 0 <= h < old.spec_len() && h != g implies #[trigger] new.cur_row(h) == old.cur_row(h) by {
        lemma_row_location(old.spec_len(), r, h);
        let p = g / (r as int);
        let q = h / (r as int);
        if q == p {
            let hl = h % (r as int);
            let b = old.cur_bufs()[p];
            let off = l * st;
            let nb = b.subrange(0, off) + bytes + b.subrange(off + st, b.len() as int);
            assert(hl != l);
            lemma_mul_le(l + 1, r as int, st as int);
            assert((hl + 1) * st == hl * st + st) by (nonlinear_arith);
            if hl < l {
                lemma_mul_le(hl + 1, l, st as int);
                lemma_mul_le(hl, hl + 1, st as int);
                assert(nb.subrange(hl * st, hl * st + st) =~= b.subrange(hl * st, hl * st + st));
            } else {
                lemma_mul_le(l + 1, hl, st as int);
                lemma_mul_le(hl + 1, r as int, st as int);
                assert(nb.subrange(hl * st, hl * st + st) =~= b.subrange(hl * st, hl * st + st));
            }
        }
    }
}

/// Two exchanges of the read and write buffers, as `swap_buffers` makes
/// them, give back both buffers; after the first, every row reads what the
/// write buffer held.
pub proof fn law_swap_buffers_twice(c0: ComponentColumn, c1: ComponentColumn, c2: ComponentColumn)
    requires
        c1.cur_bufs() == c0.nxt_bufs(),
        c1.nxt_bufs() == c0.cur_bufs(),
        c1.spec_rows_per_page() == c0.spec_rows_per_page(),
        c1.spec_stride() == c0.spec_stride(),
        c2.cur_bufs() == c1.nxt_bufs(),
        c2.nxt_bufs() == c1.cur_bufs(),
        c2.spec_rows_per_page() == c1.spec_rows_per_page(),
        c2.spec_stride() == c1.spec_stride(),
    ensures
        forall|g: int| #[trigger] c1.cur_row(g) == c0.nxt_row(g),
        c2.cur_bufs() == c0.cur_bufs(),
        c2.nxt_bufs() == c0.nxt_bufs(),
        forall|g: int| #[trigger] c2.cur_row(g) == c0.cur_row(g),
{
}

proof fn lemma_mul_le(a: int, b: int, c: int)
    requires
        0 <= a <= b,
        0 <= c,
    ensures
        a * c <= b * c,
        0 <= a * c,
{
    assert(a * c <= b * c) by (nonlinear_arith)
        requires a <= b, c >= 0;
    assert(0 <= a * c) by (nonlinear_arith)
        requires a >= 0, c >= 0;
}

} // verus!
