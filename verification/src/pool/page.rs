//! A single fixed-capacity page of rows.
use vstd::prelude::*;
use core::ops::Range;
use crate::pool::paged_pool::PoolError;
use crate::pool::sort::{sort_indices, sorted_usize};

verus! {

/// One swap-remove step: the last row takes the place of row `t`.
pub open spec fn swap_remove_step<A>(s: Seq<A>, t: int) -> Seq<A> {
    s.update(t, s.last()).drop_last()
}

/// Rows left after removing the targets in `asc` one by one, largest first;
/// a target at or past the current length is skipped.
pub open spec fn bulk_remove<A>(s: Seq<A>, asc: Seq<usize>) -> Seq<A>
    decreases asc.len(),
{
    if asc.len() == 0 {
        s
    } else {
        let t = asc.last();
        let rest = asc.drop_last();
        if t >= s.len() {
            bulk_remove(s, rest)
        } else {
            bulk_remove(swap_remove_step(s, t as int), rest)
        }
    }
}

/// The `(from, to)` local moves that [`bulk_remove`] performs, in order.
pub open spec fn bulk_moves<A>(s: Seq<A>, asc: Seq<usize>) -> Seq<(usize, usize)>
    decreases asc.len(),
{
    if asc.len() == 0 {
        Seq::empty()
    } else {
        let t = asc.last();
        let rest = asc.drop_last();
        if t >= s.len() {
            bulk_moves(s, rest)
        } else if t == s.len() - 1 {
            bulk_moves(swap_remove_step(s, t as int), rest)
        } else {
            seq![((s.len() - 1) as usize, t)] + bulk_moves(swap_remove_step(s, t as int), rest)
        }
    }
}

/// A page of at most `capacity` rows. A row is allocated before it is
/// written; an allocated but unwritten row holds `None`.
pub struct Page<T> {
    slots: Vec<Option<T>>,
    cap: usize,
}

impl<T> View for Page<T> {
    type V = Seq<Option<T>>;

    closed spec fn view(&self) -> Seq<Option<T>> {
        self.slots@
    }
}

impl<T> Page<T> {
    /// The number of rows the page can hold.
    pub closed spec fn spec_capacity(&self) -> nat {
        self.cap as nat
    }

    pub open spec fn wf(&self) -> bool {
        self@.len() <= self.spec_capacity()
    }

    pub fn with_capacity(rows: usize) -> (p: Self)
        ensures
            p.wf(),
            p@ == Seq::<Option<T>>::empty(),
            p.spec_capacity() == rows,
    {
        Page { slots: Vec::new(), cap: rows }
    }

    pub fn capacity(&self) -> (c: usize)
        ensures
            c == self.spec_capacity(),
    {
        self.cap
    }

    pub fn len(&self) -> (n: usize)
        ensures
            n == self@.len(),
    {
        self.slots.len()
    }

    pub fn is_full(&self) -> (b: bool)
        requires
            self.wf(),
        ensures
            b == (self@.len() == self.spec_capacity()),
    {
        self.slots.len() == self.cap
    }

    /// Drop every row.
    pub fn clear(&mut self)
        requires
            old(self).wf(),
        ensures
            final(self).wf(),
            final(self)@ == Seq::<Option<T>>::empty(),
            final(self).spec_capacity() == old(self).spec_capacity(),
    {
        self.slots.clear();
    }

    /// Allocate the next row if there is room; the row is left unwritten.
    pub fn alloc_one(&mut self) -> (r: Option<usize>)
        requires
            old(self).wf(),
        ensures
            final(self).wf(),
            final(self).spec_capacity() == old(self).spec_capacity(),
            old(self)@.len() < old(self).spec_capacity() ==> r == Some(old(self)@.len() as usize)
                && final(self)@ == old(self)@.push(None),
            old(self)@.len() >= old(self).spec_capacity() ==> r.is_none() && final(self)@ == old(self)@,
    {
        if self.slots.len() < self.cap {
            let idx = self.slots.len();
            self.slots.push(None);
            Some(idx)
        } else {
            None
        }
    }

    /// Allocate `n` consecutive rows if they all fit.
    pub fn alloc_bulk(&mut self, n: usize) -> (r: Option<Range<usize>>)
        requires
            old(self).wf(),
        ensures
            final(self).wf(),
            final(self).spec_capacity() == old(self).spec_capacity(),
            old(self)@.len() + n <= old(self).spec_capacity() ==> r == Some(
                Range { start: old(self)@.len() as usize, end: (old(self)@.len() + n) as usize },
            ) && final(self)@ == old(self)@ + Seq::new(n as nat, |i: int| None::<T>),
            old(self)@.len() + n > old(self).spec_capacity() ==> r.is_none() && final(self)@
                == old(self)@,
    {
        let len = self.slots.len();
        let new_len = match len.checked_add(n) {
            Some(v) => v,
            None => {
                return None;
            },
        };
        if new_len <= self.cap {
            let mut k: usize = 0;
            while k < n
                invariant
                    k <= n,
                    len + n <= self.cap,
                    self.cap == old(self).cap,
                    self.slots@ == old(self)@ + Seq::new(k as nat, |i: int| None::<T>),
                decreases n - k,
            {
                self.slots.push(None);
                k = k + 1;
                assert(self.slots@ =~= old(self)@ + Seq::new(k as nat, |i: int| None::<T>));
            }
            Some(Range { start: len, end: new_len })
        } else {
            None
        }
    }

    /// Store `val` in the allocated row `idx`.
    pub fn write_at(&mut self, idx: usize, val: T)
        requires
            old(self).wf(),
            idx < old(self)@.len(),
        ensures
            final(self).wf(),
            final(self).spec_capacity() == old(self).spec_capacity(),
            final(self)@ == old(self)@.update(idx as int, Some(val)),
    {
        self.slots.set(idx, Some(val));
    }

    /// Borrow the value of row `idx` for writing. Reading an allocated row
    /// that was never written is excluded.
    pub fn get_mut(&mut self, idx: usize) -> (r: Result<&mut T, PoolError>)
        requires
            idx < old(self)@.len() ==> old(self)@[idx as int].is_some(),
        ensures
            idx >= old(self)@.len() ==> r == Err::<&mut T, PoolError>(
                PoolError::IndexOutOfBounds { index: idx, len: old(self)@.len() as usize },
            ) && *final(self) == *old(self),
            idx < old(self)@.len() ==> r is Ok && *(r->Ok_0) == old(self)@[idx as int].unwrap() && final(self)@
                == old(self)@.update(idx as int, Some(*final(r->Ok_0))) && final(self).spec_capacity()
                == old(self).spec_capacity(),
            old(self).wf() ==> final(self).wf(),
    {
        if idx >= self.slots.len() {
            return Err(PoolError::IndexOutOfBounds { index: idx, len: self.slots.len() });
        }
        match &mut self.slots[idx] {
            Some(v) => Ok(v),
            None => Err(PoolError::IndexOutOfBounds { index: idx, len: 0 }),
        }
    }

    /// Borrow the value of row `idx`. Reading an allocated row that was never
    /// written is excluded.
    pub fn get(&self, idx: usize) -> (r: Result<&T, PoolError>)
        requires
            idx < self@.len() ==> self@[idx as int].is_some(),
        ensures
            idx < self@.len() ==> r == Ok::<&T, PoolError>(&self@[idx as int].unwrap()),
            idx >= self@.len() ==> r == Err::<&T, PoolError>(
                PoolError::IndexOutOfBounds { index: idx, len: self@.len() as usize },
            ),
    {
        if idx >= self.slots.len() {
            return Err(PoolError::IndexOutOfBounds { index: idx, len: self.slots.len() });
        }
        match &self.slots[idx] {
            Some(v) => Ok(v),
            None => Err(PoolError::IndexOutOfBounds { index: idx, len: self.slots.len() }),
        }
    }

    /// Take out the last row.
    pub fn pop_slot(&mut self) -> (v: Option<T>)
        requires
            old(self).wf(),
            old(self)@.len() > 0,
        ensures
            final(self).wf(),
            final(self).spec_capacity() == old(self).spec_capacity(),
            final(self)@ == old(self)@.drop_last(),
            v == old(self)@.last(),
    {
        match self.slots.pop() {
            Some(v) => v,
            None => None,
        }
    }

    /// Put `v` in row `idx` as it is, written or not.
    pub fn set_slot(&mut self, idx: usize, v: Option<T>)
        requires
            old(self).wf(),
            idx < old(self)@.len(),
        ensures
            final(self).wf(),
            final(self).spec_capacity() == old(self).spec_capacity(),
            final(self)@ == old(self)@.update(idx as int, v),
    {
        self.slots.set(idx, v);
    }

    /// Swap-remove row `idx`; reports the move `(last, idx)` when a different
    /// row took its place.
    pub fn free_one(&mut self, idx: usize) -> (r: Result<Option<(usize, usize)>, PoolError>)
        requires
            old(self).wf(),
        ensures
            final(self).wf(),
            final(self).spec_capacity() == old(self).spec_capacity(),
            idx >= old(self)@.len() ==> r == Err::<Option<(usize, usize)>, PoolError>(
                PoolError::IndexOutOfBounds { index: idx, len: old(self)@.len() as usize },
            ) && final(self)@ == old(self)@,
            idx < old(self)@.len() ==> final(self)@ == swap_remove_step(old(self)@, idx as int)
                && r == Ok::<Option<(usize, usize)>, PoolError>(
                if idx == old(self)@.len() - 1 {
                    None
                } else {
                    Some(((old(self)@.len() - 1) as usize, idx))
                },
            ),
    {
        let len = self.slots.len();
        if idx >= len {
            return Err(PoolError::IndexOutOfBounds { index: idx, len });
        }
        let last = len - 1;
        self.slots.swap_remove(idx);
        if idx != last {
            Ok(Some((last, idx)))
        } else {
            Ok(None)
        }
    }

    /// Swap-remove every row listed in `idxs`, largest index first. Indices
    /// at or past the current length are skipped; an index listed twice is
    /// removed twice. Returns the local moves in the order they happened.
    pub fn free_bulk(&mut self, idxs: Vec<usize>) -> (moves: Vec<(usize, usize)>)
        requires
            old(self).wf(),
        ensures
            final(self).wf(),
            final(self).spec_capacity() == old(self).spec_capacity(),
            exists|asc: Seq<usize>|
                sorted_usize(asc) && asc.to_multiset() == idxs@.to_multiset()
                    && final(self)@ == bulk_remove(old(self)@, asc)
                    && moves@ == bulk_moves(old(self)@, asc),
    {
        let mut idxs = idxs;
        sort_indices(&mut idxs);
        self.free_bulk_sorted(&idxs)
    }

    /// [`free_bulk`](Self::free_bulk) for indices already in ascending order.
    pub fn free_bulk_sorted(&mut self, asc: &Vec<usize>) -> (moves: Vec<(usize, usize)>)
        requires
            old(self).wf(),
            sorted_usize(asc@),
        ensures
            final(self).wf(),
            final(self).spec_capacity() == old(self).spec_capacity(),
            final(self)@ == bulk_remove(old(self)@, asc@),
            moves@ == bulk_moves(old(self)@, asc@),
    {
        let ghost sq = asc@;
        let mut moves: Vec<(usize, usize)> = Vec::new();
        let mut k: usize = asc.len();
        assert(sq.take(k as int) =~= sq);
        assert(moves@ + bulk_moves(self@, sq) =~= bulk_moves(self@, sq));
        while k > 0
            invariant
                k <= sq.len(),
                asc@ == sq,
                self.wf(),
                self.cap == old(self).cap,
                bulk_remove(self@, sq.take(k as int)) == bulk_remove(old(self)@, sq),
                moves@ + bulk_moves(self@, sq.take(k as int)) == bulk_moves(old(self)@, sq),
            decreases k,
        {
            let target = asc[k - 1];
            let ghost pre_moves = moves@;
            assert(sq.take(k as int).last() == target);
            assert(sq.take(k as int).drop_last() =~= sq.take(k - 1));
            let len = self.slots.len();
            if target < len {
                let last = len - 1;
                self.slots.swap_remove(target);
                if target != last {
                    moves.push((last, target));
                    assert(moves@ + bulk_moves(self@, sq.take(k - 1)) =~= pre_moves + (seq![(last, target)] + bulk_moves(self@, sq.take(k - 1))));
                }
            }
            k = k - 1;
        }
        assert(sq.take(0) =~= Seq::<usize>::empty());
        assert(moves@ =~= moves@ + Seq::<(usize, usize)>::empty());
        moves
    }
}

} // verus!
