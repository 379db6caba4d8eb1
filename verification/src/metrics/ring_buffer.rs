//! Fixed-capacity buffer of the latest samples, for rolling averages.
use vstd::prelude::*;
use std::time::Duration;
use crate::clock::{duration_from_nanos, duration_nanos, max_duration_nanos, nanos_of};

verus! {

/// The latest `capacity` samples. Until it is full a sample is appended;
/// afterwards it overwrites the oldest one.
pub struct RingBuffer<T> {
    samples: Vec<T>,
    capacity: usize,
    index: usize,
}

/// The sample count as the 32-bit number the mean divides by.
pub open spec fn sample_count(n: nat) -> nat {
    n % 0x1_0000_0000
}

/// Sum of the nanoseconds of `s`.
pub open spec fn sum_nanos(s: Seq<Duration>) -> int
    decreases s.len(),
{
    if s.len() == 0 {
        0
    } else {
        sum_nanos(s.drop_last()) + duration_nanos(s.last())
    }
}

/// Samples and next slot after recording `x` in a buffer of capacity `c`
/// holding `s` with next slot `i`.
pub open spec fn ring_push<T>(s: Seq<T>, i: nat, c: nat, x: T) -> (Seq<T>, nat) {
    (if s.len() < c { s.push(x) } else { s.update(i as int, x) }, ((i + 1) % c) as nat)
}

/// Samples and next slot of a buffer of capacity `c` made empty and then
/// given the samples `xs` in order.
pub open spec fn ring_state<T>(c: nat, xs: Seq<T>) -> (Seq<T>, nat)
    decreases xs.len(),
{
    if xs.len() == 0 {
        (Seq::empty(), 0)
    } else {
        let (s, i) = ring_state(c, xs.drop_last());
        ring_push(s, i, c, xs.last())
    }
}

/// Slot of the `k`-th oldest sample of a full buffer of capacity `c`
/// whose next slot is `i`.
pub open spec fn ring_slot(i: nat, k: int, c: nat) -> int {
    if i + k < c { i + k } else { i + k - c }
}

/// A buffer of capacity `c > 0` keeps the latest `c` samples: until it is
/// full it holds all of them in order; afterwards the `k`-th oldest of the
/// last `c` samples stands in slot [`ring_slot`] from the next slot.
pub proof fn law_ring_keeps_latest<T>(c: nat, xs: Seq<T>)
    requires
        c > 0,
    ensures
        ({
            let (s, i) = ring_state(c, xs);
            &&& i < c
            &&& s.len() == (if xs.len() < c { xs.len() } else { c })
            &&& xs.len() < c ==> s == xs && i == xs.len()
            &&& xs.len() >= c ==> forall|k: int| 0 <= k < c ==> #[trigger] s[ring_slot(i, k, c)] == xs[xs.len() - c + k]
        }),
    decreases xs.len(),
{
    if xs.len() > 0 {
        let p = xs.drop_last();
        law_ring_keeps_latest(c, p);
        let (ps, pi) = ring_state(c, p);
        let (s, i) = ring_state(c, xs);
        let n = p.len();
        if pi + 1 < c {
            vstd::arithmetic::div_mod::lemma_small_mod((pi + 1) as nat, c);
        } else {
            assert((pi + 1) % c == 0) by (nonlinear_arith)
                requires pi + 1 == c, c > 0;
        }
        if n < c {
            assert(s == ps.push(xs.last()));
            assert(s =~= xs) by {
                assert(ps == p);
            }
            if n + 1 == c {
                assert(i == 0);
                assert forall|k: int| 0 <= k < c implies #[trigger] s[ring_slot(i, k, c)] == xs[xs.len() - c + k] by {}
            }
        } else {
            assert(s == ps.update(pi as int, xs.last()));
            assert forall|k: int| 0 <= k < c implies #[trigger] s[ring_slot(i, k, c)] == xs[xs.len() - c + k] by {
                if k == c - 1 {
                    assert(ring_slot(i, k, c) == pi);
                } else {
                    assert(ring_slot(i, k, c) == ring_slot(pi, k + 1, c));
                    assert(ps[ring_slot(pi, k + 1, c)] == p[n - c + k + 1]);
                    assert(ring_slot(i, k, c) != pi);
                }
            }
        }
    }
}

impl<T: Clone + Default> RingBuffer<T> {
    /// Samples held, in slot order.
    pub closed spec fn samples_view(&self) -> Seq<T> {
        self.samples@
    }

    pub closed spec fn spec_capacity(&self) -> nat {
        self.capacity as nat
    }

    /// Slot the next sample overwrites once the buffer is full.
    pub closed spec fn spec_index(&self) -> nat {
        self.index as nat
    }

    pub open spec fn wf(&self) -> bool {
        &&& self.samples_view().len() <= self.spec_capacity()
        &&& self.spec_capacity() > 0 ==> self.spec_index() < self.spec_capacity()
        &&& self.spec_capacity() == 0 ==> self.spec_index() == 0
        &&& self.samples_view().len() < self.spec_capacity() ==> self.spec_index() == self.samples_view().len()
    }

    /// An empty buffer keeping the latest `capacity` samples.
    pub fn new(capacity: usize) -> (b: Self)
        ensures
            b.wf(),
            b.samples_view() == Seq::<T>::empty(),
            b.spec_capacity() == capacity,
            b.spec_index() == 0,
    {
        RingBuffer { samples: Vec::with_capacity(capacity), capacity, index: 0 }
    }

    /// Record `sample`: appended while there is room, else written over the
    /// oldest sample.
    pub fn push(&mut self, sample: T)
        requires
            old(self).wf(),
            old(self).spec_capacity() > 0,
        ensures
            final(self).wf(),
            final(self).spec_capacity() == old(self).spec_capacity(),
            final(self).samples_view() == if old(self).samples_view().len() < old(self).spec_capacity() {
                old(self).samples_view().push(sample)
            } else {
                old(self).samples_view().update(old(self).spec_index() as int, sample)
            },
            final(self).spec_index() == (old(self).spec_index() + 1) % old(self).spec_capacity(),
            (final(self).samples_view(), final(self).spec_index()) == ring_push(
                old(self).samples_view(),
                old(self).spec_index(),
                old(self).spec_capacity(),
                sample,
            ),
    {
        if self.samples.len() < self.capacity {
            self.samples.push(sample);
        } else {
            self.samples.set(self.index, sample);
        }
        proof {
            let c = self.capacity as int;
            let j = old(self).index as int + 1;
            vstd::arithmetic::div_mod::lemma_mod_bound(j, c);
            if j < c {
                vstd::arithmetic::div_mod::lemma_small_mod(j as nat, c as nat);
            }
        }
        self.index = (self.index + 1) % self.capacity;
    }

    pub fn len(&self) -> (n: usize)
        ensures
            n == self.samples_view().len(),
    {
        self.samples.len()
    }

    pub fn is_empty(&self) -> (b: bool)
        ensures
            b == (self.samples_view().len() == 0),
    {
        self.samples.len() == 0
    }
}

impl RingBuffer<Duration> {
    /// Mean of the samples, rounded down to the nanosecond, the count taken
    /// as a 32-bit number; zero when there is none. Excluded: samples whose
    /// sum exceeds the longest duration, and a count whose 32-bit value is 0.
    pub fn average(&self) -> (d: Duration)
        requires
            sum_nanos(self.samples_view()) <= max_duration_nanos(),
            self.samples_view().len() == 0 || sample_count(self.samples_view().len()) > 0,
        ensures
            self.samples_view().len() == 0 ==> duration_nanos(d) == 0,
            self.samples_view().len() > 0 ==> duration_nanos(d) == sum_nanos(self.samples_view())
                / (sample_count(self.samples_view().len()) as int),
    {
        if self.samples.len() == 0 {
            return duration_from_nanos(0);
        }
        let mut sum: u128 = 0;
        let mut i: usize = 0;
        while i < self.samples.len()
            invariant
                i <= self.samples@.len(),
                sum == sum_nanos(self.samples@.take(i as int)),
                sum_nanos(self.samples@) <= max_duration_nanos(),
            decreases self.samples@.len() - i,
        {
            proof {
                assert(self.samples@.take(i + 1).drop_last() =~= self.samples@.take(i as int));
                lemma_sum_prefix(self.samples@, i + 1);
            }
            let n = nanos_of(&self.samples[i]);
            sum = sum + n;
            i = i + 1;
        }
        assert(self.samples@.take(self.samples@.len() as int) =~= self.samples@);
        let n64 = self.samples.len() as u64;
        let count = #[verifier::truncate] (n64 as u32);
        assert(count == n64 % 0x1_0000_0000) by (bit_vector)
            requires
                count == n64 as u32,
        ;
        let avg = sum / (count as u128);
        assert(avg <= sum) by (nonlinear_arith)
            requires avg == sum / (count as u128), count >= 1;
        duration_from_nanos(avg)
    }

    /// Whether [`Self::average`] may be called: the samples add up to at
    /// most the longest duration and there are at most `u32::MAX` of them.
    pub fn average_fits(&self) -> (b: bool)
        ensures
            b == (sum_nanos(self.samples_view()) <= max_duration_nanos() && (self.samples_view().len() == 0
                || sample_count(self.samples_view().len()) > 0)),
    {
        let n64 = self.samples.len() as u64;
        let count = #[verifier::truncate] (n64 as u32);
        assert(count == n64 % 0x1_0000_0000) by (bit_vector)
            requires
                count == n64 as u32,
        ;
        if n64 > 0 && count == 0 {
            return false;
        }
        let max: u128 = 18446744073709551615999999999u128;
        let mut sum: u128 = 0;
        let mut i: usize = 0;
        while i < self.samples.len()
            invariant
                i <= self.samples@.len(),
                sum == sum_nanos(self.samples@.take(i as int)),
                sum <= max_duration_nanos(),
                max == max_duration_nanos(),
            decreases self.samples@.len() - i,
        {
            proof {
                assert(self.samples@.take(i + 1).drop_last() =~= self.samples@.take(i as int));
                lemma_sum_prefix(self.samples@, i + 1);
            }
            let n = nanos_of(&self.samples[i]);
            if n > max - sum {
                proof {
                    lemma_sum_prefix(self.samples@, i + 1);
                }
                return false;
            }
            sum = sum + n;
            i = i + 1;
        }
        assert(self.samples@.take(self.samples@.len() as int) =~= self.samples@);
        true
    }

    /// Shortest and longest samples; both zero when there is none.
    pub fn min_max(&self) -> (r: (Duration, Duration))
        ensures
            self.samples_view().len() == 0 ==> duration_nanos(r.0) == 0 && duration_nanos(r.1) == 0,
            self.samples_view().len() > 0 ==> {
                &&& self.samples_view().contains(r.0)
                &&& self.samples_view().contains(r.1)
                &&& forall|i: int| 0 <= i < self.samples_view().len() ==> duration_nanos(r.0) <= duration_nanos(
                    #[trigger] self.samples_view()[i],
                ) && duration_nanos(self.samples_view()[i]) <= duration_nanos(r.1)
            },
    {
        if self.samples.len() == 0 {
            return (duration_from_nanos(0), duration_from_nanos(0));
        }
        let mut lo: usize = 0;
        let mut hi: usize = 0;
        let mut lo_n = nanos_of(&self.samples[0]);
        let mut hi_n = lo_n;
        let mut i: usize = 1;
        while i < self.samples.len()
            invariant
                1 <= i <= self.samples@.len(),
                lo < i,
                hi < i,
                lo_n == duration_nanos(self.samples@[lo as int]),
                hi_n == duration_nanos(self.samples@[hi as int]),
                forall|k: int| 0 <= k < i ==> lo_n <= duration_nanos(#[trigger] self.samples@[k]) && duration_nanos(
                    self.samples@[k],
                ) <= hi_n,
            decreases self.samples@.len() - i,
        {
            let n = nanos_of(&self.samples[i]);
            if n < lo_n {
                lo = i;
                lo_n = n;
            }
            if n >= hi_n {
                hi = i;
                hi_n = n;
            }
            i = i + 1;
        }
        let r = (self.samples[lo], self.samples[hi]);
        assert(self.samples@[lo as int] == r.0);
        assert(self.samples@[hi as int] == r.1);
        r
    }
}

proof fn lemma_sum_prefix(s: Seq<Duration>, k: int)
    requires
        0 <= k <= s.len(),
    ensures
        sum_nanos(s.take(k)) <= sum_nanos(s),
        sum_nanos(s.take(k)) >= 0,
    decreases s.len() - k,
{
    if k < s.len() {
        lemma_sum_prefix(s, k + 1);
        assert(s.take(k + 1).drop_last() =~= s.take(k));
    } else {
        assert(s.take(k) =~= s);
    }
    lemma_sum_nonneg(s.take(k));
}

proof fn lemma_sum_nonneg(s: Seq<Duration>)
    ensures
        sum_nanos(s) >= 0,
    decreases s.len(),
{
    if s.len() > 0 {
        lemma_sum_nonneg(s.drop_last());
    }
}

} // verus!
