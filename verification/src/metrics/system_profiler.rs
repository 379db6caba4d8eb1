//! Accumulated run time of named systems.
use vstd::prelude::*;
use std::time::{Duration, Instant};
use crate::clock::{clock_elapsed, clock_reading, max_duration_nanos, duration_from_nanos, duration_nanos, duration_saturating_add, elapsed_since, instant_now, nanos_of};
use crate::metrics::counter::{find_name, lemma_map_dom_len, lemma_to_map_lookup, lemma_to_map_update, names_distinct, position, to_map};

verus! {

/// Total `total` (in nanoseconds) with `d` added, saturating at the longest
/// duration.
pub open spec fn saturating_total(total: int, d: Duration) -> int {
    if total + duration_nanos(d) <= max_duration_nanos() {
        total + duration_nanos(d)
    } else {
        max_duration_nanos()
    }
}

/// The total of `name` went from `before` to `after` by adding the clock's
/// reading of the time passed since an instant read from the clock.
pub open spec fn added_clock_time(before: SystemProfiler, after: SystemProfiler, name: Seq<char>) -> bool {
    exists|start: Instant, d: Duration|
        #![trigger clock_elapsed(start, d)]
        clock_reading(start) && clock_elapsed(start, d) && after.timing_nanos(name) == saturating_total(
            before.timing_nanos(name) as int,
            d,
        )
}

/// Total time measured for each named system.
pub struct SystemProfiler {
    timings: Vec<(String, Duration)>,
}

impl SystemProfiler {
    /// Time accumulated by each system that was timed.
    pub closed spec fn timings_map(&self) -> Map<Seq<char>, Duration> {
        to_map(self.timings@)
    }

    /// Nanoseconds of what [`get_timing`](Self::get_timing) returns for `name`.
    pub open spec fn timing_nanos(&self, name: Seq<char>) -> u128 {
        if self.timings_map().contains_key(name) { duration_nanos(self.timings_map()[name]) } else { 0 }
    }

    pub closed spec fn wf(&self) -> bool {
        names_distinct(self.timings@)
    }

    pub fn new() -> (p: Self)
        ensures
            p.wf(),
            p.timings_map() == Map::<Seq<char>, Duration>::empty(),
    {
        SystemProfiler { timings: Vec::new() }
    }

    /// Run `f`, add the time it took to the total of `name`, and return what
    /// `f` returned. The time added is the clock's reading of the time passed
    /// since an instant read from the clock; the total saturates at the
    /// longest duration.
    pub fn time_system<F, R>(&mut self, name: &str, f: F) -> (r: R)
        where
            F: FnOnce() -> R,
        requires
            old(self).wf(),
            f.requires(()),
        ensures
            final(self).wf(),
            f.ensures((), r),
            final(self).timings_map().dom() == old(self).timings_map().dom().insert(name@),
            final(self).timing_nanos(name@) >= old(self).timing_nanos(name@),
            exists|start: Instant, d: Duration|
                #![trigger clock_elapsed(start, d)]
                clock_reading(start) && clock_elapsed(start, d) && final(self).timing_nanos(name@) == if old(
                    self,
                ).timing_nanos(name@) + duration_nanos(d) <= max_duration_nanos() {
                    old(self).timing_nanos(name@) + duration_nanos(d)
                } else {
                    max_duration_nanos()
                },
            added_clock_time(*old(self), *final(self), name@),
            forall|other: Seq<char>| other != name@ ==> #[trigger] final(self).timings_map().contains_key(other)
                == old(self).timings_map().contains_key(other) && (old(self).timings_map().contains_key(other)
                ==> final(self).timings_map()[other] == old(self).timings_map()[other]),
    {
        let start = instant_now();
        let result = f();
        let elapsed = elapsed_since(&start);
        assert(clock_reading(start) && clock_elapsed(start, elapsed));
        let before = self.get_timing(name);
        let _before_nanos = nanos_of(&before);
        self.record(name, elapsed);
        result
    }

    /// Add `elapsed` to the total of `name`, saturating at the longest
    /// duration; the totals of the other systems are kept.
    pub fn record(&mut self, name: &str, elapsed: Duration)
        requires
            old(self).wf(),
        ensures
            final(self).wf(),
            final(self).timings_map().dom() == old(self).timings_map().dom().insert(name@),
            final(self).timing_nanos(name@) == if old(self).timing_nanos(name@) + duration_nanos(elapsed)
                <= max_duration_nanos() {
                old(self).timing_nanos(name@) + duration_nanos(elapsed)
            } else {
                max_duration_nanos()
            },
            forall|other: Seq<char>| other != name@ ==> #[trigger] final(self).timings_map().contains_key(other)
                == old(self).timings_map().contains_key(other) && (old(self).timings_map().contains_key(other)
                ==> final(self).timings_map()[other] == old(self).timings_map()[other]),
    {
        let key = name.to_owned();
        proof {
            lemma_to_map_lookup(self.timings@, name@);
        }
        match find_name(&self.timings, &key) {
            Some(i) => {
                let total = duration_saturating_add(self.timings[i].1, elapsed);
                proof {
                    let p = position(self.timings@, name@)->Some_0;
                    if p != i as int {
                        assert(self.timings@[p].0@ == name@);
                    }
                    lemma_to_map_update(self.timings@, i as int, (key, total));
                }
                self.timings.set(i, (key, total));
            },
            None => {
                let ghost t0 = self.timings@;
                let zero = duration_from_nanos(0);
                let total = duration_saturating_add(zero, elapsed);
                self.timings.push((key, total));
                proof {
                    assert(self.timings@.drop_last() =~= t0);
                    assert forall|a: int, b: int| 0 <= a < b < self.timings@.len() implies (#[trigger] self.timings@[a]).0@
                        != (#[trigger] self.timings@[b]).0@ by {
                        if b == t0.len() {
                            assert(self.timings@[a] == t0[a]);
                        } else {
                            assert(self.timings@[a] == t0[a] && self.timings@[b] == t0[b]);
                        }
                    }
                }
            },
        }
        proof {
            assert(self.timings_map().dom() =~= old(self).timings_map().dom().insert(name@));
        }
    }

    /// Total time of `name`; zero when it was never timed.
    pub fn get_timing(&self, name: &str) -> (d: Duration)
        requires
            self.wf(),
        ensures
            duration_nanos(d) == self.timing_nanos(name@),
            self.timings_map().contains_key(name@) ==> d == self.timings_map()[name@],
    {
        let key = name.to_owned();
        proof {
            lemma_to_map_lookup(self.timings@, name@);
        }
        match find_name(&self.timings, &key) {
            Some(i) => {
                proof {
                    let p = position(self.timings@, name@)->Some_0;
                    if p != i as int {
                        assert(self.timings@[p].0@ == name@);
                    }
                }
                self.timings[i].1
            },
            None => duration_from_nanos(0),
        }
    }

    /// Forget every timing.
    pub fn reset(&mut self)
        requires
            old(self).wf(),
        ensures
            final(self).wf(),
            final(self).timings_map() == Map::<Seq<char>, Duration>::empty(),
    {
        self.timings.clear();
    }

    /// Every timed system with its total, each name once.
    pub fn iter(&self) -> (v: Vec<(&String, &Duration)>)
        requires
            self.wf(),
        ensures
            v@.len() == self.timings_map().dom().len(),
            forall|i: int| 0 <= i < v@.len() ==> self.timings_map().contains_key((#[trigger] v@[i]).0@)
                && self.timings_map()[v@[i].0@] == *v@[i].1,
            forall|i: int, j: int| 0 <= i < j < v@.len() ==> (#[trigger] v@[i]).0@ != (#[trigger] v@[j]).0@,
    {
        let mut v: Vec<(&String, &Duration)> = Vec::new();
        let mut i: usize = 0;
        while i < self.timings.len()
            invariant
                i <= self.timings@.len(),
                names_distinct(self.timings@),
                v@.len() == i,
                forall|k: int| 0 <= k < i ==> (#[trigger] v@[k]).0 == &self.timings@[k].0 && v@[k].1 == &self.timings@[k].1,
            decreases self.timings@.len() - i,
        {
            v.push((&self.timings[i].0, &self.timings[i].1));
            i = i + 1;
        }
        proof {
            let c = self.timings@;
            assert forall|k: int| 0 <= k < v@.len() implies self.timings_map().contains_key((#[trigger] v@[k]).0@)
                && self.timings_map()[v@[k].0@] == *v@[k].1 by {
                lemma_to_map_lookup(c, c[k].0@);
                let p = position(c, c[k].0@)->Some_0;
                if p != k {
                    assert(c[p].0@ == c[k].0@);
                }
            }
            lemma_map_dom_len(c);
        }
        v
    }
}

/// Timing `name` twice adds two clock readings to its total, each of the
/// time passed since an instant read from the clock, saturating at the
/// longest duration; when nothing saturates the total grows by their sum.
pub proof fn law_timings_add_up(p0: SystemProfiler, p1: SystemProfiler, p2: SystemProfiler, name: Seq<char>)
    requires
        added_clock_time(p0, p1, name),
        added_clock_time(p1, p2, name),
    ensures
        exists|s1: Instant, d1: Duration, s2: Instant, d2: Duration|
            #![trigger clock_elapsed(s1, d1), clock_elapsed(s2, d2)]
            {
                &&& clock_reading(s1) && clock_elapsed(s1, d1)
                &&& clock_reading(s2) && clock_elapsed(s2, d2)
                &&& p2.timing_nanos(name) == saturating_total(saturating_total(p0.timing_nanos(name) as int, d1), d2)
                &&& p0.timing_nanos(name) + duration_nanos(d1) + duration_nanos(d2) <= max_duration_nanos() ==> p2.timing_nanos(
                    name,
                ) == p0.timing_nanos(name) + duration_nanos(d1) + duration_nanos(d2)
            },
{
    let (s1, d1) = choose|start: Instant, d: Duration|
        #![trigger clock_elapsed(start, d)]
        clock_reading(start) && clock_elapsed(start, d) && p1.timing_nanos(name) == saturating_total(
            p0.timing_nanos(name) as int,
            d,
        );
    let (s2, d2) = choose|start: Instant, d: Duration|
        #![trigger clock_elapsed(start, d)]
        clock_reading(start) && clock_elapsed(start, d) && p2.timing_nanos(name) == saturating_total(
            p1.timing_nanos(name) as int,
            d,
        );
    assert(clock_elapsed(s1, d1) && clock_elapsed(s2, d2));
}

/// The total of a system timed for the first time is the clock's reading of
/// the time it took, saturated at the longest duration: nothing is carried
/// over from before.
pub proof fn law_first_timing_is_clock_reading(p0: SystemProfiler, p1: SystemProfiler, name: Seq<char>)
    requires
        !p0.timings_map().contains_key(name),
        added_clock_time(p0, p1, name),
    ensures
        exists|s: Instant, d: Duration|
            #![trigger clock_elapsed(s, d)]
            clock_reading(s) && clock_elapsed(s, d) && p1.timing_nanos(name) == (if duration_nanos(d)
                <= max_duration_nanos() {
                duration_nanos(d) as int
            } else {
                max_duration_nanos()
            }),
{
    let (s, d) = choose|start: Instant, d: Duration|
        #![trigger clock_elapsed(start, d)]
        clock_reading(start) && clock_elapsed(start, d) && p1.timing_nanos(name) == saturating_total(
            p0.timing_nanos(name) as int,
            d,
        );
    assert(clock_elapsed(s, d));
}

} // verus!
