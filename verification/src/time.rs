//! Deterministic simulation time: a fixed 60 Hz tick.
use vstd::prelude::*;
use std::time::Duration;
use crate::clock::{duration_checked_add, duration_from_nanos, duration_nanos, max_duration_nanos};

verus! {

/// Simulation ticks per second.
pub const TICK_RATE_HZ: u32 = 60;

/// Length of one tick in nanoseconds (16 666 microseconds).
pub const TICK_NANOS: u64 = 16_666_000;

/// Length of one tick.
pub fn tick_duration() -> (d: Duration)
    ensures
        duration_nanos(d) == TICK_NANOS,
{
    duration_from_nanos(TICK_NANOS as u128)
}

/// Count of ticks simulated and the simulated time they add up to.
pub struct SimulationTime {
    tick_count: u64,
    accumulated_time: Duration,
}

impl SimulationTime {
    pub closed spec fn ticks(&self) -> u64 {
        self.tick_count
    }

    pub closed spec fn time(&self) -> Duration {
        self.accumulated_time
    }

    /// Every tick lasted one tick length.
    pub open spec fn wf(&self) -> bool {
        duration_nanos(self.time()) == self.ticks() * TICK_NANOS
    }

    /// No tick yet.
    pub fn new() -> (t: Self)
        ensures
            t.wf(),
            t.ticks() == 0,
    {
        SimulationTime { tick_count: 0, accumulated_time: duration_from_nanos(0) }
    }

    pub fn tick_count(&self) -> (n: u64)
        ensures
            n == self.ticks(),
    {
        self.tick_count
    }

    /// One more tick. Excluded: a tick count or time that would overflow.
    pub fn advance_tick(&mut self)
        requires
            old(self).wf(),
            old(self).ticks() < u64::MAX,
            (old(self).ticks() + 1) * TICK_NANOS <= max_duration_nanos(),
        ensures
            final(self).wf(),
            final(self).ticks() == old(self).ticks() + 1,
    {
        self.tick_count = self.tick_count + 1;
        proof {
            assert((self.tick_count as int - 1) * TICK_NANOS + TICK_NANOS == self.tick_count * TICK_NANOS) by (nonlinear_arith);
        }
        match duration_checked_add(self.accumulated_time, tick_duration()) {
            Some(t) => {
                self.accumulated_time = t;
            },
            None => {},
        }
    }

    /// Simulated time so far: the tick count times the tick length.
    pub fn total_time(&self) -> (d: Duration)
        requires
            self.wf(),
        ensures
            d == self.time(),
            duration_nanos(d) == self.ticks() * TICK_NANOS,
    {
        self.accumulated_time
    }
}

/// The simulated time after any number of ticks is that many tick lengths.
pub proof fn law_time_is_ticks_times_tick_length(t: SimulationTime)
    requires
        t.wf(),
    ensures
        duration_nanos(t.time()) == t.ticks() as int * 16_666_000,
{
}

/// Starting from `new` (no tick) and advancing one tick at a time, the
/// state after `n` ticks counts `n` ticks and `n` tick lengths of time.
pub proof fn law_time_after_ticks(ts: Seq<SimulationTime>)
    requires
        ts.len() > 0,
        ts[0].wf(),
        ts[0].ticks() == 0,
        forall|i: int| 0 <= i < ts.len() - 1 ==> (#[trigger] ts[i + 1]).wf() && ts[i + 1].ticks() == ts[i].ticks() + 1,
    ensures
        forall|i: int| 0 <= i < ts.len() ==> (#[trigger] ts[i]).ticks() == i && duration_nanos(ts[i].time()) == i * TICK_NANOS,
    decreases ts.len(),
{
    if ts.len() > 1 {
        let p = ts.drop_last();
        assert forall|i: int| 0 <= i < p.len() - 1 implies (#[trigger] p[i + 1]).wf() && p[i + 1].ticks() == p[i].ticks() + 1 by {
            assert(p[i + 1] == ts[i + 1] && p[i] == ts[i]);
        }
        law_time_after_ticks(p);
        assert forall|i: int| 0 <= i < ts.len() implies (#[trigger] ts[i]).ticks() == i && duration_nanos(ts[i].time()) == i
            * TICK_NANOS by {
            if i < p.len() {
                assert(p[i] == ts[i]);
            } else {
                assert(p[i - 1] == ts[i - 1]);
                assert(ts[i - 1 + 1] == ts[i]);
            }
        }
    }
}

} // verus!
