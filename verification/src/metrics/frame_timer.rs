//! Frame timing over a window of recent frames.
use vstd::prelude::*;
use std::time::{Duration, Instant};
use crate::clock::{clock_elapsed, clock_reading, duration_nanos, elapsed_since, instant_now, max_duration_nanos};
use crate::metrics::ring_buffer::{RingBuffer, ring_push, sample_count, sum_nanos};

verus! {

/// `after` is `before` with a frame begun: the frame start is an instant
/// read from the clock and the recorded frames are kept.
pub open spec fn began(before: FrameTimer, after: FrameTimer) -> bool {
    &&& after.times() == before.times()
    &&& clock_reading(after.frame_start())
}

/// `after` is `before` with its frame ended: the clock's reading of the time
/// passed since the frame start is pushed into the window of frames, and the
/// frame start is kept.
pub open spec fn ended(before: FrameTimer, after: FrameTimer) -> bool {
    &&& after.times().wf()
    &&& after.times().spec_capacity() == before.times().spec_capacity()
    &&& after.frame_start() == before.frame_start()
    &&& exists|d: Duration|
        clock_elapsed(before.frame_start(), d) && (after.times().samples_view(), after.times().spec_index())
            == #[trigger] ring_push(
            before.times().samples_view(),
            before.times().spec_index(),
            before.times().spec_capacity(),
            d,
        )
}

/// Start of the current frame and the durations of the latest frames.
pub struct FrameTimer {
    frame_start: Instant,
    frame_times: RingBuffer<Duration>,
}

impl FrameTimer {
    /// Durations of the latest frames, oldest slot first.
    pub closed spec fn times(&self) -> RingBuffer<Duration> {
        self.frame_times
    }

    /// Instant at which the current frame began.
    pub closed spec fn frame_start(&self) -> Instant {
        self.frame_start
    }

    /// A timer keeping the latest `capacity` frame durations; the current
    /// frame starts now.
    pub fn new(capacity: usize) -> (t: Self)
        ensures
            t.times().wf(),
            t.times().samples_view() == Seq::<Duration>::empty(),
            t.times().spec_capacity() == capacity,
            clock_reading(t.frame_start()),
    {
        FrameTimer { frame_start: instant_now(), frame_times: RingBuffer::new(capacity) }
    }

    /// Start a frame now: the frame start becomes the instant the clock
    /// reads.
    pub fn begin(&mut self)
        ensures
            final(self).times() == old(self).times(),
            clock_reading(final(self).frame_start()),
            began(*old(self), *final(self)),
    {
        self.frame_start = instant_now();
    }

    /// End the frame: record the time the clock reads as passed since the
    /// frame began, as [`Self::record_frame`] records it.
    pub fn end(&mut self)
        requires
            old(self).times().wf(),
            old(self).times().spec_capacity() > 0,
        ensures
            final(self).times().wf(),
            final(self).times().spec_capacity() == old(self).times().spec_capacity(),
            final(self).times().samples_view().len() == if old(self).times().samples_view().len() < old(
                self,
            ).times().spec_capacity() {
                old(self).times().samples_view().len() + 1
            } else {
                old(self).times().samples_view().len()
            },
            exists|d: Duration|
                (final(self).times().samples_view(), final(self).times().spec_index()) == #[trigger] ring_push(
                    old(self).times().samples_view(),
                    old(self).times().spec_index(),
                    old(self).times().spec_capacity(),
                    d,
                ),
            exists|d: Duration|
                clock_elapsed(old(self).frame_start(), d) && (
                final(self).times().samples_view(),
                final(self).times().spec_index(),
            ) == #[trigger] ring_push(
                    old(self).times().samples_view(),
                    old(self).times().spec_index(),
                    old(self).times().spec_capacity(),
                    d,
                ),
            final(self).frame_start() == old(self).frame_start(),
            ended(*old(self), *final(self)),
    {
        let elapsed = elapsed_since(&self.frame_start);
        self.record_frame(elapsed);
    }

    /// Record a frame that took `elapsed`: appended while the window has
    /// room, else written over the oldest frame.
    pub fn record_frame(&mut self, elapsed: Duration)
        requires
            old(self).times().wf(),
            old(self).times().spec_capacity() > 0,
        ensures
            final(self).times().wf(),
            final(self).times().spec_capacity() == old(self).times().spec_capacity(),
            (final(self).times().samples_view(), final(self).times().spec_index()) == ring_push(
                old(self).times().samples_view(),
                old(self).times().spec_index(),
                old(self).times().spec_capacity(),
                elapsed,
            ),
            final(self).frame_start() == old(self).frame_start(),
    {
        self.frame_times.push(elapsed);
    }

    /// Mean duration of the recorded frames (zero when none).
    pub fn average_frame_time(&self) -> (d: Duration)
        requires
            sum_nanos(self.times().samples_view()) <= max_duration_nanos(),
            self.times().samples_view().len() == 0 || sample_count(self.times().samples_view().len()) > 0,
        ensures
            duration_nanos(d) == if self.times().samples_view().len() == 0 {
                0
            } else {
                sum_nanos(self.times().samples_view()) / (sample_count(self.times().samples_view().len()) as int)
            },
    {
        self.frame_times.average()
    }

    /// Whether [`Self::average_frame_time`] may be called: the recorded
    /// frames add up to at most the longest duration and their count, as a
    /// 32-bit number, is not 0 unless there is none.
    pub fn average_fits(&self) -> (b: bool)
        ensures
            b == (sum_nanos(self.times().samples_view()) <= max_duration_nanos() && (self.times().samples_view().len() == 0
                || sample_count(self.times().samples_view().len()) > 0)),
    {
        self.frame_times.average_fits()
    }

    /// Shortest and longest recorded frame durations.
    pub fn frame_time_range(&self) -> (r: (Duration, Duration))
        ensures
            self.times().samples_view().len() == 0 ==> duration_nanos(r.0) == 0 && duration_nanos(r.1) == 0,
            self.times().samples_view().len() > 0 ==> {
                &&& self.times().samples_view().contains(r.0)
                &&& self.times().samples_view().contains(r.1)
                &&& forall|i: int| 0 <= i < self.times().samples_view().len() ==> duration_nanos(r.0) <= duration_nanos(
                    #[trigger] self.times().samples_view()[i],
                ) && duration_nanos(self.times().samples_view()[i]) <= duration_nanos(r.1)
            },
    {
        self.frame_times.min_max()
    }
}

/// A frame begun and then ended records exactly one new frame: the clock's
/// reading of the time passed since an instant read from the clock when the
/// frame began, pushed onto the frames recorded before it began.
pub proof fn law_frame_is_time_since_begin(t0: FrameTimer, t1: FrameTimer, t2: FrameTimer)
    requires
        began(t0, t1),
        ended(t1, t2),
    ensures
        exists|s: Instant, d: Duration|
            #![trigger clock_elapsed(s, d)]
            clock_reading(s) && s == t1.frame_start() && clock_elapsed(s, d) && (
                t2.times().samples_view(),
                t2.times().spec_index(),
            ) == ring_push(t0.times().samples_view(), t0.times().spec_index(), t0.times().spec_capacity(), d),
{
    let d = choose|d: Duration|
        clock_elapsed(t1.frame_start(), d) && (t2.times().samples_view(), t2.times().spec_index()) == #[trigger] ring_push(
            t1.times().samples_view(),
            t1.times().spec_index(),
            t1.times().spec_capacity(),
            d,
        );
    assert(clock_elapsed(t1.frame_start(), d));
}

/// Ending a frame writes the clock's reading of the time since the frame
/// start into one slot, the next free one while there is room and else the
/// oldest one, and keeps every other recorded frame.
pub proof fn law_ended_frame_is_clock_reading(t1: FrameTimer, t2: FrameTimer)
    requires
        t1.times().wf(),
        t1.times().spec_capacity() > 0,
        ended(t1, t2),
    ensures
        ({
            let n = t1.times().samples_view().len();
            let pos = if n < t1.times().spec_capacity() { n as int } else { t1.times().spec_index() as int };
            &&& t2.times().samples_view().len() == if n < t1.times().spec_capacity() { n + 1 } else { n }
            &&& 0 <= pos < t2.times().samples_view().len()
            &&& clock_elapsed(t1.frame_start(), t2.times().samples_view()[pos])
            &&& forall|k: int|
                0 <= k < t2.times().samples_view().len() && k != pos ==> #[trigger] t2.times().samples_view()[k]
                    == t1.times().samples_view()[k]
        }),
{
    let d = choose|d: Duration|
        clock_elapsed(t1.frame_start(), d) && (t2.times().samples_view(), t2.times().spec_index()) == #[trigger] ring_push(
            t1.times().samples_view(),
            t1.times().spec_index(),
            t1.times().spec_capacity(),
            d,
        );
    let n = t1.times().samples_view().len();
    let pos = if n < t1.times().spec_capacity() { n as int } else { t1.times().spec_index() as int };
    assert(t2.times().samples_view()[pos] == d);
}

/// The first frame of an empty timer, begun and ended, is its only recorded
/// frame, and it is the clock's reading of the time since the frame began.
pub proof fn law_first_frame_is_time_since_begin(t0: FrameTimer, t1: FrameTimer, t2: FrameTimer)
    requires
        t0.times().wf(),
        t0.times().spec_capacity() > 0,
        t0.times().samples_view().len() == 0,
        began(t0, t1),
        ended(t1, t2),
    ensures
        t2.times().samples_view().len() == 1,
        clock_elapsed(t1.frame_start(), t2.times().samples_view()[0]),
{
    law_ended_frame_is_clock_reading(t1, t2);
}

} // verus!
