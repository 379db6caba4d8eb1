use std::time::Duration;

use latch::metrics::counter::Counter;
use latch::metrics::frame_timer::FrameTimer;
use latch::metrics::ring_buffer::RingBuffer;
use latch::metrics::system_profiler::SystemProfiler;
use latch::VERSION;

#[test]
fn version_is_set() {
    assert!(!VERSION.is_empty());
}

#[test]
fn test_compiles_without_metrics() {
    let mut _timer = FrameTimer::new(60);
    let mut _buffer = RingBuffer::<f64>::new(10);
    let mut _counter = Counter::new();
    let mut _profiler = SystemProfiler::new();
}

#[test]
fn test_ring_buffer() {
    let mut buffer = RingBuffer::new(3);

    buffer.push(Duration::from_millis(10));
    assert_eq!(buffer.average(), Duration::from_millis(10));

    buffer.push(Duration::from_millis(20));
    assert_eq!(buffer.average(), Duration::from_millis(15));

    buffer.push(Duration::from_millis(30));
    assert_eq!(buffer.average(), Duration::from_millis(20));

    buffer.push(Duration::from_millis(40));
    assert_eq!(buffer.average(), Duration::from_millis(30));
}

#[test]
fn ring_buffer_keeps_latest_samples_only() {
    let mut buffer = RingBuffer::new(2);
    assert!(buffer.is_empty());
    assert_eq!(buffer.average(), Duration::ZERO);
    assert_eq!(buffer.min_max(), (Duration::ZERO, Duration::ZERO));
    buffer.push(Duration::from_millis(5));
    buffer.push(Duration::from_millis(1));
    buffer.push(Duration::from_millis(9));
    assert_eq!(buffer.len(), 2);
    assert_eq!(buffer.min_max(), (Duration::from_millis(1), Duration::from_millis(9)));
    assert_eq!(buffer.average(), Duration::from_millis(5));
}

#[test]
fn ring_buffer_average_rounds_down_to_the_nanosecond() {
    let mut buffer = RingBuffer::new(3);
    buffer.push(Duration::from_nanos(1));
    buffer.push(Duration::from_nanos(2));
    assert_eq!(buffer.average(), Duration::from_nanos(1));
}

#[test]
fn counter_increment_then_get() {
    let mut c = Counter::new();
    assert_eq!(c.get("draws"), 0);
    c.increment("draws", 3);
    c.increment("draws", 4);
    c.increment("frames", 1);
    assert_eq!(c.get("draws"), 7);
    assert_eq!(c.get("frames"), 1);
    c.set("frames", 10);
    assert_eq!(c.get("frames"), 10);
    c.reset("draws");
    assert_eq!(c.get("draws"), 0);
    assert_eq!(c.get("frames"), 10);
    assert_eq!(c.iter().len(), 2);
    c.reset_all();
    assert_eq!(c.get("frames"), 0);
}

#[test]
fn profiler_returns_the_result_and_records_a_timing() {
    let mut p = SystemProfiler::new();
    assert_eq!(p.get_timing("physics"), Duration::ZERO);
    let r = p.time_system("physics", || 41 + 1);
    assert_eq!(r, 42);
    assert_eq!(p.iter().len(), 1);
    assert_eq!(p.iter()[0].0, "physics");
    p.reset();
    assert_eq!(p.iter().len(), 0);
    assert_eq!(p.get_timing("physics"), Duration::ZERO);
}

#[test]
fn frame_timer_records_frames() {
    let mut t = FrameTimer::new(4);
    assert_eq!(t.average_frame_time(), Duration::ZERO);
    t.begin();
    t.end();
    t.begin();
    t.end();
    let (lo, hi) = t.frame_time_range();
    assert!(lo <= hi);
    assert!(t.average_frame_time() <= hi);
    assert!(t.average_frame_time() >= lo);
}

#[test]
fn profiler_record_adds_and_saturates() {
    let mut p = SystemProfiler::new();
    p.record("physics", Duration::from_millis(3));
    p.record("physics", Duration::from_millis(4));
    p.record("render", Duration::from_millis(1));
    assert_eq!(p.get_timing("physics"), Duration::from_millis(7));
    assert_eq!(p.get_timing("render"), Duration::from_millis(1));
    p.record("render", Duration::MAX);
    assert_eq!(p.get_timing("render"), Duration::MAX);
    assert_eq!(p.get_timing("audio"), Duration::ZERO);
}

#[test]
fn frame_timer_record_frame_keeps_latest() {
    let mut t = FrameTimer::new(2);
    t.record_frame(Duration::from_millis(10));
    t.record_frame(Duration::from_millis(20));
    t.record_frame(Duration::from_millis(40));
    assert_eq!(t.average_frame_time(), Duration::from_millis(30));
}
