//! Metrics: rolling averages, named counters and timings.
pub mod counter;
pub mod frame_timer;
pub mod ring_buffer;
pub mod system_profiler;
