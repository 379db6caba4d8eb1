//! Latch engine core: entities, archetype storage, paged pools and metrics.
use vstd::prelude::*;

pub mod asset;
pub mod clock;
pub mod pool;
pub mod ecs;
pub mod env;
pub mod lite;
pub mod math;
pub mod memory;
pub mod metrics;
pub mod paging;
pub mod net;
pub mod render;
pub mod time;

verus! {

/// Engine version.
pub const VERSION: &'static str = "0.1.0";

} // verus!
