//! Paged, double-buffered archetype storage.
pub mod archetype_storage;
pub mod column;
pub mod plan;
pub mod typed_column;

pub use typed_column::Column;
