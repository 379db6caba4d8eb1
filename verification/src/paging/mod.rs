//! Fixed-capacity pages with a free list of slot indices.
pub mod page;
