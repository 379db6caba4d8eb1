//! Paged object pools.
//!
//! A [`PagedPool`] hides a list of fixed-capacity pages behind global row
//! indices and acts like a contiguous array: row `g` lives in page
//! `g / rows_per_page` at local slot `g % rows_per_page`, every page but the
//! last is full, and removal is swap-remove across the whole pool, the last
//! row taking the place of the row removed.
pub mod packed;
pub mod page;
pub mod paged_pool;
pub mod swap_removal;
pub mod sort;

pub use page::Page;
pub use paged_pool::{PagedPool, PoolError};
