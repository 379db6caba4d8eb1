//! Per-tick relation data: a buffer of related entity pairs and the
//! spatial hash that emits them.
pub mod accelerator_slots;
pub mod relation;
pub mod spatial_hash;
