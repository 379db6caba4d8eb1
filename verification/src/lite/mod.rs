//! A compact archetype model: archetypes as sorted component sets, a
//! component table keyed by id, row handles, and a world of byte-column
//! storages that reuse freed rows.
pub mod archetype;
pub mod component;
pub mod entity;
pub mod world;
