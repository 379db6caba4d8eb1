//! Entity component system: components, entities, archetype storage, systems.
pub mod archetype;
pub mod builder;
pub mod component;
pub mod entity;
pub mod ids;
pub mod storage;
pub mod system_descriptor;
pub mod system_handle;
pub mod system_registration_error;
pub mod system_registry;
pub mod query;
pub mod world;
pub mod keyed_world;
