//! Why a system could not be registered.
use vstd::prelude::*;
use crate::ecs::component::ComponentId;
use crate::ecs::system_handle::SystemHandle;

verus! {

/// Errors that can occur while registering a system.
#[derive(Clone, Debug, PartialEq, Eq)]
pub enum SystemRegistrationError {
    /// A system of that name is already registered.
    DuplicateName { name: String },
    /// The system touches no component.
    EmptyAccess { name: String },
    /// Another registered system already writes `component`.
    ComponentWriteConflict {
        component: ComponentId,
        existing: String,
        requested: String,
        existing_handle: SystemHandle,
    },
}

} // verus!
