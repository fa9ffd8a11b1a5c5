//! Transform hierarchy for an `emerald` world: parent links between entities,
//! resolution of links that a scene gives by name, remapping of links when two
//! worlds are merged, and the pass that places every child relative to the
//! root of its chain.

pub mod components;
pub mod ecs;
pub mod hooks;
pub mod merge;
pub mod resolve;
pub mod system;

pub use components::{OnParentHookContext, Parent, TempId, TempParent};
pub use hooks::{
    add_on_parented_hook, component_key, hook_calls, init, Hierarchy, HookCall, Registration,
};
pub use merge::{new_handle, on_world_merge};
pub use resolve::{find_named, get_entity_by_temp_parent_id, on_world_load, resolve_parents};
pub use system::{get_children, hierarchy_system};
