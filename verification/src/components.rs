//! The components this library attaches to entities, and the event it reports.

use emerald::{Entity, Transform};
use vstd::prelude::*;

verus! {

/// Link from a child to the entity it is placed relative to.
///
/// `entity` is a key into the world's entities, not an owner: the entity it
/// names may have been destroyed. `offset` places the child in the space of
/// `entity`.
#[derive(Clone, Copy, Debug)]
pub struct Parent {
    pub entity: Entity,
    pub offset: Transform,
}

/// Name under which other entities of one scene may refer to this entity
/// before handles exist. Consumed when the scene's links are resolved.
pub struct TempId {
    pub name: String,
}

/// Parent link given by name. Consumed when the scene's links are resolved.
pub struct TempParent {
    pub parent: String,
    pub offset: Transform,
}

/// One resolved link: `child` was given `parent` as its parent.
#[derive(Clone, Copy, Debug)]
pub struct OnParentHookContext {
    pub parent: Entity,
    pub child: Entity,
}

} // verus!
