//! The boundary with `emerald`: its types, what a world holds as far as this
//! library is concerned, and one wrapper for each call the library makes.
//!
//! Nothing in this file is proved. Each contract restates what the source of
//! `emerald` and of `hecs`, which stores the world's entities, shows of the
//! call in the wrapper's body.
//!
//! `hecs` checks borrows of components while the program runs, and panics
//! where a read meets a live unique borrow. Every wrapper therefore takes the
//! world by exclusive reference, also where it only reads: no borrow of a
//! component is alive then, and the call returns.

use crate::components::{Parent, TempId, TempParent};
use emerald::{Entity, Transform, World};
use vstd::prelude::*;

verus! {

/// `emerald::Entity` (that is, `hecs::Entity`): a handle of an entity, a
/// generation and an index. Two handles are equal when both parts are.
#[verifier::external_type_specification]
#[verifier::external_body]
pub struct ExEntity(emerald::Entity);

/// `emerald::Transform`: translation, rotation and scale of an entity.
#[verifier::external_type_specification]
#[verifier::external_body]
pub struct ExTransform(emerald::Transform);

/// `emerald::World`: the entities and their components.
#[verifier::external_type_specification]
#[verifier::external_body]
pub struct ExWorld(emerald::World);

/// The entities alive in `world`.
pub uninterp spec fn world_entities(world: World) -> Set<Entity>;

/// The `Parent` component of each entity of `world` that has one.
pub uninterp spec fn world_parents(world: World) -> Map<Entity, Parent>;

/// The `Transform` component of each entity of `world` that has one.
pub uninterp spec fn world_transforms(world: World) -> Map<Entity, Transform>;

/// The name in the `TempId` component of each entity of `world` that has one.
pub uninterp spec fn world_temp_ids(world: World) -> Map<Entity, Seq<char>>;

/// The parent's name and the offset in the `TempParent` component of each
/// entity of `world` that has one.
pub uninterp spec fn world_temp_parents(world: World) -> Map<Entity, (Seq<char>, Transform)>;

/// What `Transform + Transform` returns. `emerald` adds translation, rotation
/// and scale field by field, in single-precision floating point; the sum
/// depends on the two transforms and on nothing else.
pub uninterp spec fn transform_sum(parent: Transform, offset: Transform) -> Transform;

/// The part of a world that this library reads and writes.
#[verifier::ext_equal]
pub struct Scene {
    pub entities: Set<Entity>,
    pub parents: Map<Entity, Parent>,
    pub transforms: Map<Entity, Transform>,
    pub temp_ids: Map<Entity, Seq<char>>,
    pub temp_parents: Map<Entity, (Seq<char>, Transform)>,
}

/// The scene that `world` holds.
pub open spec fn scene(world: World) -> Scene {
    Scene {
        entities: world_entities(world),
        parents: world_parents(world),
        transforms: world_transforms(world),
        temp_ids: world_temp_ids(world),
        temp_parents: world_temp_parents(world),
    }
}

/// Whether every component of `scene` sits on a live entity, as it does in
/// every world.
pub open spec fn coherent(scene: Scene) -> bool {
    &&& forall|e: Entity| #[trigger] scene.parents.contains_key(e) ==> scene.entities.contains(e)
    &&& forall|e: Entity| #[trigger]
        scene.transforms.contains_key(e) ==> scene.entities.contains(e)
    &&& forall|e: Entity| #[trigger] scene.temp_ids.contains_key(e) ==> scene.entities.contains(e)
    &&& forall|e: Entity| #[trigger]
        scene.temp_parents.contains_key(e) ==> scene.entities.contains(e)
}

/// `list` names each key of `table` once, with its value.
pub open spec fn lists<V>(list: Seq<(Entity, V)>, table: Map<Entity, V>) -> bool {
    &&& forall|i: int| 0 <= i < list.len() ==> table.contains_key(#[trigger] list[i].0)
            && table[list[i].0] == list[i].1
    &&& forall|e: Entity| #[trigger]
        table.contains_key(e) ==> exists|i: int| 0 <= i < list.len() && #[trigger] list[i].0 == e
    &&& forall|i: int, j: int|
        0 <= i < j < list.len() ==> #[trigger] list[i].0 != #[trigger] list[j].0
}

/// `Transform::add`, reached through `+`. The sum is named, not computed.
#[verifier::external_body]
pub(crate) fn compose(parent: Transform, offset: Transform) -> (sum: Transform)
    ensures
        sum == transform_sum(parent, offset),
{
    parent + offset
}

/// `Entity::eq`, which `hecs` derives: true exactly for the same handle.
#[verifier::external_body]
pub(crate) fn same_entity(a: Entity, b: Entity) -> (same: bool)
    ensures
        same == (a == b),
{
    a == b
}

/// `World::collect_by::<TempParent>`: the entities that carry a `TempParent`,
/// each once, in no stated order.
#[verifier::external_body]
pub(crate) fn temp_parent_entities(world: &mut World) -> (found: Vec<Entity>)
    ensures
        found@.no_duplicates(),
        forall|e: Entity| #[trigger]
            found@.contains(e) <==> world_temp_parents(*old(world)).contains_key(e),
        scene(*final(world)) == scene(*old(world)),
{
    world.collect_by::<TempParent>()
}

/// `World::remove_one::<TempParent>`: takes the component off `entity` and
/// hands it out, or changes nothing and gives `None` where `entity` has none.
/// Only a live entity has one, and it stays alive without it.
#[verifier::external_body]
pub(crate) fn take_temp_parent(world: &mut World, entity: Entity) -> (taken: Option<TempParent>)
    ensures
        taken is Some <==> world_temp_parents(*old(world)).contains_key(entity),
        taken matches Some(t) ==> (t.parent@, t.offset) == world_temp_parents(*old(world))[entity]
            && world_entities(*old(world)).contains(entity),
        scene(*final(world)) == (Scene {
            temp_parents: world_temp_parents(*old(world)).remove(entity),
            ..scene(*old(world))
        }),
{
    world.remove_one::<TempParent>(entity).ok()
}

/// `World::query::<&TempId>`, walked once: each entity that carries a `TempId`
/// with a copy of its name, each once, in no stated order.
#[verifier::external_body]
pub(crate) fn temp_id_names(world: &mut World) -> (named: Vec<(Entity, String)>)
    ensures
        lists(named@.map_values(|p: (Entity, String)| (p.0, p.1@)), world_temp_ids(*old(world))),
        scene(*final(world)) == scene(*old(world)),
{
    world.query::<&TempId>().iter().map(|(entity, id)| (entity, id.name.clone())).collect()
}

/// `World::remove_one::<TempId>`: takes the component off `entity`, or changes
/// nothing where `entity` has none.
#[verifier::external_body]
pub(crate) fn drop_temp_id(world: &mut World, entity: Entity)
    ensures
        scene(*final(world)) == (Scene {
            temp_ids: world_temp_ids(*old(world)).remove(entity),
            ..scene(*old(world))
        }),
{
    world.remove_one::<TempId>(entity).ok();
}

/// `World::insert_one` with a `Parent`: on a live entity the component is set,
/// in place of one it had; on any other handle nothing changes and the result
/// is `false`.
#[verifier::external_body]
pub(crate) fn attach_parent(world: &mut World, entity: Entity, link: Parent) -> (attached: bool)
    ensures
        attached == world_entities(*old(world)).contains(entity),
        scene(*final(world)) == (if attached {
            Scene { parents: world_parents(*old(world)).insert(entity, link), ..scene(*old(world)) }
        } else {
            scene(*old(world))
        }),
{
    world.insert_one(entity, link).is_ok()
}

/// `World::get::<&Parent>`: a copy of the `Parent` of `entity`, if it has one.
#[verifier::external_body]
pub(crate) fn parent_of(world: &mut World, entity: Entity) -> (link: Option<Parent>)
    ensures
        link == (if world_parents(*old(world)).contains_key(entity) {
            Some(world_parents(*old(world))[entity])
        } else {
            None
        }),
        scene(*final(world)) == scene(*old(world)),
{
    world.get::<&Parent>(entity).ok().map(|link| *link)
}

/// `World::query::<&Parent>`, walked once: each entity that carries a `Parent`
/// with a copy of it, each once, in no stated order.
#[verifier::external_body]
pub(crate) fn parent_links(world: &mut World) -> (links: Vec<(Entity, Parent)>)
    ensures
        lists(links@, world_parents(*old(world))),
        scene(*final(world)) == scene(*old(world)),
{
    world.query::<&Parent>().iter().map(|(entity, link)| (entity, *link)).collect()
}

/// `World::get::<&mut Parent>` and a write to the field `entity`: the `Parent`
/// of `child`, if it has one, now names `target`; its offset stays.
#[verifier::external_body]
pub(crate) fn retarget_parent(world: &mut World, child: Entity, target: Entity)
    ensures
        scene(*final(world)) == (if world_parents(*old(world)).contains_key(child) {
            Scene {
                parents: world_parents(*old(world)).insert(
                    child,
                    Parent { entity: target, offset: world_parents(*old(world))[child].offset },
                ),
                ..scene(*old(world))
            }
        } else {
            scene(*old(world))
        }),
{
    if let Ok(mut link) = world.get::<&mut Parent>(child) {
        link.entity = target;
    }
}

/// `World::get::<&Transform>`: a copy of the `Transform` of `entity`, if it
/// has one.
#[verifier::external_body]
pub(crate) fn transform_of(world: &mut World, entity: Entity) -> (placed: Option<Transform>)
    ensures
        placed == (if world_transforms(*old(world)).contains_key(entity) {
            Some(world_transforms(*old(world))[entity])
        } else {
            None
        }),
        scene(*final(world)) == scene(*old(world)),
{
    world.get::<&Transform>(entity).ok().map(|placed| *placed)
}

/// `World::get::<&mut Transform>` and a write through it: the `Transform` of
/// `entity`, if it has one, is now `placed`.
#[verifier::external_body]
pub(crate) fn set_transform(world: &mut World, entity: Entity, placed: Transform)
    ensures
        scene(*final(world)) == (if world_transforms(*old(world)).contains_key(entity) {
            Scene {
                transforms: world_transforms(*old(world)).insert(entity, placed),
                ..scene(*old(world))
            }
        } else {
            scene(*old(world))
        }),
{
    if let Ok(mut current) = world.get::<&mut Transform>(entity) {
        *current = placed;
    }
}

} // verus!
