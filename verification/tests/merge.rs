use emerald::{Entity, Transform, World};
use transform_hierarchy::{new_handle, on_world_merge, Parent};

fn link(entity: Entity, x: f32, y: f32) -> Parent {
    Parent { entity, offset: Transform::from_translation((x, y)) }
}

fn parent_of(world: &World, entity: Entity) -> Parent {
    *world.get::<&Parent>(entity).unwrap()
}

/// Handles that stand for entities of the world that was merged in.
fn old_handles(count: usize) -> Vec<Entity> {
    let mut other = World::new();
    for _ in 0..100 {
        other.spawn(());
    }
    (0..count).map(|_| other.spawn(())).collect()
}

#[test]
fn merge_sets_target_to_new_handle() {
    let old = old_handles(2);
    let mut world = World::new();
    let y_new = world.spawn((Transform::default(),));
    let x_new = world.spawn((Transform::default(), link(old[1], 3.0, 4.0)));
    let pairs = vec![(old[0], x_new), (old[1], y_new)];

    on_world_merge(&mut world, &pairs);

    let after = parent_of(&world, x_new);
    assert_eq!(after.entity, y_new);
    assert_eq!(after.offset.translation.x, 3.0);
    assert_eq!(after.offset.translation.y, 4.0);
    assert!(world.get::<&Parent>(y_new).is_err());
}

#[test]
fn merge_leaves_link_to_unmapped_target() {
    let old = old_handles(2);
    let mut world = World::new();
    let outside = world.spawn((Transform::default(),));
    let x_new = world.spawn((link(outside, 3.0, 4.0),));
    let y_new = world.spawn(());
    let pairs = vec![(old[0], x_new), (old[1], y_new)];

    on_world_merge(&mut world, &pairs);

    let after = parent_of(&world, x_new);
    assert_eq!(after.entity, outside);
    assert_eq!(after.offset.translation.x, 3.0);
    assert_eq!(after.offset.translation.y, 4.0);
}

#[test]
fn merge_leaves_entities_without_new_handle() {
    let old = old_handles(2);
    let mut world = World::new();
    let y_new = world.spawn(());
    let native = world.spawn((link(old[1], 1.0, 1.0),));
    let pairs = vec![(old[1], y_new)];

    on_world_merge(&mut world, &pairs);

    assert_eq!(parent_of(&world, native).entity, old[1]);
}

#[test]
fn merge_with_empty_map_changes_nothing() {
    let mut world = World::new();
    let root = world.spawn(());
    let child = world.spawn((link(root, 1.0, 1.0),));

    on_world_merge(&mut world, &Vec::new());

    assert_eq!(parent_of(&world, child).entity, root);
    assert_eq!(world.count(), 2);
}

#[test]
fn merge_twice_is_the_same_as_once() {
    let old = old_handles(3);
    let mut world = World::new();
    let a = world.spawn(());
    let b = world.spawn((link(old[0], 1.0, 0.0),));
    let c = world.spawn((link(old[1], 2.0, 0.0),));
    let pairs = vec![(old[0], a), (old[1], b), (old[2], c)];

    on_world_merge(&mut world, &pairs);
    assert_eq!(parent_of(&world, b).entity, a);
    assert_eq!(parent_of(&world, c).entity, b);
    on_world_merge(&mut world, &pairs);
    assert_eq!(parent_of(&world, b).entity, a);
    assert_eq!(parent_of(&world, c).entity, b);
    assert_eq!(parent_of(&world, c).offset.translation.x, 2.0);
}

#[test]
fn merge_follows_pairs_in_turn_when_a_handle_is_shared() {
    let mut world = World::new();
    let a = world.spawn(());
    let b = world.spawn(());
    let c = world.spawn(());
    let x = world.spawn((link(a, 0.0, 0.0),));
    let pairs = vec![(a, b), (b, c), (x, x), (c, x)];

    on_world_merge(&mut world, &pairs);

    assert_eq!(parent_of(&world, x).entity, c);
}

#[test]
fn new_handle_is_that_of_first_pair() {
    let old = old_handles(3);
    let mut world = World::new();
    let a = world.spawn(());
    let b = world.spawn(());
    let pairs = vec![(old[0], a), (old[1], b), (old[0], b)];

    assert_eq!(new_handle(&pairs, old[0]), Some(a));
    assert_eq!(new_handle(&pairs, old[1]), Some(b));
    assert_eq!(new_handle(&pairs, old[2]), None);
    assert_eq!(new_handle(&pairs, a), None);
    assert_eq!(new_handle(&Vec::new(), a), None);
}
