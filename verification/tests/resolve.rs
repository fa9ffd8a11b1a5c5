use emerald::{Entity, Transform, World};
use transform_hierarchy::{
    find_named, get_children, get_entity_by_temp_parent_id, hierarchy_system, on_world_load,
    resolve_parents, Parent, TempId, TempParent,
};

fn temp_id(name: &str) -> TempId {
    TempId { name: name.to_string() }
}

fn temp_parent(parent: &str, x: f32, y: f32) -> TempParent {
    TempParent { parent: parent.to_string(), offset: Transform::from_translation((x, y)) }
}

fn parent_of(world: &World, entity: Entity) -> Option<Parent> {
    world.get::<&Parent>(entity).ok().map(|link| *link)
}

#[test]
fn resolution_links_child_to_named_entity() {
    let mut world = World::new();
    let a = world.spawn((Transform::default(), temp_id("root")));
    let b = world.spawn((Transform::default(), temp_parent("root", 3.0, 4.0)));

    let events = on_world_load(&mut world);

    let link = parent_of(&world, b).unwrap();
    assert_eq!(link.entity, a);
    assert_eq!(link.offset.translation.x, 3.0);
    assert_eq!(link.offset.translation.y, 4.0);
    assert_eq!(link.offset.rotation, 0.0);
    assert_eq!(link.offset.scale.x, 1.0);
    assert_eq!(link.offset.scale.y, 1.0);
    assert!(parent_of(&world, a).is_none());
    assert!(!world.has::<TempId>(a));
    assert!(!world.has::<TempId>(b));
    assert!(!world.has::<TempParent>(a));
    assert!(!world.has::<TempParent>(b));
    assert_eq!(events.len(), 1);
    assert_eq!(events[0].parent, a);
    assert_eq!(events[0].child, b);
}

#[test]
fn unresolved_reference_leaves_entity_a_root() {
    let mut world = World::new();
    let a = world.spawn((Transform::from_translation((5.0, 6.0)), temp_id("root")));
    let b = world.spawn((Transform::from_translation((7.0, 8.0)), temp_parent("nobody", 1.0, 1.0)));

    let events = on_world_load(&mut world);

    assert!(events.is_empty());
    assert!(parent_of(&world, b).is_none());
    assert!(!world.has::<TempParent>(b));
    assert!(!world.has::<TempId>(a));
    assert_eq!(world.count(), 2);

    hierarchy_system(&mut world);
    let placed = *world.get::<&Transform>(b).unwrap();
    assert_eq!(placed.translation.x, 7.0);
    assert_eq!(placed.translation.y, 8.0);
}

#[test]
fn loaded_scene_places_child_relative_to_root() {
    let mut world = World::new();
    let root = world.spawn((Transform::default(), temp_id("root")));
    let child = world.spawn((Transform::default(), temp_parent("root", 1.0, 0.0)));

    on_world_load(&mut world);
    *world.get::<&mut Transform>(root).unwrap() = Transform::from_translation((10.0, 10.0));
    hierarchy_system(&mut world);

    let placed = *world.get::<&Transform>(child).unwrap();
    assert_eq!(placed.translation.x, 11.0);
    assert_eq!(placed.translation.y, 10.0);
    let kept = *world.get::<&Transform>(root).unwrap();
    assert_eq!(kept.translation.x, 10.0);
    assert_eq!(kept.translation.y, 10.0);
}

#[test]
fn existing_parent_is_kept_and_still_reported() {
    let mut world = World::new();
    let first = world.spawn((Transform::default(),));
    let named = world.spawn((Transform::default(), temp_id("root")));
    let child = world.spawn((
        Transform::default(),
        Parent { entity: first, offset: Transform::from_translation((9.0, 9.0)) },
        temp_parent("root", 1.0, 2.0),
    ));

    let events = on_world_load(&mut world);

    let link = parent_of(&world, child).unwrap();
    assert_eq!(link.entity, first);
    assert_eq!(link.offset.translation.x, 9.0);
    assert_eq!(link.offset.translation.y, 9.0);
    assert!(!world.has::<TempParent>(child));
    assert_eq!(events.len(), 1);
    assert_eq!(events[0].parent, named);
    assert_eq!(events[0].child, child);
}

#[test]
fn several_children_resolve_each_once() {
    let mut world = World::new();
    let root = world.spawn((Transform::default(), temp_id("root")));
    let arm = world.spawn((Transform::default(), temp_id("arm"), temp_parent("root", 1.0, 0.0)));
    let hand = world.spawn((Transform::default(), temp_parent("arm", 0.0, 2.0)));
    let lost = world.spawn((Transform::default(), temp_parent("leg", 0.0, 3.0)));
    let plain = world.spawn((Transform::default(),));

    let events = on_world_load(&mut world);

    assert_eq!(events.len(), 2);
    let for_arm: Vec<_> = events.iter().filter(|e| e.child == arm).collect();
    let for_hand: Vec<_> = events.iter().filter(|e| e.child == hand).collect();
    assert_eq!(for_arm.len(), 1);
    assert_eq!(for_hand.len(), 1);
    assert_eq!(for_arm[0].parent, root);
    assert_eq!(for_hand[0].parent, arm);
    assert_eq!(parent_of(&world, arm).unwrap().entity, root);
    assert_eq!(parent_of(&world, hand).unwrap().entity, arm);
    assert_eq!(parent_of(&world, hand).unwrap().offset.translation.y, 2.0);
    assert!(parent_of(&world, lost).is_none());
    assert!(parent_of(&world, plain).is_none());
    assert!(parent_of(&world, root).is_none());
    assert!(world.collect_by::<TempId>().is_empty());
    assert!(world.collect_by::<TempParent>().is_empty());
    assert_eq!(world.collect_by::<Transform>().len(), 5);
}

#[test]
fn shared_name_resolves_to_one_of_its_holders() {
    let mut world = World::new();
    let one = world.spawn((temp_id("twin"),));
    let two = world.spawn((Transform::default(), temp_id("twin")));
    let child = world.spawn((temp_parent("twin", 0.0, 0.0),));

    let events = on_world_load(&mut world);

    let link = parent_of(&world, child).unwrap();
    assert!(link.entity == one || link.entity == two);
    assert_eq!(events.len(), 1);
    assert_eq!(events[0].parent, link.entity);
}

#[test]
fn empty_world_resolves_to_nothing() {
    let mut world = World::new();
    let events = on_world_load(&mut world);
    assert!(events.is_empty());
    assert_eq!(world.count(), 0);
}

#[test]
fn resolve_parents_takes_first_listed_name() {
    let mut world = World::new();
    let one = world.spawn((Transform::default(),));
    let two = world.spawn((Transform::default(),));
    let child = world.spawn((temp_parent("twin", 2.0, 5.0),));
    let other = world.spawn((temp_parent("none", 0.0, 0.0),));
    let ids = vec![(two, "twin".to_string()), (one, "twin".to_string()), (one, "one".to_string())];

    let events = resolve_parents(&mut world, &ids);

    assert_eq!(events.len(), 1);
    assert_eq!(events[0].parent, two);
    assert_eq!(events[0].child, child);
    let link = parent_of(&world, child).unwrap();
    assert_eq!(link.entity, two);
    assert_eq!(link.offset.translation.x, 2.0);
    assert_eq!(link.offset.translation.y, 5.0);
    assert!(parent_of(&world, other).is_none());
    assert!(world.collect_by::<TempParent>().is_empty());
}

#[test]
fn resolve_parents_keeps_temp_ids() {
    let mut world = World::new();
    let root = world.spawn((temp_id("root"),));
    let child = world.spawn((temp_parent("root", 0.0, 0.0),));
    let ids = vec![(root, "root".to_string())];

    resolve_parents(&mut world, &ids);

    assert!(world.has::<TempId>(root));
    assert_eq!(parent_of(&world, child).unwrap().entity, root);
}

#[test]
fn find_named_gives_first_match() {
    let mut world = World::new();
    let a = world.spawn(());
    let b = world.spawn(());
    let c = world.spawn(());
    let ids = vec![(a, "x".to_string()), (b, "y".to_string()), (c, "y".to_string())];

    assert_eq!(find_named(&ids, &"x".to_string()), Some(a));
    assert_eq!(find_named(&ids, &"y".to_string()), Some(b));
    assert_eq!(find_named(&ids, &"z".to_string()), None);
    assert_eq!(find_named(&ids, &"".to_string()), None);
    assert_eq!(find_named(&Vec::new(), &"x".to_string()), None);
}

#[test]
fn name_lookup_is_exact_and_ends_with_resolution() {
    let mut world = World::new();
    let root = world.spawn((temp_id("root"),));
    let other = world.spawn((temp_id("Root"),));
    world.spawn((Transform::default(),));

    assert_eq!(get_entity_by_temp_parent_id(&mut world, "root"), Some(root));
    assert_eq!(get_entity_by_temp_parent_id(&mut world, "Root"), Some(other));
    assert_eq!(get_entity_by_temp_parent_id(&mut world, "roo"), None);
    assert_eq!(get_entity_by_temp_parent_id(&mut world, "root "), None);
    assert_eq!(get_entity_by_temp_parent_id(&mut world, ""), None);

    on_world_load(&mut world);

    assert_eq!(get_entity_by_temp_parent_id(&mut world, "root"), None);
    assert_eq!(get_entity_by_temp_parent_id(&mut world, "Root"), None);
}

#[test]
fn children_of_resolved_parent_are_listed() {
    let mut world = World::new();
    let root = world.spawn((temp_id("root"),));
    let a = world.spawn((temp_parent("root", 1.0, 0.0),));
    let b = world.spawn((Transform::default(), temp_parent("root", 2.0, 0.0)));
    let c = world.spawn((temp_parent("elsewhere", 3.0, 0.0),));

    on_world_load(&mut world);

    let mut children = get_children(&mut world, root);
    children.sort();
    let mut expected = vec![a, b];
    expected.sort();
    assert_eq!(children, expected);
    assert!(get_children(&mut world, a).is_empty());
    assert!(get_children(&mut world, c).is_empty());
}
