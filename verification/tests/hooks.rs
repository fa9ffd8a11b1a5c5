use emerald::{Entity, Transform, World};
use transform_hierarchy::{
    add_on_parented_hook, component_key, hook_calls, init, on_world_load, Hierarchy,
    OnParentHookContext, Registration, TempId, TempParent,
};

type Hook = fn(&mut World, &OnParentHookContext);

/// What the hooks of these tests leave on a child, in the order of the calls.
struct Heard(Vec<u32>);

fn hear(world: &mut World, child: Entity, what: u32) {
    if !world.has::<Heard>(child) {
        world.insert_one(child, Heard(Vec::new())).unwrap();
    }
    world.get::<&mut Heard>(child).unwrap().0.push(what);
}

fn first_hook(world: &mut World, ctx: &OnParentHookContext) {
    hear(world, ctx.child, 1);
}

fn second_hook(world: &mut World, ctx: &OnParentHookContext) {
    hear(world, ctx.child, 2);
}

fn run(module: &Hierarchy<Hook>, world: &mut World) {
    let events = on_world_load(world);
    for call in hook_calls(module, &events) {
        let hook = module.hook(call.hook).unwrap();
        hook(world, &call.event);
    }
}

#[test]
fn init_twice_registers_everything_once() {
    let mut module: Hierarchy<Hook> = Hierarchy::new();
    assert!(!module.is_initted());

    let first = init(&mut module);
    assert_eq!(
        first,
        vec![
            Registration::WorldLoadHook,
            Registration::WorldMergeHandler,
            Registration::TempIdComponent,
            Registration::TempParentComponent,
        ]
    );
    assert!(module.is_initted());

    let second = init(&mut module);
    assert!(second.is_empty());
    assert!(module.is_initted());
    let third = init(&mut module);
    assert!(third.is_empty());
}

#[test]
fn init_keeps_registered_hooks() {
    let mut module: Hierarchy<Hook> = Hierarchy::new();
    add_on_parented_hook(&mut module, first_hook as Hook);
    init(&mut module);
    assert_eq!(module.hook_count(), 1);
    add_on_parented_hook(&mut module, second_hook as Hook);
    init(&mut module);
    assert_eq!(module.hook_count(), 2);
}

#[test]
fn component_keys_are_those_of_the_scene_format() {
    assert_eq!(component_key(Registration::TempIdComponent), Some("parent_id"));
    assert_eq!(component_key(Registration::TempParentComponent), Some("parent"));
    assert_eq!(component_key(Registration::WorldLoadHook), None);
    assert_eq!(component_key(Registration::WorldMergeHandler), None);
}

#[test]
fn hooks_are_kept_in_order_of_registration() {
    let mut module: Hierarchy<u32> = Hierarchy::new();
    assert_eq!(module.hook_count(), 0);
    assert_eq!(module.hook(0), None);
    add_on_parented_hook(&mut module, 7);
    add_on_parented_hook(&mut module, 5);
    add_on_parented_hook(&mut module, 7);
    assert_eq!(module.hook_count(), 3);
    assert_eq!(module.hook(0), Some(&7));
    assert_eq!(module.hook(1), Some(&5));
    assert_eq!(module.hook(2), Some(&7));
    assert_eq!(module.hook(3), None);
    assert!(!module.is_initted());
}

#[test]
fn plan_calls_every_hook_for_every_event() {
    let mut world = World::new();
    let a = world.spawn(());
    let b = world.spawn(());
    let c = world.spawn(());
    let mut module: Hierarchy<u32> = Hierarchy::new();
    add_on_parented_hook(&mut module, 10);
    add_on_parented_hook(&mut module, 20);
    let events = vec![
        OnParentHookContext { parent: a, child: b },
        OnParentHookContext { parent: a, child: c },
        OnParentHookContext { parent: b, child: a },
    ];

    let calls = hook_calls(&module, &events);

    assert_eq!(calls.len(), 6);
    let seen: Vec<(usize, Entity, Entity)> =
        calls.iter().map(|call| (call.hook, call.event.parent, call.event.child)).collect();
    assert_eq!(seen, vec![(0, a, b), (1, a, b), (0, a, c), (1, a, c), (0, b, a), (1, b, a)]);
}

#[test]
fn plan_is_empty_without_hooks_or_without_events() {
    let mut world = World::new();
    let a = world.spawn(());
    let b = world.spawn(());
    let events = vec![OnParentHookContext { parent: a, child: b }];
    let none: Hierarchy<u32> = Hierarchy::new();
    assert!(hook_calls(&none, &events).is_empty());

    let mut some: Hierarchy<u32> = Hierarchy::new();
    add_on_parented_hook(&mut some, 1);
    assert!(hook_calls(&some, &Vec::new()).is_empty());
    assert_eq!(hook_calls(&some, &events).len(), 1);
}

#[test]
fn hook_fires_once_per_resolved_link_and_never_for_unresolved() {
    let mut module: Hierarchy<Hook> = Hierarchy::new();
    init(&mut module);
    init(&mut module);
    add_on_parented_hook(&mut module, first_hook as Hook);
    add_on_parented_hook(&mut module, second_hook as Hook);

    let mut world = World::new();
    let root = world.spawn((Transform::default(), TempId { name: "root".to_string() }));
    let child = world.spawn((
        Transform::default(),
        TempParent { parent: "root".to_string(), offset: Transform::default() },
    ));
    let other = world.spawn((
        Transform::default(),
        TempParent { parent: "root".to_string(), offset: Transform::default() },
    ));
    let lost = world.spawn((
        Transform::default(),
        TempParent { parent: "gone".to_string(), offset: Transform::default() },
    ));

    run(&module, &mut world);

    assert_eq!(world.get::<&Heard>(child).unwrap().0, vec![1, 2]);
    assert_eq!(world.get::<&Heard>(other).unwrap().0, vec![1, 2]);
    assert!(!world.has::<Heard>(lost));
    assert!(!world.has::<Heard>(root));

    run(&module, &mut world);
    assert_eq!(world.get::<&Heard>(child).unwrap().0, vec![1, 2]);
}
