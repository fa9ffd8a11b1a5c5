//! Resolution of the parent links that a freshly loaded scene gives by name.

use crate::components::{OnParentHookContext, Parent};
use crate::ecs::{
    attach_parent, drop_temp_id, lists, parent_of, scene, take_temp_parent, temp_id_names,
    temp_parent_entities, world_entities, world_parents, world_temp_ids, world_temp_parents,
    world_transforms, Scene,
};
use emerald::{Entity, Transform, World};
use vstd::prelude::*;

verus! {

/// The entity of the first pair of `ids`, from index `from` on, whose name is
/// `name`.
pub open spec fn first_named_from(
    ids: Seq<(Entity, String)>,
    name: Seq<char>,
    from: int,
) -> Option<Entity>
    decreases ids.len() - from,
{
    if from < 0 || from >= ids.len() {
        None
    } else if ids[from].1@ == name {
        Some(ids[from].0)
    } else {
        first_named_from(ids, name, from + 1)
    }
}

/// The entity of the first pair of `ids` whose name is `name`.
pub open spec fn first_named(ids: Seq<(Entity, String)>, name: Seq<char>) -> Option<Entity> {
    first_named_from(ids, name, 0)
}

/// The first entity that `ids` lists under `name`.
pub fn find_named(ids: &Vec<(Entity, String)>, name: &String) -> (found: Option<Entity>)
    ensures
        found == first_named(ids@, name@),
{
    let mut i: usize = 0;
    while i < ids.len()
        invariant
            i <= ids.len(),
            first_named(ids@, name@) == first_named_from(ids@, name@, i as int),
        decreases ids.len() - i,
    {
        if ids[i].1 == *name {
            return Some(ids[i].0);
        }
        i += 1;
    }
    None
}

/// Whether `child` carries a link by name that `ids` resolves.
pub open spec fn resolvable(before: Scene, ids: Seq<(Entity, String)>, child: Entity) -> bool {
    before.temp_parents.contains_key(child) && first_named(
        ids,
        before.temp_parents[child].0,
    ) is Some
}

/// The link that a resolvable `child` is given: to the first entity that
/// `ids` lists under the name it asked for, at the offset it asked for.
pub open spec fn resolved_link(
    before: Scene,
    ids: Seq<(Entity, String)>,
    child: Entity,
) -> Parent {
    Parent {
        entity: first_named(ids, before.temp_parents[child].0).unwrap(),
        offset: before.temp_parents[child].1,
    }
}

/// The parent links after resolution: every link that was there stays as it
/// was, and every resolvable entity without one has its resolved link.
pub open spec fn resolved_parents(before: Scene, ids: Seq<(Entity, String)>) -> Map<
    Entity,
    Parent,
> {
    Map::new(
        |e: Entity| before.parents.contains_key(e) || resolvable(before, ids, e),
        |e: Entity|
            if before.parents.contains_key(e) {
                before.parents[e]
            } else {
                resolved_link(before, ids, e)
            },
    )
}

/// `events` holds one event for each resolvable entity and no other, each
/// with the parent that the entity's name resolved to.
pub open spec fn reports(
    events: Seq<OnParentHookContext>,
    before: Scene,
    ids: Seq<(Entity, String)>,
) -> bool {
    &&& forall|i: int|
        0 <= i < events.len() ==> resolvable(before, ids, #[trigger] events[i].child)
            && events[i].parent == resolved_link(before, ids, events[i].child).entity
    &&& forall|c: Entity| #[trigger]
        resolvable(before, ids, c) ==> exists|i: int|
            0 <= i < events.len() && #[trigger] events[i].child == c
    &&& forall|i: int, j: int|
        0 <= i < j < events.len() ==> #[trigger] events[i].child != #[trigger] events[j].child
}

/// The entities among the first `k` of `children`.
spec fn seen(children: Seq<Entity>, k: int) -> Set<Entity> {
    Set::new(|e: Entity| exists|j: int| 0 <= j < k && #[trigger] children[j] == e)
}

/// `resolved_parents`, with only the entities of `done` resolved.
spec fn resolved_among(
    before: Scene,
    ids: Seq<(Entity, String)>,
    done: Set<Entity>,
) -> Map<Entity, Parent> {
    Map::new(
        |e: Entity|
            before.parents.contains_key(e) || (done.contains(e) && resolvable(before, ids, e)),
        |e: Entity|
            if before.parents.contains_key(e) {
                before.parents[e]
            } else {
                resolved_link(before, ids, e)
            },
    )
}

/// `reports`, with only the entities of `done` reported.
spec fn reports_among(
    events: Seq<OnParentHookContext>,
    before: Scene,
    ids: Seq<(Entity, String)>,
    done: Set<Entity>,
) -> bool {
    &&& forall|i: int|
        0 <= i < events.len() ==> done.contains(#[trigger] events[i].child) && resolvable(
            before,
            ids,
            events[i].child,
        ) && events[i].parent == resolved_link(before, ids, events[i].child).entity
    &&& forall|c: Entity|
        done.contains(c) && #[trigger] resolvable(before, ids, c) ==> exists|i: int|
            0 <= i < events.len() && #[trigger] events[i].child == c
    &&& forall|i: int, j: int|
        0 <= i < j < events.len() ==> #[trigger] events[i].child != #[trigger] events[j].child
}

/// Turns every `TempParent` of `world` into a `Parent`, looking its name up in
/// `ids`, and reports the links made.
///
/// An entity whose name `ids` does not list is left without a link. One that
/// already has a `Parent` keeps it, and is reported all the same. Every
/// `TempParent` is removed.
pub fn resolve_parents(world: &mut World, ids: &Vec<(Entity, String)>) -> (events: Vec<
    OnParentHookContext,
>)
    ensures
        scene(*final(world)) =~= (Scene {
            parents: resolved_parents(scene(*old(world)), ids@),
            temp_parents: Map::empty(),
            ..scene(*old(world))
        }),
        reports(events@, scene(*old(world)), ids@),
{
    let ghost before = scene(*world);
    let children = temp_parent_entities(world);
    let mut events: Vec<OnParentHookContext> = Vec::new();
    let mut k: usize = 0;
    while k < children.len()
        invariant
            k <= children.len(),
            children@.no_duplicates(),
            forall|e: Entity| #[trigger]
                children@.contains(e) <==> before.temp_parents.contains_key(e),
            scene(*world) =~= (Scene {
                parents: resolved_among(before, ids@, seen(children@, k as int)),
                temp_parents: before.temp_parents.remove_keys(seen(children@, k as int)),
                ..before
            }),
            reports_among(events@, before, ids@, seen(children@, k as int)),
        decreases children.len() - k,
    {
        let child = children[k];
        let ghost done = seen(children@, k as int);
        let ghost next = seen(children@, k as int + 1);
        let ghost reported = events@;
        proof {
            assert(children@.contains(child));
            assert(!done.contains(child));
            assert(next =~= done.insert(child));
        }
        match take_temp_parent(world, child) {
            Some(link) => {
                match find_named(ids, &link.parent) {
                    Some(parent) => {
                        events.push(OnParentHookContext { parent, child });
                        if parent_of(world, child).is_none() {
                            attach_parent(
                                world,
                                child,
                                Parent { entity: parent, offset: link.offset },
                            );
                        }
                        proof {
                            assert(resolvable(before, ids@, child));
                            assert(events@[reported.len() as int].child == child);
                            assert forall|c: Entity|
                                next.contains(c) && #[trigger] resolvable(
                                    before,
                                    ids@,
                                    c,
                                ) implies exists|i: int|
                                0 <= i < events@.len() && #[trigger] events@[i].child == c by {
                                if c != child {
                                    let i = choose|i: int|
                                        0 <= i < reported.len() && #[trigger] reported[i].child
                                            == c;
                                    assert(events@[i].child == c);
                                }
                            }
                        }
                    },
                    None => {},
                }
            },
            None => {},
        }
        proof {
            assert(world_parents(*world) =~= resolved_among(before, ids@, next));
            assert(world_temp_parents(*world) =~= before.temp_parents.remove_keys(next));
        }
        k += 1;
    }
    proof {
        assert forall|e: Entity|
            seen(children@, k as int).contains(e) == before.temp_parents.dom().contains(e) by {
            if seen(children@, k as int).contains(e) {
                let j = choose|j: int| 0 <= j < k && #[trigger] children@[j] == e;
                assert(children@[j] == e);
                assert(children@.contains(e));
            }
            if children@.contains(e) {
                let j = choose|j: int| 0 <= j < children@.len() && children@[j] == e;
                assert(children@[j] == e);
            }
        }
        assert(seen(children@, k as int) =~= before.temp_parents.dom());
        assert(resolved_among(before, ids@, before.temp_parents.dom()) =~= resolved_parents(
            before,
            ids@,
        ));
        assert(before.temp_parents.remove_keys(before.temp_parents.dom()) =~= Map::empty());
    }
    events
}

/// Whether `entity` carries a `TempId` with the name `name`.
pub open spec fn holds_name(before: Scene, entity: Entity, name: Seq<char>) -> bool {
    before.temp_ids.contains_key(entity) && before.temp_ids[entity] == name
}

/// Whether `child` asks by name for a parent that some entity answers to.
pub open spec fn has_named_parent(before: Scene, child: Entity) -> bool {
    before.temp_parents.contains_key(child) && exists|p: Entity| #[trigger]
        holds_name(before, p, before.temp_parents[child].0)
}

/// `events` holds one event for each entity whose named parent exists and no
/// other, each with a parent that answers to the name asked for.
pub open spec fn links_made(events: Seq<OnParentHookContext>, before: Scene) -> bool {
    &&& forall|i: int|
        0 <= i < events.len() ==> before.temp_parents.contains_key(#[trigger] events[i].child)
            && holds_name(before, events[i].parent, before.temp_parents[events[i].child].0)
    &&& forall|c: Entity| #[trigger]
        has_named_parent(before, c) ==> exists|i: int|
            0 <= i < events.len() && #[trigger] events[i].child == c
    &&& forall|i: int, j: int|
        0 <= i < j < events.len() ==> #[trigger] events[i].child != #[trigger] events[j].child
}

/// `after` is `before.parents` with the links of `events` added: a link that
/// was there stays as it was, and the child of each event that had none is
/// linked to the event's parent at the offset it asked for.
pub open spec fn linked_as_reported(
    after: Map<Entity, Parent>,
    events: Seq<OnParentHookContext>,
    before: Scene,
) -> bool {
    &&& forall|e: Entity| #[trigger]
        after.contains_key(e) <==> before.parents.contains_key(e) || exists|i: int|
            0 <= i < events.len() && #[trigger] events[i].child == e
    &&& forall|e: Entity| #[trigger]
        before.parents.contains_key(e) ==> after[e] == before.parents[e]
    &&& forall|i: int|
        0 <= i < events.len() && !before.parents.contains_key(#[trigger] events[i].child)
            ==> after[events[i].child] == (Parent {
            entity: events[i].parent,
            offset: before.temp_parents[events[i].child].1,
        })
}

/// What `first_named_from` finds is listed at or after `from` under `name`,
/// and it finds nothing only where nothing is listed there under `name`.
proof fn lemma_first_named_from(ids: Seq<(Entity, String)>, name: Seq<char>, from: int)
    requires
        0 <= from,
    ensures
        match first_named_from(ids, name, from) {
            Some(e) => exists|i: int|
                from <= i < ids.len() && #[trigger] ids[i].0 == e && ids[i].1@ == name,
            None => forall|i: int| from <= i < ids.len() ==> (#[trigger] ids[i]).1@ != name,
        },
    decreases ids.len() - from,
{
    if from < ids.len() {
        if ids[from].1@ == name {
            assert(ids[from].0 == first_named_from(ids, name, from).unwrap());
        } else {
            lemma_first_named_from(ids, name, from + 1);
        }
    }
}

/// Removes the `TempId` of every entity that `ids` lists.
fn clear_temp_ids(world: &mut World, ids: &Vec<(Entity, String)>)
    requires
        lists(ids@.map_values(|p: (Entity, String)| (p.0, p.1@)), world_temp_ids(*old(world))),
    ensures
        scene(*final(world)) =~= (Scene { temp_ids: Map::empty(), ..scene(*old(world)) }),
{
    let ghost before = scene(*world);
    let ghost names = ids@.map_values(|p: (Entity, String)| (p.0, p.1@));
    let mut k: usize = 0;
    while k < ids.len()
        invariant
            k <= ids.len(),
            names == ids@.map_values(|p: (Entity, String)| (p.0, p.1@)),
            lists(names, before.temp_ids),
            scene(*world) =~= (Scene { temp_ids: world_temp_ids(*world), ..before }),
            forall|e: Entity| #[trigger]
                world_temp_ids(*world).contains_key(e) ==> exists|i: int|
                    k <= i < names.len() && #[trigger] names[i].0 == e,
        decreases ids.len() - k,
    {
        let ghost current = world_temp_ids(*world);
        drop_temp_id(world, ids[k].0);
        proof {
            assert(names[k as int].0 == ids@[k as int].0);
            assert forall|e: Entity| #[trigger]
                world_temp_ids(*world).contains_key(e) implies exists|i: int|
                k + 1 <= i < names.len() && #[trigger] names[i].0 == e by {
                assert(current.contains_key(e));
                let i = choose|i: int| k <= i < names.len() && #[trigger] names[i].0 == e;
                assert(names[i].0 == e);
                assert(i != k);
            }
        }
        k += 1;
    }
    assert(world_temp_ids(*world) =~= Map::empty());
}

/// Resolves the links that a freshly loaded world gives by name, and reports
/// them.
///
/// Every `TempParent` whose name some `TempId` of the world carries becomes a
/// `Parent` to an entity of that name, at the offset asked for; an entity that
/// already has a `Parent` keeps it. A name that no entity carries leaves the
/// entity without a link and without an event. Afterwards the world holds no
/// `TempParent` and no `TempId`. Where two entities share a name, which of
/// them becomes the parent is left open.
pub fn on_world_load(world: &mut World) -> (events: Vec<OnParentHookContext>)
    ensures
        links_made(events@, scene(*old(world))),
        linked_as_reported(world_parents(*final(world)), events@, scene(*old(world))),
        world_temp_parents(*final(world)) == Map::<Entity, (Seq<char>, Transform)>::empty(),
        world_temp_ids(*final(world)) == Map::<Entity, Seq<char>>::empty(),
        world_transforms(*final(world)) == world_transforms(*old(world)),
        world_entities(*final(world)) == world_entities(*old(world)),
{
    let ghost before = scene(*world);
    let ids = temp_id_names(world);
    let events = resolve_parents(world, &ids);
    clear_temp_ids(world, &ids);
    proof {
        let names = ids@.map_values(|p: (Entity, String)| (p.0, p.1@));
        assert forall|c: Entity| #[trigger] before.temp_parents.contains_key(c) implies (
        resolvable(before, ids@, c) <==> has_named_parent(before, c)) && (resolvable(
            before,
            ids@,
            c,
        ) ==> holds_name(
            before,
            resolved_link(before, ids@, c).entity,
            before.temp_parents[c].0,
        )) by {
            let name = before.temp_parents[c].0;
            lemma_first_named_from(ids@, name, 0);
            if first_named(ids@, name) is Some {
                let e = first_named(ids@, name).unwrap();
                let i = choose|i: int|
                    0 <= i < ids@.len() && #[trigger] ids@[i].0 == e && ids@[i].1@ == name;
                assert(names[i].0 == e && names[i].1 == name);
                assert(holds_name(before, e, name));
            }
            if has_named_parent(before, c) {
                let p = choose|p: Entity| #[trigger] holds_name(before, p, name);
                let i = choose|i: int| 0 <= i < names.len() && #[trigger] names[i].0 == p;
                assert(names[i].0 == p);
                assert(ids@[i].1@ == name);
            }
        }
        assert forall|c: Entity| #[trigger] has_named_parent(before, c) implies exists|i: int|
            0 <= i < events@.len() && #[trigger] events@[i].child == c by {
            assert(before.temp_parents.contains_key(c));
            assert(resolvable(before, ids@, c));
        }
        assert forall|e: Entity| #[trigger]
            world_parents(*world).contains_key(e) <==> before.parents.contains_key(e)
                || exists|i: int| 0 <= i < events@.len() && #[trigger] events@[i].child == e by {
            if resolvable(before, ids@, e) {
                let i = choose|i: int| 0 <= i < events@.len() && #[trigger] events@[i].child == e;
                assert(events@[i].child == e);
            }
        }
    }
    events
}

/// The entity that carries a `TempId` with the name `id`, if there is one.
///
/// This answers only while the names are there: resolution consumes them.
/// Where two entities share the name, which of them is returned is left open.
/// The world is taken exclusively so that no borrow of a component can be
/// alive during the query; nothing in it changes.
pub fn get_entity_by_temp_parent_id(world: &mut World, id: &str) -> (found: Option<Entity>)
    ensures
        match found {
            Some(e) => holds_name(scene(*old(world)), e, id@),
            None => forall|e: Entity| !holds_name(scene(*old(world)), e, id@),
        },
        scene(*final(world)) == scene(*old(world)),
{
    let ids = temp_id_names(world);
    let name = id.to_owned();
    let found = find_named(&ids, &name);
    proof {
        let names = ids@.map_values(|p: (Entity, String)| (p.0, p.1@));
        lemma_first_named_from(ids@, id@, 0);
        match found {
            Some(e) => {
                let i = choose|i: int|
                    0 <= i < ids@.len() && #[trigger] ids@[i].0 == e && ids@[i].1@ == id@;
                assert(names[i].0 == e && names[i].1 == id@);
            },
            None => {
                assert forall|e: Entity| !holds_name(scene(*world), e, id@) by {
                    if holds_name(scene(*world), e, id@) {
                        let i = choose|i: int| 0 <= i < names.len() && #[trigger] names[i].0 == e;
                        assert(names[i].0 == e);
                        assert(ids@[i].1@ == id@);
                    }
                }
            },
        }
    }
    found
}

} // verus!
