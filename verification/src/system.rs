//! The pass that places every child relative to the root of its chain, and
//! the query for an entity's children.

use crate::components::Parent;
use crate::ecs::{
    coherent, compose, lists, parent_links, parent_of, same_entity, scene, set_transform, transform_of,
    transform_sum, world_parents, world_transforms, Scene,
};
use emerald::{Entity, Transform, World};
use vstd::prelude::*;

verus! {

/// Where the chain of links from `ancestor` ends, and `relative` carried up to
/// there: each link on the way puts its offset in front of what was gathered
/// below it. At most `fuel` links are followed; a chain that is longer, as one
/// that runs in a circle, has no end.
pub open spec fn chain_end(
    parents: Map<Entity, Parent>,
    ancestor: Entity,
    relative: Transform,
    fuel: nat,
) -> Option<(Entity, Transform)>
    decreases fuel,
{
    if !parents.contains_key(ancestor) {
        Some((ancestor, relative))
    } else if fuel == 0 {
        None
    } else {
        chain_end(
            parents,
            parents[ancestor].entity,
            transform_sum(parents[ancestor].offset, relative),
            (fuel - 1) as nat,
        )
    }
}

/// The absolute transform that the links of `before` give `child`: the
/// transform of the root of its chain, with the offsets down to `child`
/// applied. There is none where `child` has no parent, where its chain has no
/// end within as many links as the scene has, or where the entity at the end
/// has no transform.
pub open spec fn absolute(before: Scene, child: Entity) -> Option<Transform> {
    if before.parents.contains_key(child) {
        match chain_end(
            before.parents,
            before.parents[child].entity,
            before.parents[child].offset,
            before.parents.len(),
        ) {
            Some((root, relative)) => if before.transforms.contains_key(root) {
                Some(transform_sum(before.transforms[root], relative))
            } else {
                None
            },
            None => None,
        }
    } else {
        None
    }
}

/// The transforms after the pass: each entity that has an absolute transform
/// is given it, and every other transform stays as it was.
pub open spec fn placed(before: Scene) -> Map<Entity, Transform> {
    Map::new(
        |e: Entity| before.transforms.contains_key(e),
        |e: Entity|
            match absolute(before, e) {
                Some(t) => t,
                None => before.transforms[e],
            },
    )
}

/// `placed`, with only the first `k` entities of `links` given their place.
spec fn placed_upto(before: Scene, links: Seq<(Entity, Parent)>, k: int) -> Map<
    Entity,
    Transform,
> {
    Map::new(
        |e: Entity| before.transforms.contains_key(e),
        |e: Entity|
            if exists|j: int| 0 <= j < k && #[trigger] links[j].0 == e {
                match absolute(before, e) {
                    Some(t) => t,
                    None => before.transforms[e],
                }
            } else {
                before.transforms[e]
            },
    )
}

/// A chain ends at an entity without a parent.
pub proof fn lemma_chain_ends_at_root(
    parents: Map<Entity, Parent>,
    ancestor: Entity,
    relative: Transform,
    fuel: nat,
)
    ensures
        chain_end(parents, ancestor, relative, fuel) matches Some((root, _))
            ==> !parents.contains_key(root),
    decreases fuel,
{
    if parents.contains_key(ancestor) && fuel > 0 {
        lemma_chain_ends_at_root(
            parents,
            parents[ancestor].entity,
            transform_sum(parents[ancestor].offset, relative),
            (fuel - 1) as nat,
        );
    }
}

/// Fuel that is enough stays enough: a chain that ends within `fuel` links
/// ends at the same entity, with the same transform gathered, within any
/// larger number of links.
pub proof fn lemma_chain_end_with_more_fuel(
    parents: Map<Entity, Parent>,
    ancestor: Entity,
    relative: Transform,
    fuel: nat,
    more: nat,
)
    requires
        chain_end(parents, ancestor, relative, fuel) is Some,
        fuel <= more,
    ensures
        chain_end(parents, ancestor, relative, more) == chain_end(
            parents,
            ancestor,
            relative,
            fuel,
        ),
    decreases fuel,
{
    if parents.contains_key(ancestor) {
        lemma_chain_end_with_more_fuel(
            parents,
            parents[ancestor].entity,
            transform_sum(parents[ancestor].offset, relative),
            (fuel - 1) as nat,
            (more - 1) as nat,
        );
    }
}

/// The number of links from `ancestor` to the end of its chain, where the
/// chain ends within `fuel` links.
spec fn chain_len(parents: Map<Entity, Parent>, ancestor: Entity, fuel: nat) -> Option<nat>
    decreases fuel,
{
    if !parents.contains_key(ancestor) {
        Some(0)
    } else if fuel == 0 {
        None
    } else {
        match chain_len(parents, parents[ancestor].entity, (fuel - 1) as nat) {
            Some(n) => Some(n + 1),
            None => None,
        }
    }
}

/// The entity `k` links above `ancestor`.
spec fn ancestor_at(parents: Map<Entity, Parent>, ancestor: Entity, k: nat) -> Entity
    decreases k,
{
    if k == 0 {
        ancestor
    } else {
        ancestor_at(parents, parents[ancestor].entity, (k - 1) as nat)
    }
}

/// A chain has as many links as it needs fuel: no more than it was given,
/// and the same number with any more.
proof fn lemma_chain_len_fuel(parents: Map<Entity, Parent>, ancestor: Entity, fuel: nat, more: nat)
    requires
        chain_len(parents, ancestor, fuel) is Some,
        fuel <= more,
    ensures
        chain_len(parents, ancestor, fuel).unwrap() <= fuel,
        chain_len(parents, ancestor, more) == chain_len(parents, ancestor, fuel),
    decreases fuel,
{
    if parents.contains_key(ancestor) {
        lemma_chain_len_fuel(
            parents,
            parents[ancestor].entity,
            (fuel - 1) as nat,
            (more - 1) as nat,
        );
    }
}

/// A chain of `n` links ends with exactly `n` links of fuel, and a chain ends
/// for `chain_end` exactly where it has a length.
proof fn lemma_chain_len_is_enough(
    parents: Map<Entity, Parent>,
    ancestor: Entity,
    relative: Transform,
    fuel: nat,
)
    ensures
        chain_end(parents, ancestor, relative, fuel) is Some <==> chain_len(
            parents,
            ancestor,
            fuel,
        ) is Some,
        chain_len(parents, ancestor, fuel) matches Some(n) ==> chain_end(
            parents,
            ancestor,
            relative,
            n,
        ) is Some,
    decreases fuel,
{
    if parents.contains_key(ancestor) && fuel > 0 {
        lemma_chain_len_is_enough(
            parents,
            parents[ancestor].entity,
            transform_sum(parents[ancestor].offset, relative),
            (fuel - 1) as nat,
        );
    }
}

/// From the entity `k` links up a chain of `n` links, `n - k` links are left,
/// and every entity before the end has a parent.
proof fn lemma_chain_len_above(
    parents: Map<Entity, Parent>,
    ancestor: Entity,
    fuel: nat,
    k: nat,
)
    requires
        chain_len(parents, ancestor, fuel) is Some,
        k <= chain_len(parents, ancestor, fuel).unwrap(),
    ensures
        chain_len(parents, ancestor_at(parents, ancestor, k), fuel) == Some(
            (chain_len(parents, ancestor, fuel).unwrap() - k) as nat,
        ),
        k < chain_len(parents, ancestor, fuel).unwrap() ==> parents.contains_key(
            ancestor_at(parents, ancestor, k),
        ),
    decreases k,
{
    if k > 0 {
        let next = parents[ancestor].entity;
        lemma_chain_len_above(parents, next, (fuel - 1) as nat, (k - 1) as nat);
        lemma_chain_len_fuel(
            parents,
            ancestor_at(parents, next, (k - 1) as nat),
            (fuel - 1) as nat,
            fuel,
        );
    }
}

/// A chain that ends has no more links than the scene has.
proof fn lemma_chain_len_bound(parents: Map<Entity, Parent>, ancestor: Entity, fuel: nat)
    requires
        parents.dom().finite(),
        chain_len(parents, ancestor, fuel) is Some,
    ensures
        chain_len(parents, ancestor, fuel).unwrap() <= parents.len(),
{
    let n = chain_len(parents, ancestor, fuel).unwrap();
    let path = Seq::new(n, |k: int| ancestor_at(parents, ancestor, k as nat));
    assert forall|i: int, j: int|
        0 <= i < path.len() && 0 <= j < path.len() && i != j implies path[i] != path[j] by {
        lemma_chain_len_above(parents, ancestor, fuel, i as nat);
        lemma_chain_len_above(parents, ancestor, fuel, j as nat);
    }
    assert forall|e: Entity| path.to_set().contains(e) implies parents.dom().contains(e) by {
        let k = choose|k: int| 0 <= k < path.len() && path[k] == e;
        lemma_chain_len_above(parents, ancestor, fuel, k as nat);
    }
    path.unique_seq_to_set();
    vstd::set_lib::lemma_len_subset(path.to_set(), parents.dom());
}

/// As many links as the scene has are enough fuel for every chain that ends
/// at all: only a chain that runs in a circle has no end within them.
pub proof fn lemma_scene_has_enough_fuel(
    parents: Map<Entity, Parent>,
    ancestor: Entity,
    relative: Transform,
    fuel: nat,
)
    requires
        parents.dom().finite(),
        chain_end(parents, ancestor, relative, fuel) is Some,
    ensures
        chain_end(parents, ancestor, relative, parents.len()) == chain_end(
            parents,
            ancestor,
            relative,
            fuel,
        ),
{
    lemma_chain_len_is_enough(parents, ancestor, relative, fuel);
    let n = chain_len(parents, ancestor, fuel).unwrap();
    lemma_chain_len_fuel(parents, ancestor, fuel, fuel);
    lemma_chain_len_bound(parents, ancestor, fuel);
    lemma_chain_end_with_more_fuel(parents, ancestor, relative, n, fuel);
    lemma_chain_end_with_more_fuel(parents, ancestor, relative, n, parents.len());
}

/// The child of a root is placed at the root's transform with the child's
/// offset applied.
pub proof fn lemma_child_of_root(before: Scene, child: Entity)
    requires
        before.transforms.contains_key(child),
        before.parents.contains_key(child),
        !before.parents.contains_key(before.parents[child].entity),
        before.transforms.contains_key(before.parents[child].entity),
    ensures
        placed(before)[child] == transform_sum(
            before.transforms[before.parents[child].entity],
            before.parents[child].offset,
        ),
{
}

/// The child of a child of a root is placed at the root's transform with the
/// two offsets applied, the nearer to the root first. Nothing here depends on
/// the place that the pass gives the entity in between.
pub proof fn lemma_grandchild_of_root(before: Scene, grandchild: Entity)
    requires
        before.parents.dom().finite(),
        before.transforms.contains_key(grandchild),
        before.parents.contains_key(grandchild),
        before.parents.contains_key(before.parents[grandchild].entity),
        !before.parents.contains_key(before.parents[before.parents[grandchild].entity].entity),
        before.transforms.contains_key(before.parents[before.parents[grandchild].entity].entity),
    ensures
        placed(before)[grandchild] == transform_sum(
            before.transforms[before.parents[before.parents[grandchild].entity].entity],
            transform_sum(
                before.parents[before.parents[grandchild].entity].offset,
                before.parents[grandchild].offset,
            ),
        ),
{
    let link = before.parents[grandchild];
    let middle = before.parents[link.entity];
    assert(before.parents.dom().contains(grandchild));
    assert(before.parents.len() >= 1);
    assert(chain_end(before.parents, link.entity, link.offset, before.parents.len()) == chain_end(
        before.parents,
        middle.entity,
        transform_sum(middle.offset, link.offset),
        (before.parents.len() - 1) as nat,
    ));
}

/// An entity whose parent has neither a `Parent` nor a `Transform`, as a
/// destroyed entity has not, keeps its transform.
pub proof fn lemma_orphan_keeps_transform(before: Scene, orphan: Entity)
    requires
        before.transforms.contains_key(orphan),
        before.parents.contains_key(orphan),
        !before.parents.contains_key(before.parents[orphan].entity),
        !before.transforms.contains_key(before.parents[orphan].entity),
    ensures
        absolute(before, orphan) is None,
        placed(before)[orphan] == before.transforms[orphan],
{
}

/// An entity whose parent was destroyed keeps its transform, pass after
/// pass.
pub proof fn lemma_child_of_destroyed_parent_is_stable(before: Scene, orphan: Entity)
    requires
        coherent(before),
        before.transforms.contains_key(orphan),
        before.parents.contains_key(orphan),
        !before.entities.contains(before.parents[orphan].entity),
    ensures
        placed(before)[orphan] == before.transforms[orphan],
        placed(Scene { transforms: placed(before), ..before })[orphan] == before.transforms[orphan],
{
    lemma_orphan_keeps_transform(before, orphan);
    lemma_second_pass_changes_nothing(before);
}

/// A second pass changes nothing: the pass moves no root and no link, so it
/// finds what the first pass found.
pub proof fn lemma_second_pass_changes_nothing(before: Scene)
    ensures
        placed(Scene { transforms: placed(before), ..before }) == placed(before),
{
    let after = Scene { transforms: placed(before), ..before };
    assert forall|e: Entity| #[trigger]
        before.transforms.contains_key(e) implies placed(after)[e] == placed(before)[e] by {
        if before.parents.contains_key(e) {
            let link = before.parents[e];
            lemma_chain_ends_at_root(
                before.parents,
                link.entity,
                link.offset,
                before.parents.len(),
            );
        }
    }
    assert(placed(after) =~= placed(before));
}

/// A list that names each key of `table` once is as long as `table`.
proof fn lemma_lists_len<V>(list: Seq<(Entity, V)>, table: Map<Entity, V>)
    requires
        lists(list, table),
    ensures
        table.dom().finite(),
        table.len() == list.len(),
{
    let keys = list.map_values(|p: (Entity, V)| p.0);
    assert forall|i: int, j: int|
        0 <= i < keys.len() && 0 <= j < keys.len() && i != j implies keys[i] != keys[j] by {
        if i < j {
            assert(list[i].0 != list[j].0);
        } else {
            assert(list[j].0 != list[i].0);
        }
    }
    assert forall|e: Entity| keys.to_set().contains(e) == table.dom().contains(e) by {
        if keys.to_set().contains(e) {
            let i = choose|i: int| 0 <= i < keys.len() && keys[i] == e;
            assert(list[i].0 == e);
        }
        if table.contains_key(e) {
            let i = choose|i: int| 0 <= i < list.len() && #[trigger] list[i].0 == e;
            assert(keys[i] == e);
        }
    }
    assert(keys.to_set() =~= table.dom());
    keys.unique_seq_to_set();
}

/// Follows the links of `world` upward from `link`, at most `limit` of them.
fn find_root(world: &mut World, link: Parent, limit: usize) -> (end: Option<(Entity, Transform)>)
    ensures
        end == chain_end(world_parents(*old(world)), link.entity, link.offset, limit as nat),
        scene(*final(world)) == scene(*old(world)),
{
    let mut relative = link.offset;
    let mut ancestor = link.entity;
    let mut fuel = limit;
    loop
        invariant
            scene(*world) == scene(*old(world)),
            chain_end(world_parents(*world), link.entity, link.offset, limit as nat) == chain_end(
                world_parents(*world),
                ancestor,
                relative,
                fuel as nat,
            ),
        decreases fuel,
    {
        match parent_of(world, ancestor) {
            None => {
                return Some((ancestor, relative));
            },
            Some(next) => {
                if fuel == 0 {
                    return None;
                }
                relative = compose(next.offset, relative);
                ancestor = next.entity;
                fuel -= 1;
            },
        }
    }
}

/// Updates the transform of every entity that has a parent to its place
/// relative to the root of its chain.
///
/// The root is the entity without a `Parent` at which the chain ends. Its
/// transform and the offsets along the chain are read as they were before the
/// pass, so the order in which the entities are visited does not matter. An
/// entity whose chain ends at an entity without a transform, such as one that
/// was destroyed, keeps the transform it had; so does one whose chain runs in
/// a circle.
pub fn hierarchy_system(world: &mut World)
    ensures
        scene(*final(world)) =~= (Scene {
            transforms: placed(scene(*old(world))),
            ..scene(*old(world))
        }),
{
    let ghost before = scene(*world);
    let links = parent_links(world);
    proof {
        lemma_lists_len(links@, before.parents);
    }
    let mut k: usize = 0;
    while k < links.len()
        invariant
            k <= links.len(),
            lists(links@, before.parents),
            before.parents.len() == links.len(),
            scene(*world) =~= (Scene {
                transforms: placed_upto(before, links@, k as int),
                ..before
            }),
        decreases links.len() - k,
    {
        let child = links[k].0;
        let link = links[k].1;
        let ghost current = world_transforms(*world);
        match find_root(world, link, links.len()) {
            Some((root, relative)) => {
                match transform_of(world, root) {
                    Some(base) => {
                        proof {
                            lemma_chain_ends_at_root(
                                before.parents,
                                link.entity,
                                link.offset,
                                links.len() as nat,
                            );
                            assert(!before.parents.contains_key(root));
                            if exists|j: int| 0 <= j < k && #[trigger] links@[j].0 == root {
                                let j = choose|j: int| 0 <= j < k && #[trigger] links@[j].0 == root;
                                assert(before.parents.contains_key(links@[j].0));
                            }
                            assert(base == before.transforms[root]);
                        }
                        set_transform(world, child, compose(base, relative));
                    },
                    None => {},
                }
            },
            None => {},
        }
        proof {
            assert(before.parents.contains_key(links@[k as int].0));
            assert forall|e: Entity| #[trigger]
                before.transforms.contains_key(e) implies world_transforms(*world)[e]
                == placed_upto(before, links@, k as int + 1)[e] by {
                if e == child {
                    assert(links@[k as int].0 == e);
                } else {
                    if exists|j: int| 0 <= j < k + 1 && #[trigger] links@[j].0 == e {
                        let j = choose|j: int| 0 <= j < k + 1 && #[trigger] links@[j].0 == e;
                        assert(j < k);
                        assert(links@[j].0 == e);
                    }
                    assert(world_transforms(*world)[e] == current[e]);
                }
            }
            assert(world_transforms(*world) =~= placed_upto(before, links@, k as int + 1));
        }
        k += 1;
    }
    proof {
        assert forall|e: Entity| #[trigger]
            before.transforms.contains_key(e) implies placed_upto(before, links@, k as int)[e]
            == placed(before)[e] by {
            if before.parents.contains_key(e) {
                let j = choose|j: int| 0 <= j < links@.len() && #[trigger] links@[j].0 == e;
                assert(links@[j].0 == e);
            }
        }
        assert(placed_upto(before, links@, k as int) =~= placed(before));
    }
}

/// The entities of `world` whose `Parent` names `parent_id`, each once, in
/// no stated order. The world is taken exclusively so that no borrow of a
/// component can be alive during the query; nothing in it changes.
pub fn get_children(world: &mut World, parent_id: Entity) -> (children: Vec<Entity>)
    ensures
        children@.no_duplicates(),
        forall|e: Entity| #[trigger]
            children@.contains(e) <==> world_parents(*old(world)).contains_key(e) && world_parents(
                *old(world),
            )[e].entity == parent_id,
        scene(*final(world)) == scene(*old(world)),
{
    let links = parent_links(world);
    let mut children: Vec<Entity> = Vec::new();
    let ghost mut origin: Seq<int> = Seq::empty();
    let mut k: usize = 0;
    while k < links.len()
        invariant
            k <= links.len(),
            lists(links@, world_parents(*world)),
            origin.len() == children@.len(),
            forall|i: int|
                0 <= i < origin.len() ==> 0 <= #[trigger] origin[i] < k && links@[origin[i]].0
                    == children@[i] && links@[origin[i]].1.entity == parent_id,
            forall|j: int|
                0 <= j < k && (#[trigger] links@[j]).1.entity == parent_id ==> children@.contains(
                    links@[j].0,
                ),
            children@.no_duplicates(),
        decreases links.len() - k,
    {
        if same_entity(links[k].1.entity, parent_id) {
            let ghost earlier = children@;
            proof {
                assert forall|i: int| 0 <= i < earlier.len() implies earlier[i] != links@[k as
                    int].0 by {
                    assert(links@[origin[i]].0 != links@[k as int].0);
                }
            }
            children.push(links[k].0);
            proof {
                origin = origin.push(k as int);
                assert(children@[earlier.len() as int] == links@[k as int].0);
                assert forall|j: int|
                    0 <= j < k + 1 && (#[trigger] links@[j]).1.entity
                        == parent_id implies children@.contains(links@[j].0) by {
                    if j < k {
                        let i = choose|i: int| 0 <= i < earlier.len() && earlier[i] == links@[j].0;
                        assert(children@[i] == links@[j].0);
                    }
                }
            }
        }
        k += 1;
    }
    proof {
        assert forall|e: Entity| #[trigger]
            children@.contains(e) <==> world_parents(*world).contains_key(e) && world_parents(
                *world,
            )[e].entity == parent_id by {
            if children@.contains(e) {
                let i = choose|i: int| 0 <= i < children@.len() && children@[i] == e;
                assert(world_parents(*world).contains_key(links@[origin[i]].0));
            }
            if world_parents(*world).contains_key(e) && world_parents(*world)[e].entity
                == parent_id {
                let j = choose|j: int| 0 <= j < links@.len() && #[trigger] links@[j].0 == e;
                assert(links@[j].1.entity == parent_id);
            }
        }
    }
    children
}

} // verus!
