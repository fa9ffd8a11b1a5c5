//! Remapping of parent links after two worlds were merged and the entities of
//! one of them were given new handles.

use crate::components::Parent;
use crate::ecs::{parent_of, retarget_parent, same_entity, scene, Scene};
use emerald::{Entity, World};
use vstd::prelude::*;

verus! {

/// The new handle of the first pair of `pairs`, from index `from` on, whose
/// old handle is `old`.
pub open spec fn mapped_from(pairs: Seq<(Entity, Entity)>, old: Entity, from: int) -> Option<Entity>
    decreases pairs.len() - from,
{
    if from < 0 || from >= pairs.len() {
        None
    } else if pairs[from].0 == old {
        Some(pairs[from].1)
    } else {
        mapped_from(pairs, old, from + 1)
    }
}

/// The new handle that `pairs` gives for `old`, if it gives one.
pub open spec fn mapped(pairs: Seq<(Entity, Entity)>, old: Entity) -> Option<Entity> {
    mapped_from(pairs, old, 0)
}

/// `parents` after the link of `child`, if it has one and if its target has a
/// new handle, was set to that handle.
pub open spec fn remap_one(
    parents: Map<Entity, Parent>,
    pairs: Seq<(Entity, Entity)>,
    child: Entity,
) -> Map<Entity, Parent> {
    if parents.contains_key(child) && mapped(pairs, parents[child].entity) is Some {
        parents.insert(
            child,
            Parent {
                entity: mapped(pairs, parents[child].entity).unwrap(),
                offset: parents[child].offset,
            },
        )
    } else {
        parents
    }
}

/// `parents` after the new handles of the first `n` pairs were visited in
/// turn.
pub open spec fn remapped_upto(
    parents: Map<Entity, Parent>,
    pairs: Seq<(Entity, Entity)>,
    n: int,
) -> Map<Entity, Parent>
    decreases n,
{
    if n <= 0 {
        parents
    } else {
        remap_one(remapped_upto(parents, pairs, n - 1), pairs, pairs[n - 1].1)
    }
}

/// `parents` after the new handle of every pair was visited in turn.
pub open spec fn remapped(parents: Map<Entity, Parent>, pairs: Seq<(Entity, Entity)>) -> Map<
    Entity,
    Parent,
> {
    remapped_upto(parents, pairs, pairs.len() as int)
}

/// Whether `entity` is the new handle of one of the first `n` pairs.
pub open spec fn is_new_among(pairs: Seq<(Entity, Entity)>, entity: Entity, n: int) -> bool {
    exists|i: int| 0 <= i < n && i < pairs.len() && (#[trigger] pairs[i]).1 == entity
}

/// Whether `entity` is the new handle of a pair.
pub open spec fn is_new(pairs: Seq<(Entity, Entity)>, entity: Entity) -> bool {
    is_new_among(pairs, entity, pairs.len() as int)
}

/// Whether no two pairs share their new handle.
pub open spec fn new_handles_differ(pairs: Seq<(Entity, Entity)>) -> bool {
    forall|i: int, j: int|
        0 <= i < j < pairs.len() ==> (#[trigger] pairs[i]).1 != (#[trigger] pairs[j]).1
}

/// Whether no new handle is also an old one.
pub open spec fn new_handles_are_fresh(pairs: Seq<(Entity, Entity)>) -> bool {
    forall|i: int, j: int|
        0 <= i < pairs.len() && 0 <= j < pairs.len() ==> (#[trigger] pairs[i]).1 != (
        #[trigger] pairs[j]).0
}

/// What `mapped_from` finds is the new handle of a pair at or after `from`
/// with `old` as its old handle, and it finds nothing only where there is no
/// such pair.
pub proof fn lemma_mapped_from(pairs: Seq<(Entity, Entity)>, old: Entity, from: int)
    requires
        0 <= from,
    ensures
        match mapped_from(pairs, old, from) {
            Some(new) => exists|i: int|
                from <= i < pairs.len() && (#[trigger] pairs[i]).0 == old && pairs[i].1 == new,
            None => forall|i: int| from <= i < pairs.len() ==> (#[trigger] pairs[i]).0 != old,
        },
    decreases pairs.len() - from,
{
    if from < pairs.len() {
        if pairs[from].0 == old {
            assert(pairs[from].1 == mapped_from(pairs, old, from).unwrap());
        } else {
            lemma_mapped_from(pairs, old, from + 1);
        }
    }
}

/// Remapping adds no link, removes none and changes no offset, and it leaves
/// alone every entity whose handle is not a new one.
pub proof fn lemma_remap_keeps_shape(
    parents: Map<Entity, Parent>,
    pairs: Seq<(Entity, Entity)>,
    n: int,
)
    requires
        n <= pairs.len(),
    ensures
        remapped_upto(parents, pairs, n).dom() == parents.dom(),
        forall|e: Entity| #[trigger]
            parents.contains_key(e) ==> remapped_upto(parents, pairs, n)[e].offset
                == parents[e].offset,
        forall|e: Entity|
            parents.contains_key(e) && !is_new_among(pairs, e, n) ==> #[trigger] remapped_upto(
                parents,
                pairs,
                n,
            )[e] == parents[e],
    decreases n,
{
    if n > 0 {
        lemma_remap_keeps_shape(parents, pairs, n - 1);
        let earlier = remapped_upto(parents, pairs, n - 1);
        let child = pairs[n - 1].1;
        assert(remapped_upto(parents, pairs, n).dom() =~= parents.dom());
        assert forall|e: Entity|
            parents.contains_key(e) && !is_new_among(pairs, e, n) implies #[trigger] remapped_upto(
            parents,
            pairs,
            n,
        )[e] == parents[e] by {
            assert(e != child) by {
                if e == child {
                    assert(pairs[n - 1].1 == e);
                }
            }
            assert(!is_new_among(pairs, e, n - 1)) by {
                if is_new_among(pairs, e, n - 1) {
                    let i = choose|i: int|
                        0 <= i < n - 1 && i < pairs.len() && (#[trigger] pairs[i]).1 == e;
                    assert(pairs[i].1 == e);
                }
            }
        }
    }
}

/// Where no two pairs share their new handle, each link is remapped at most
/// once: the link of an entity with a new handle is the link it had, its
/// target replaced by the target's new handle where it has one.
pub proof fn lemma_remap_once(parents: Map<Entity, Parent>, pairs: Seq<(Entity, Entity)>, n: int)
    requires
        n <= pairs.len(),
        new_handles_differ(pairs),
    ensures
        forall|e: Entity|
            parents.contains_key(e) && is_new_among(pairs, e, n) ==> #[trigger] remapped_upto(
                parents,
                pairs,
                n,
            )[e] == remap_one(parents, pairs, e)[e],
    decreases n,
{
    if n > 0 {
        lemma_remap_once(parents, pairs, n - 1);
        lemma_remap_keeps_shape(parents, pairs, n - 1);
        let earlier = remapped_upto(parents, pairs, n - 1);
        let child = pairs[n - 1].1;
        assert forall|e: Entity|
            parents.contains_key(e) && is_new_among(pairs, e, n) implies #[trigger] remapped_upto(
            parents,
            pairs,
            n,
        )[e] == remap_one(parents, pairs, e)[e] by {
            if e == child {
                assert(!is_new_among(pairs, e, n - 1)) by {
                    if is_new_among(pairs, e, n - 1) {
                        let i = choose|i: int|
                            0 <= i < n - 1 && i < pairs.len() && (#[trigger] pairs[i]).1 == e;
                        assert(pairs[i].1 != pairs[n - 1].1);
                    }
                }
                assert(earlier.dom().contains(e));
                assert(earlier[e] == parents[e]);
            } else {
                let i = choose|i: int|
                    0 <= i < n && i < pairs.len() && (#[trigger] pairs[i]).1 == e;
                assert(i < n - 1);
                assert(is_new_among(pairs, e, n - 1));
            }
        }
    }
}

/// After a merge that gave every entity a new handle of its own, an entity
/// with a new handle whose parent has the new handle `target` has `target` as
/// its parent, at the offset it had; one whose parent has no new handle has
/// the parent it had.
pub proof fn lemma_merge_remaps_target(
    parents: Map<Entity, Parent>,
    pairs: Seq<(Entity, Entity)>,
    child: Entity,
)
    requires
        new_handles_differ(pairs),
        is_new(pairs, child),
        parents.contains_key(child),
    ensures
        remapped(parents, pairs).contains_key(child),
        match mapped(pairs, parents[child].entity) {
            Some(target) => remapped(parents, pairs)[child] == (Parent {
                entity: target,
                offset: parents[child].offset,
            }),
            None => remapped(parents, pairs)[child] == parents[child],
        },
{
    lemma_remap_once(parents, pairs, pairs.len() as int);
    lemma_remap_keeps_shape(parents, pairs, pairs.len() as int);
    assert(remapped(parents, pairs).dom().contains(child));
}

/// A second remapping with the same pairs changes nothing, where every entity
/// was given a new handle of its own and no new handle is also an old one.
pub proof fn lemma_second_merge_changes_nothing(
    parents: Map<Entity, Parent>,
    pairs: Seq<(Entity, Entity)>,
)
    requires
        new_handles_differ(pairs),
        new_handles_are_fresh(pairs),
    ensures
        remapped(remapped(parents, pairs), pairs) == remapped(parents, pairs),
{
    let n = pairs.len() as int;
    let once = remapped(parents, pairs);
    let twice = remapped(once, pairs);
    lemma_remap_keeps_shape(parents, pairs, n);
    lemma_remap_once(parents, pairs, n);
    lemma_remap_keeps_shape(once, pairs, n);
    lemma_remap_once(once, pairs, n);
    assert forall|e: Entity| #[trigger] once.contains_key(e) implies twice[e] == once[e] by {
        assert(parents.dom().contains(e));
        if is_new_among(pairs, e, n) {
            assert(twice[e] == remap_one(once, pairs, e)[e]);
            assert(once[e] == remap_one(parents, pairs, e)[e]);
            lemma_mapped_from(pairs, parents[e].entity, 0);
            lemma_mapped_from(pairs, once[e].entity, 0);
            if mapped(pairs, once[e].entity) is Some {
                let j = choose|j: int|
                    0 <= j < pairs.len() && (#[trigger] pairs[j]).0 == once[e].entity;
                if mapped(pairs, parents[e].entity) is Some {
                    let i = choose|i: int|
                        0 <= i < pairs.len() && (#[trigger] pairs[i]).0 == parents[e].entity
                            && pairs[i].1 == mapped(pairs, parents[e].entity).unwrap();
                    assert(pairs[i].1 != pairs[j].0);
                }
            }
        }
    }
    assert(twice.dom() =~= once.dom());
    assert(twice =~= once);
}

/// The new handle that `entity_map` gives for `old`: that of the first pair
/// with `old` as its old handle.
pub fn new_handle(entity_map: &Vec<(Entity, Entity)>, old: Entity) -> (found: Option<Entity>)
    ensures
        found == mapped(entity_map@, old),
{
    let mut i: usize = 0;
    while i < entity_map.len()
        invariant
            i <= entity_map.len(),
            mapped(entity_map@, old) == mapped_from(entity_map@, old, i as int),
        decreases entity_map.len() - i,
    {
        if same_entity(entity_map[i].0, old) {
            return Some(entity_map[i].1);
        }
        i += 1;
    }
    None
}

/// Rewrites the parent links of a merged world to the new handles.
///
/// `entity_map` pairs each old handle with the new one. For each pair in
/// turn, the entity with the new handle is looked at: where it has a `Parent`
/// whose target has a new handle, the target is set to it. A link whose
/// target has none is left as it is, and no offset changes.
pub fn on_world_merge(new_world: &mut World, entity_map: &Vec<(Entity, Entity)>)
    ensures
        scene(*final(new_world)) =~= (Scene {
            parents: remapped(scene(*old(new_world)).parents, entity_map@),
            ..scene(*old(new_world))
        }),
{
    let ghost before = scene(*new_world);
    let mut k: usize = 0;
    while k < entity_map.len()
        invariant
            k <= entity_map.len(),
            scene(*new_world) =~= (Scene {
                parents: remapped_upto(before.parents, entity_map@, k as int),
                ..before
            }),
        decreases entity_map.len() - k,
    {
        let child = entity_map[k].1;
        match parent_of(new_world, child) {
            Some(link) => {
                match new_handle(entity_map, link.entity) {
                    Some(target) => {
                        retarget_parent(new_world, child, target);
                    },
                    None => {},
                }
            },
            None => {},
        }
        k += 1;
    }
}

} // verus!
