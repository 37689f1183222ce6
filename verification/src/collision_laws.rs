//! What holds of the collisions that the queries report.
use vstd::prelude::*;
use crate::collision::{
    is_first_hit_pairing, is_pairing, pair_collides, reports, Collider, OnCollision,
};
use crate::static_quadtree::StaticQuadTree;
use crate::tree_laws::lemma_home_node_overlaps;

verus! {

/// Every event of the two-group query reports two different entities, the
/// first of the first group and the second of the second, whose rectangles
/// intersect.
pub proof fn lemma_events_are_collisions(
    tree: StaticQuadTree,
    group_a: Seq<Collider>,
    group_b: Seq<Collider>,
    events: Seq<OnCollision>,
    pairs: Seq<(int, int)>,
    k: int,
)
    requires
        is_pairing(tree, group_a, group_b, events, pairs),
        0 <= k < events.len(),
    ensures
        events[k].entity_a != events[k].entity_b,
        exists|i: int, j: int|
            0 <= i < group_a.len() && 0 <= j < group_b.len() && events[k].entity_a == (
            #[trigger] group_a[i]).entity && events[k].entity_b == (#[trigger] group_b[j]).entity
                && group_a[i].rect().intersects(group_b[j].rect()),
{
    assert(reports(tree, group_a, group_b, events[k], pairs[k]));
    let i = pairs[k].0;
    let j = pairs[k].1;
    assert(events[k].entity_a == group_a[i].entity && events[k].entity_b == group_b[j].entity
        && group_a[i].rect().intersects(group_b[j].rect()));
}

/// The two-group query misses no collision inside the play area: for two
/// different entities, one of each group, whose rectangles have a point in
/// common that lies in the play area, there is an event.
pub proof fn lemma_collision_inside_play_area_is_reported(
    tree: StaticQuadTree,
    group_a: Seq<Collider>,
    group_b: Seq<Collider>,
    events: Seq<OnCollision>,
    pairs: Seq<(int, int)>,
    i: int,
    j: int,
    x: int,
    y: int,
)
    requires
        tree.wf(),
        is_pairing(tree, group_a, group_b, events, pairs),
        0 <= i < group_a.len(),
        0 <= j < group_b.len(),
        group_a[i].entity != group_b[j].entity,
        group_a[i].rect().contains_point(x, y),
        group_b[j].rect().contains_point(x, y),
        tree@[0].bounds.contains_point(x, y),
    ensures
        exists|k: int|
            0 <= k < events.len() && (#[trigger] events[k]).entity_a == group_a[i].entity
                && events[k].entity_b == group_b[j].entity,
{
    lemma_home_node_overlaps(tree, group_a[i].rect(), group_b[j].rect(), x, y);
    assert(pair_collides(tree, group_a, group_b, i, j));
    assert(pairs.contains((i, j)));
    let k = choose|k: int| 0 <= k < pairs.len() && pairs[k] == (i, j);
    assert(reports(tree, group_a, group_b, events[k], pairs[k]));
}

/// No pair of colliders is reported twice by the two-group query: two
/// different events stand for two different pairs.
pub proof fn lemma_no_pair_reported_twice(
    tree: StaticQuadTree,
    group_a: Seq<Collider>,
    group_b: Seq<Collider>,
    events: Seq<OnCollision>,
    pairs: Seq<(int, int)>,
    k1: int,
    k2: int,
)
    requires
        is_pairing(tree, group_a, group_b, events, pairs),
        0 <= k1 < k2 < events.len(),
    ensures
        pairs[k1] != pairs[k2],
{
}

/// The one-group query reports at most one collision for each collider, and
/// one for each collider that has a partner at all.
pub proof fn lemma_one_collision_per_entity(
    tree: StaticQuadTree,
    group: Seq<Collider>,
    events: Seq<OnCollision>,
    pairs: Seq<(int, int)>,
    k1: int,
    k2: int,
)
    requires
        is_first_hit_pairing(tree, group, events, pairs, group.len() as int),
        0 <= k1 < events.len(),
        0 <= k2 < events.len(),
        pairs[k1].0 == pairs[k2].0,
    ensures
        k1 == k2,
{
    if k1 < k2 {
        assert(pairs[k1].0 < pairs[k2].0);
    }
    if k2 < k1 {
        assert(pairs[k2].0 < pairs[k1].0);
    }
}

} // verus!
