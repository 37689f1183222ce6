//! Collision queries: a broad phase that files entities under quadtree
//! nodes, and a narrow phase that tests bounding boxes within a bucket.
use vstd::prelude::*;
use crate::aabb::AxisAlignedBoundingBox;
use crate::rect2d::Rect2D;
use crate::spatial_index::{bucket_or_empty, Entry, SpatialIndex};
use crate::static_quadtree::StaticQuadTree;
use crate::tree_laws::lemma_home_node_in_tree;
use crate::vector::Vec2;

verus! {

/// An entity as a collision query sees it: its id, where it is, and its
/// bounding box.
#[derive(Clone, Copy, Debug, PartialEq, Eq, Structural)]
pub struct Collider {
    pub entity: u64,
    pub position: Vec2,
    pub bounding_box: AxisAlignedBoundingBox,
}

impl Collider {
    /// The rectangle that the entity covers.
    pub open spec fn rect(self) -> Rect2D {
        self.bounding_box.rect_at(self.position)
    }

    /// What a bucket holds of the entity.
    pub open spec fn entry(self) -> Entry {
        (self.entity, self.rect())
    }

    /// Entity `entity` at `position`, as large as `bounding_box`.
    pub fn new(entity: u64, position: Vec2, bounding_box: AxisAlignedBoundingBox) -> (c: Self)
        ensures
            c.entity == entity,
            c.position == position,
            c.bounding_box == bounding_box,
    {
        Collider { entity, position, bounding_box }
    }

    /// The rectangle that the entity covers.
    pub fn as_rect(&self) -> (r: Rect2D)
        ensures
            r == self.rect(),
    {
        self.bounding_box.as_rect(self.position)
    }
}

/// One detected collision: `entity_a` of the first group and `entity_b` of
/// the second intersect.
#[derive(Clone, Copy, Debug, PartialEq, Eq, Structural)]
pub struct OnCollision {
    pub entity_a: u64,
    pub entity_b: u64,
}

/// The home node of collider `j` of `group`.
pub open spec fn home_of(tree: StaticQuadTree, group: Seq<Collider>, j: int) -> int {
    tree.home_node(group[j].rect())
}

/// The indices below `m` of the colliders of `group` whose home node is
/// `node`, in ascending order.
spec fn home_members(tree: StaticQuadTree, group: Seq<Collider>, node: int, m: nat) -> Seq<
    int,
>
    decreases m,
{
    if m == 0 {
        Seq::empty()
    } else {
        let rest = home_members(tree, group, node, (m - 1) as nat);
        if home_of(tree, group, m - 1) == node {
            rest.push(m - 1)
        } else {
            rest
        }
    }
}

/// The bucket entries of the colliders at `members`.
spec fn entries_of(group: Seq<Collider>, members: Seq<int>) -> Seq<Entry> {
    Seq::new(members.len(), |t: int| group[members[t]].entry())
}

/// `buckets` files each of the first `m` colliders of `group` under its home
/// node and nowhere else, in the order of the group.
spec fn files_by_home(
    tree: StaticQuadTree,
    group: Seq<Collider>,
    buckets: Map<usize, Seq<Entry>>,
    m: nat,
) -> bool {
    forall|node: usize| #[trigger]
        bucket_or_empty(buckets, node) == entries_of(
            group,
            home_members(tree, group, node as int, m),
        )
}

/// What holds of the members of a home bucket: they are indices below `m`
/// with that home node, they ascend, and none is left out.
proof fn lemma_home_members(tree: StaticQuadTree, group: Seq<Collider>, node: int, m: nat)
    ensures
        forall|t: int|
            0 <= t < home_members(tree, group, node, m).len() ==> 0 <= (#[trigger] home_members(
                tree,
                group,
                node,
                m,
            )[t]) < m && home_of(tree, group, home_members(tree, group, node, m)[t]) == node,
        forall|t1: int, t2: int|
            0 <= t1 < t2 < home_members(tree, group, node, m).len() ==> home_members(
                tree,
                group,
                node,
                m,
            )[t1] < home_members(tree, group, node, m)[t2],
        forall|j: int|
            0 <= j < m && #[trigger] home_of(tree, group, j) == node ==> home_members(
                tree,
                group,
                node,
                m,
            ).contains(j),
    decreases m,
{
    if m > 0 {
        let rest = home_members(tree, group, node, (m - 1) as nat);
        let all = home_members(tree, group, node, m);
        lemma_home_members(tree, group, node, (m - 1) as nat);
        assert forall|j: int| 0 <= j < m && #[trigger] home_of(tree, group, j) == node implies all.contains(
            j,
        ) by {
            if j < m - 1 {
                let t = choose|t: int| 0 <= t < rest.len() && rest[t] == j;
                assert(all[t] == j);
            } else {
                assert(all[all.len() - 1] == j);
            }
        }
    }
}

/// Files every collider of `group` under its home node.
fn build_home_index(quad_tree: &StaticQuadTree, group: &Vec<Collider>) -> (spatial_index: SpatialIndex)
    ensures
        files_by_home(*quad_tree, group@, spatial_index@, group@.len()),
{
    let mut spatial_index = SpatialIndex::new();
    let mut m: usize = 0;
    proof {
        assert forall|node: usize| #[trigger]
            bucket_or_empty(spatial_index@, node) == entries_of(
                group@,
                home_members(*quad_tree, group@, node as int, 0),
            ) by {
            assert(entries_of(group@, home_members(*quad_tree, group@, node as int, 0))
                =~= Seq::<Entry>::empty());
        }
    }
    while m < group.len()
        invariant
            0 <= m <= group.len(),
            files_by_home(*quad_tree, group@, spatial_index@, m as nat),
        decreases group.len() - m,
    {
        let ghost before = spatial_index@;
        let bbox = group[m].as_rect();
        let in_node = quad_tree.smallest_node(&bbox);
        spatial_index.file(in_node, (group[m].entity, bbox));
        proof {
            assert forall|node: usize| #[trigger]
                bucket_or_empty(spatial_index@, node) == entries_of(
                    group@,
                    home_members(*quad_tree, group@, node as int, (m + 1) as nat),
                ) by {
                assert(bucket_or_empty(before, node) == entries_of(
                    group@,
                    home_members(*quad_tree, group@, node as int, m as nat),
                ));
                if node == in_node {
                    assert(bucket_or_empty(spatial_index@, node) =~= entries_of(
                        group@,
                        home_members(*quad_tree, group@, node as int, (m + 1) as nat),
                    ));
                }
            }
        }
        m += 1;
    }
    spatial_index
}

/// Colliders `a` and `b` are reported as colliding: they are different
/// entities, their rectangles intersect, and the home node of `b` is among
/// the nodes that intersect `a`.
pub open spec fn collides(tree: StaticQuadTree, a: Collider, b: Collider) -> bool {
    &&& a.entity != b.entity
    &&& a.rect().intersects(b.rect())
    &&& tree@[tree.home_node(b.rect())].bounds.intersects(a.rect())
}

/// [`collides`] for collider `i` of `group_a` and collider `j` of `group_b`.
pub open spec fn pair_collides(
    tree: StaticQuadTree,
    group_a: Seq<Collider>,
    group_b: Seq<Collider>,
    i: int,
    j: int,
) -> bool {
    collides(tree, group_a[i], group_b[j])
}

/// `event` reports the pair `pair` of indices into the two groups, and
/// that pair collides.
pub open spec fn reports(
    tree: StaticQuadTree,
    group_a: Seq<Collider>,
    group_b: Seq<Collider>,
    event: OnCollision,
    pair: (int, int),
) -> bool {
    &&& 0 <= pair.0 < group_a.len()
    &&& 0 <= pair.1 < group_b.len()
    &&& pair_collides(tree, group_a, group_b, pair.0, pair.1)
    &&& event.entity_a == group_a[pair.0].entity
    &&& event.entity_b == group_b[pair.1].entity
}

/// `node` is among the first `n` of `items`.
spec fn listed(items: Seq<usize>, n: int, node: int) -> bool {
    exists|q: int| 0 <= q < n && #[trigger] items[q] == node
}

/// Collider `j` of the second group has been looked at in the current row:
/// its home node is among the first `n` of `items`, or it is `current` and
/// `j` lies below `limit`.
spec fn looked_at(
    tree: StaticQuadTree,
    group_b: Seq<Collider>,
    j: int,
    items: Seq<usize>,
    n: int,
    current: int,
    limit: int,
) -> bool {
    listed(items, n, home_of(tree, group_b, j)) || (home_of(tree, group_b, j) == current && j
        < limit)
}

/// `events` are the collisions of the rows below `row`, and of row `row` as
/// far as it has been looked at; `pairs` names the pair behind each event.
spec fn reported_so_far(
    tree: StaticQuadTree,
    group_a: Seq<Collider>,
    group_b: Seq<Collider>,
    events: Seq<OnCollision>,
    pairs: Seq<(int, int)>,
    row: int,
    items: Seq<usize>,
    n: int,
    current: int,
    limit: int,
) -> bool {
    &&& pairs.len() == events.len()
    &&& pairs.no_duplicates()
    &&& forall|k: int|
        0 <= k < pairs.len() ==> reports(tree, group_a, group_b, events[k], #[trigger] pairs[k])
    &&& forall|k: int|
        0 <= k < pairs.len() ==> (#[trigger] pairs[k]).0 < row || (pairs[k].0 == row && looked_at(
            tree,
            group_b,
            pairs[k].1,
            items,
            n,
            current,
            limit,
        ))
    &&& forall|i: int, j: int|
        0 <= i < group_a.len() && 0 <= j < group_b.len() && #[trigger] pair_collides(
            tree,
            group_a,
            group_b,
            i,
            j,
        ) && (i < row || (i == row && looked_at(tree, group_b, j, items, n, current, limit)))
            ==> pairs.contains((i, j))
    &&& forall|k1: int, k2: int|
        0 <= k1 < k2 < pairs.len() ==> (#[trigger] pairs[k1]).0 <= (#[trigger] pairs[k2]).0
}

/// `events` are exactly the collisions between the two groups: `pairs`
/// names, for each event, the pair of colliders that it reports; no pair is
/// named twice and no colliding pair is missing. The events come in the
/// order of the first group.
pub open spec fn is_pairing(
    tree: StaticQuadTree,
    group_a: Seq<Collider>,
    group_b: Seq<Collider>,
    events: Seq<OnCollision>,
    pairs: Seq<(int, int)>,
) -> bool {
    &&& pairs.len() == events.len()
    &&& pairs.no_duplicates()
    &&& forall|k: int|
        0 <= k < pairs.len() ==> reports(tree, group_a, group_b, events[k], #[trigger] pairs[k])
    &&& forall|i: int, j: int|
        0 <= i < group_a.len() && 0 <= j < group_b.len() && #[trigger] pair_collides(
            tree,
            group_a,
            group_b,
            i,
            j,
        ) ==> pairs.contains((i, j))
    &&& forall|k1: int, k2: int|
        0 <= k1 < k2 < pairs.len() ==> (#[trigger] pairs[k1]).0 <= (#[trigger] pairs[k2]).0
}

/// What a sequence holds after one more pair has been appended.
proof fn lemma_push_contains(pairs: Seq<(int, int)>, added: (int, int), wanted: (int, int))
    ensures
        pairs.push(added).contains(wanted) <==> pairs.contains(wanted) || added == wanted,
{
    let longer = pairs.push(added);
    if pairs.contains(wanted) {
        let k = choose|k: int| 0 <= k < pairs.len() && pairs[k] == wanted;
        assert(longer[k] == wanted);
    }
    if added == wanted {
        assert(longer[pairs.len() as int] == wanted);
    }
    if longer.contains(wanted) {
        let k = choose|k: int| 0 <= k < longer.len() && longer[k] == wanted;
        if k < pairs.len() {
            assert(pairs[k] == wanted);
        }
    }
}

/// Tests the entity of row `row` against the bucket of node `items[n]`.
fn report_bucket(
    quad_tree: &StaticQuadTree,
    group_a: &Vec<Collider>,
    group_b: &Vec<Collider>,
    row: usize,
    bbox_a: &Rect2D,
    contents: &Vec<Entry>,
    events: &mut Vec<OnCollision>,
    Ghost(pairs): Ghost<Seq<(int, int)>>,
    Ghost(items): Ghost<Seq<usize>>,
    Ghost(n): Ghost<int>,
) -> (out: Ghost<Seq<(int, int)>>)
    requires
        quad_tree.wf(),
        row < group_a.len(),
        *bbox_a == group_a[row as int].rect(),
        0 <= n < items.len(),
        items.no_duplicates(),
        forall|q: int| 0 <= q < items.len() ==> quad_tree.overlapping(*bbox_a).contains(#[trigger] items[q]),
        contents@ == entries_of(
            group_b@,
            home_members(*quad_tree, group_b@, items[n] as int, group_b@.len()),
        ),
        reported_so_far(
            *quad_tree,
            group_a@,
            group_b@,
            old(events)@,
            pairs,
            row as int,
            items,
            n,
            -1,
            0,
        ),
    ensures
        reported_so_far(
            *quad_tree,
            group_a@,
            group_b@,
            final(events)@,
            out@,
            row as int,
            items,
            n + 1,
            -1,
            0,
        ),
{
    let ghost tree = *quad_tree;
    let ghost a = group_a@;
    let ghost b = group_b@;
    let ghost node = items[n] as int;
    let ghost members = home_members(tree, b, node, b.len());
    let ghost mut pairs = pairs;
    let entity_a = group_a[row].entity;
    proof {
        lemma_home_members(tree, b, node, b.len());
        let limit = if 0 < members.len() {
            members[0]
        } else {
            b.len() as int
        };
        assert forall|x: int|
            0 <= x < b.len() && looked_at(tree, b, x, items, n, node, limit) implies looked_at(
            tree,
            b,
            x,
            items,
            n,
            -1,
            0,
        ) by {
            if home_of(tree, b, x) == node && x < limit {
                let r = choose|r: int| 0 <= r < members.len() && members[r] == x;
                if r > 0 {
                    assert(members[0] < members[r]);
                }
            }
        }
        assert forall|i: int, x: int|
            0 <= i < a.len() && 0 <= x < b.len() && #[trigger] pair_collides(tree, a, b, i, x) && (i
                < row || (i == row && looked_at(tree, b, x, items, n, node, limit))) implies pairs.contains(
            (i, x),
        ) by {
            if i == row {
                assert(looked_at(tree, b, x, items, n, -1, 0));
            }
        }
        assert forall|k: int| 0 <= k < pairs.len() implies (#[trigger] pairs[k]).0 < row || (pairs[k].0
            == row && looked_at(tree, b, pairs[k].1, items, n, node, limit)) by {
        }
        assert(reported_so_far(tree, a, b, events@, pairs, row as int, items, n, node, limit));
    }
    let mut t: usize = 0;
    while t < contents.len()
        invariant
            0 <= t <= contents.len(),
            tree.wf(),
            forall|q: int| 0 <= q < items.len() ==> tree.overlapping(*bbox_a).contains(#[trigger] items[q]),
            row < group_a.len(),
            a == group_a@,
            b == group_b@,
            tree == *quad_tree,
            *bbox_a == a[row as int].rect(),
            entity_a == a[row as int].entity,
            0 <= n < items.len(),
            items.no_duplicates(),
            node == items[n],
            members == home_members(tree, b, node, b.len()),
            contents@ == entries_of(b, members),
            forall|t: int|
                0 <= t < members.len() ==> 0 <= (#[trigger] members[t]) < b.len() && home_of(
                    tree,
                    b,
                    members[t],
                ) == node,
            forall|t1: int, t2: int|
                0 <= t1 < t2 < members.len() ==> members[t1] < members[t2],
            forall|j: int|
                0 <= j < b.len() && #[trigger] home_of(tree, b, j) == node ==> members.contains(j),
            reported_so_far(
                tree,
                a,
                b,
                events@,
                pairs,
                row as int,
                items,
                n,
                node,
                if t < members.len() {
                    members[t as int]
                } else {
                    b.len() as int
                },
            ),
        decreases contents.len() - t,
    {
        let ghost j = members[t as int];
        let ghost limit = j;
        let ghost next_limit = if t + 1 < members.len() {
            members[t + 1]
        } else {
            b.len() as int
        };
        let ghost old_pairs = pairs;
        let ghost old_events = events@;
        let (entity_b, bbox_b) = contents[t];
        assert(contents@[t as int] == b[j].entry());
        let hit = entity_a != entity_b && bbox_a.intersect(&bbox_b);
        if hit {
            events.push(OnCollision { entity_a, entity_b });
            proof {
                pairs = pairs.push((row as int, j));
            }
        }
        proof {
            // Which colliders the step has added to those looked at: `j` alone.
            assert forall|x: int|
                0 <= x < b.len() && looked_at(tree, b, x, items, n, node, next_limit) implies looked_at(
                tree,
                b,
                x,
                items,
                n,
                node,
                limit,
            ) || x == j by {
                if home_of(tree, b, x) == node && x < next_limit && x >= limit {
                    let r = choose|r: int| 0 <= r < members.len() && members[r] == x;
                    if r < t {
                        assert(members[r] < members[t as int]);
                    }
                    if r > t {
                        assert(t + 1 < members.len());
                        if r > t + 1 {
                            assert(members[t + 1] < members[r]);
                        }
                    }
                }
            }
            assert(!looked_at(tree, b, j, items, n, node, limit)) by {
                if listed(items, n, home_of(tree, b, j)) {
                    let q = choose|q: int| 0 <= q < n && #[trigger] items[q] == home_of(tree, b, j);
                    assert(items[q] == items[n]);
                }
            }
            assert(looked_at(tree, b, j, items, n, node, next_limit)) by {
                if t + 1 < members.len() {
                    assert(members[t as int] < members[t + 1]);
                }
            }
            assert forall|x: int|
                looked_at(tree, b, x, items, n, node, limit) implies looked_at(
                tree,
                b,
                x,
                items,
                n,
                node,
                next_limit,
            ) by {
                if t + 1 < members.len() {
                    assert(members[t as int] < members[t + 1]);
                }
            }
            if hit {
                assert(pair_collides(tree, a, b, row as int, j)) by {
                    lemma_home_node_in_tree(tree, b[j].rect());
                    assert(tree.overlapping(*bbox_a).contains(items[n]));
                }
                assert(!old_pairs.contains((row as int, j))) by {
                    if old_pairs.contains((row as int, j)) {
                        let k = choose|k: int| 0 <= k < old_pairs.len() && old_pairs[k] == (row as int, j);
                        assert(looked_at(tree, b, old_pairs[k].1, items, n, node, limit));
                    }
                }
                assert forall|k: int| 0 <= k < pairs.len() implies reports(
                    tree,
                    a,
                    b,
                    events@[k],
                    #[trigger] pairs[k],
                ) by {
                    if k < old_pairs.len() {
                        assert(reports(tree, a, b, old_events[k], old_pairs[k]));
                    }
                }
                assert forall|k: int| 0 <= k < pairs.len() implies (#[trigger] pairs[k]).0 < row || (
                pairs[k].0 == row && looked_at(tree, b, pairs[k].1, items, n, node, next_limit)) by {
                    if k < old_pairs.len() {
                        assert(old_pairs[k] == pairs[k]);
                    }
                }
                assert forall|k1: int, k2: int| 0 <= k1 < k2 < pairs.len() implies (
                #[trigger] pairs[k1]).0 <= (#[trigger] pairs[k2]).0 by {
                    assert(old_pairs[k1] == pairs[k1]);
                    if k2 < old_pairs.len() {
                        assert(old_pairs[k2] == pairs[k2]);
                    }
                }
            } else {
                assert(!pair_collides(tree, a, b, row as int, j));
            }
            assert forall|i: int, x: int|
                0 <= i < a.len() && 0 <= x < b.len() && #[trigger] pair_collides(tree, a, b, i, x) && (i
                    < row || (i == row && looked_at(
                    tree,
                    b,
                    x,
                    items,
                    n,
                    node,
                    next_limit,
                ))) implies pairs.contains((i, x)) by {
                lemma_push_contains(old_pairs, (row as int, j), (i, x));
                if i == row && x == j {
                } else {
                    assert(old_pairs.contains((i, x)));
                }
            }
        }
        t += 1;
    }
    proof {
        assert forall|x: int|
            0 <= x < b.len() implies (looked_at(tree, b, x, items, n, node, b.len() as int)
            <==> looked_at(tree, b, x, items, n + 1, -1, 0)) by {
            lemma_home_node_in_tree(tree, b[x].rect());
            if listed(items, n, home_of(tree, b, x)) {
                let q = choose|q: int| 0 <= q < n && #[trigger] items[q] == home_of(tree, b, x);
                assert(listed(items, n + 1, home_of(tree, b, x)));
            }
            if home_of(tree, b, x) == node {
                assert(listed(items, n + 1, home_of(tree, b, x)));
            }
            if listed(items, n + 1, home_of(tree, b, x)) {
                let q = choose|q: int| 0 <= q < n + 1 && #[trigger] items[q] == home_of(tree, b, x);
                if q < n {
                    assert(listed(items, n, home_of(tree, b, x)));
                }
            }
        }
        assert forall|k: int| 0 <= k < pairs.len() implies (#[trigger] pairs[k]).0 < row || (
        pairs[k].0 == row && looked_at(tree, b, pairs[k].1, items, n + 1, -1, 0)) by {
            assert(reports(tree, a, b, events@[k], pairs[k]));
        }
    }
    Ghost(pairs)
}

/// Tests the entity of row `row` of the first group against the buckets of
/// all nodes that it intersects.
fn report_row(
    quad_tree: &StaticQuadTree,
    group_a: &Vec<Collider>,
    group_b: &Vec<Collider>,
    row: usize,
    spatial_index: &SpatialIndex,
    events: &mut Vec<OnCollision>,
    Ghost(pairs): Ghost<Seq<(int, int)>>,
) -> (out: Ghost<Seq<(int, int)>>)
    requires
        quad_tree.wf(),
        row < group_a.len(),
        files_by_home(*quad_tree, group_b@, spatial_index@, group_b@.len()),
        reported_so_far(
            *quad_tree,
            group_a@,
            group_b@,
            old(events)@,
            pairs,
            row as int,
            Seq::empty(),
            0,
            -1,
            0,
        ),
    ensures
        reported_so_far(
            *quad_tree,
            group_a@,
            group_b@,
            final(events)@,
            out@,
            row + 1,
            Seq::empty(),
            0,
            -1,
            0,
        ),
{
    let ghost tree = *quad_tree;
    let ghost a = group_a@;
    let ghost b = group_b@;
    let ghost mut pairs = pairs;
    let bbox_a = group_a[row].as_rect();
    let nodes = quad_tree.intersecting_nodes(&bbox_a).to_vec();
    let ghost items = nodes@;
    proof {
        assert forall|q: int| 0 <= q < items.len() implies tree.overlapping(bbox_a).contains(
            #[trigger] items[q],
        ) by {
            assert(items.to_set().contains(items[q]));
        }
        assert(reported_so_far(tree, a, b, events@, pairs, row as int, items, 0, -1, 0));
    }
    let mut n: usize = 0;
    while n < nodes.len()
        invariant
            0 <= n <= nodes.len(),
            tree == *quad_tree,
            tree.wf(),
            a == group_a@,
            b == group_b@,
            items == nodes@,
            row < group_a.len(),
            bbox_a == a[row as int].rect(),
            items.no_duplicates(),
            forall|q: int| 0 <= q < items.len() ==> tree.overlapping(bbox_a).contains(#[trigger] items[q]),
            files_by_home(tree, b, spatial_index@, b.len()),
            reported_so_far(tree, a, b, events@, pairs, row as int, items, n as int, -1, 0),
        decreases nodes.len() - n,
    {
        let node = nodes[n];
        let ghost members = home_members(tree, b, node as int, b.len());
        assert(bucket_or_empty(spatial_index@, node) == entries_of(b, members));
        match spatial_index.bucket(node) {
            Some(contents) => {
                let out = report_bucket(
                    quad_tree,
                    group_a,
                    group_b,
                    row,
                    &bbox_a,
                    contents,
                    events,
                    Ghost(pairs),
                    Ghost(items),
                    Ghost(n as int),
                );
                proof {
                    pairs = out@;
                }
            },
            None => {
                proof {
                    lemma_home_members(tree, b, node as int, b.len());
                    assert(members.len() == 0);
                    assert forall|x: int| 0 <= x < b.len() implies home_of(tree, b, x) != node by {
                        if home_of(tree, b, x) == node {
                            assert(members.contains(x));
                        }
                    }
                    assert forall|x: int|
                        0 <= x < b.len() implies (looked_at(tree, b, x, items, n as int, -1, 0)
                        <==> #[trigger] looked_at(tree, b, x, items, n + 1, -1, 0)) by {
                        let home = home_of(tree, b, x);
                        if listed(items, n as int, home) {
                            let q = choose|q: int| 0 <= q < n && #[trigger] items[q] == home;
                            assert(listed(items, n + 1, home));
                        }
                        if listed(items, n + 1, home) {
                            let q = choose|q: int| 0 <= q < n + 1 && #[trigger] items[q] == home;
                            assert(listed(items, n as int, home));
                        }
                    }
                }
            },
        }
        n += 1;
    }
    proof {
        assert forall|i: int, x: int|
            0 <= i < a.len() && 0 <= x < b.len() && #[trigger] pair_collides(tree, a, b, i, x) && i
                < row + 1 implies pairs.contains((i, x)) by {
            if i == row {
                let home = home_of(tree, b, x);
                lemma_home_node_in_tree(tree, b[x].rect());
                assert(tree.overlapping(bbox_a).contains(home as usize));
                assert(items.to_set().contains(home as usize));
                assert(items.contains(home as usize));
                let q = choose|q: int| 0 <= q < items.len() && items[q] == home as usize;
                assert(listed(items, items.len() as int, home));
            }
        }
    }
    Ghost(pairs)
}

/// Finds the collisions between two groups of entities.
///
/// Every entity of `group_b` is filed under its home node in `quad_tree`.
/// Every entity of `group_a` is then tested against the buckets of all nodes
/// that it intersects, and each intersecting pair of different entities
/// gives one event. Since an entity of `group_b` has one home node, no pair
/// is reported twice.
pub fn check_collisions(
    quad_tree: &StaticQuadTree,
    group_a: &Vec<Collider>,
    group_b: &Vec<Collider>,
) -> (events: Vec<OnCollision>)
    ensures
        exists|pairs: Seq<(int, int)>| is_pairing(*quad_tree, group_a@, group_b@, events@, pairs),
{
    proof {
        use_type_invariant(quad_tree);
    }
    let spatial_index = build_home_index(quad_tree, group_b);
    let mut events: Vec<OnCollision> = Vec::new();
    let ghost mut pairs: Seq<(int, int)> = Seq::empty();
    let mut row: usize = 0;
    while row < group_a.len()
        invariant
            0 <= row <= group_a.len(),
            quad_tree.wf(),
            files_by_home(*quad_tree, group_b@, spatial_index@, group_b@.len()),
            reported_so_far(
                *quad_tree,
                group_a@,
                group_b@,
                events@,
                pairs,
                row as int,
                Seq::empty(),
                0,
                -1,
                0,
            ),
        decreases group_a.len() - row,
    {
        let out = report_row(quad_tree, group_a, group_b, row, &spatial_index, &mut events, Ghost(pairs));
        proof {
            pairs = out@;
        }
        row += 1;
    }
    proof {
        assert(is_pairing(*quad_tree, group_a@, group_b@, events@, pairs));
    }
    events
}

/// Node `node` is among the nodes that intersect collider `j` of `group`.
pub open spec fn overlaps_node(tree: StaticQuadTree, group: Seq<Collider>, node: int, j: int) -> bool {
    0 <= node < tree@.len() && tree@[node].bounds.intersects(group[j].rect())
}

/// The indices below `m` of the colliders of `group` that intersect node
/// `node`, in ascending order.
spec fn overlap_members(tree: StaticQuadTree, group: Seq<Collider>, node: int, m: nat) -> Seq<
    int,
>
    decreases m,
{
    if m == 0 {
        Seq::empty()
    } else {
        let rest = overlap_members(tree, group, node, (m - 1) as nat);
        if overlaps_node(tree, group, node, m - 1) {
            rest.push(m - 1)
        } else {
            rest
        }
    }
}

/// `buckets` files each of the first `m` colliders of `group` under every
/// node that it intersects, in the order of the group.
spec fn files_by_overlap(
    tree: StaticQuadTree,
    group: Seq<Collider>,
    buckets: Map<usize, Seq<Entry>>,
    m: nat,
) -> bool {
    forall|node: usize| #[trigger]
        bucket_or_empty(buckets, node) == entries_of(
            group,
            overlap_members(tree, group, node as int, m),
        )
}

/// What holds of the members of an overlap bucket: they are indices below
/// `m` of colliders that intersect the node, they ascend, and none is left
/// out.
proof fn lemma_overlap_members(tree: StaticQuadTree, group: Seq<Collider>, node: int, m: nat)
    ensures
        forall|t: int|
            0 <= t < overlap_members(tree, group, node, m).len() ==> 0 <= (#[trigger] overlap_members(
                tree,
                group,
                node,
                m,
            )[t]) < m && overlaps_node(tree, group, node, overlap_members(tree, group, node, m)[t]),
        forall|t1: int, t2: int|
            0 <= t1 < t2 < overlap_members(tree, group, node, m).len() ==> overlap_members(
                tree,
                group,
                node,
                m,
            )[t1] < overlap_members(tree, group, node, m)[t2],
        forall|j: int|
            0 <= j < m && #[trigger] overlaps_node(tree, group, node, j) ==> overlap_members(
                tree,
                group,
                node,
                m,
            ).contains(j),
    decreases m,
{
    if m > 0 {
        let rest = overlap_members(tree, group, node, (m - 1) as nat);
        let all = overlap_members(tree, group, node, m);
        lemma_overlap_members(tree, group, node, (m - 1) as nat);
        assert forall|j: int|
            0 <= j < m && #[trigger] overlaps_node(tree, group, node, j) implies all.contains(j) by {
            if j < m - 1 {
                let t = choose|t: int| 0 <= t < rest.len() && rest[t] == j;
                assert(all[t] == j);
            } else {
                assert(all[all.len() - 1] == j);
            }
        }
    }
}

/// Where each entity of a group stands in the tree: its id, its home node
/// and the rectangle it covers.
pub type TreePosition = (u64, usize, Rect2D);

/// Collider `j` is one that collider `i` of the same group is reported to
/// collide with: another entity, filed under the home node of `i`, whose
/// rectangle intersects that of `i`.
pub open spec fn is_partner(tree: StaticQuadTree, group: Seq<Collider>, i: int, j: int) -> bool {
    &&& group[j].entity != group[i].entity
    &&& overlaps_node(tree, group, home_of(tree, group, i), j)
    &&& group[i].rect().intersects(group[j].rect())
}

/// Collider `j` is the first partner of collider `i` in the order of the
/// group.
pub open spec fn is_first_partner(tree: StaticQuadTree, group: Seq<Collider>, i: int, j: int) -> bool {
    &&& 0 <= j < group.len()
    &&& is_partner(tree, group, i, j)
    &&& forall|earlier: int| 0 <= earlier < j ==> !#[trigger] is_partner(tree, group, i, earlier)
}

/// `events` hold, for each collider of `group` that has a partner, its
/// collision with the first one, and nothing else; they come in the order of
/// the group. `pairs` names the two colliders behind each event.
pub open spec fn is_first_hit_pairing(
    tree: StaticQuadTree,
    group: Seq<Collider>,
    events: Seq<OnCollision>,
    pairs: Seq<(int, int)>,
    rows: int,
) -> bool {
    &&& pairs.len() == events.len()
    &&& forall|k: int|
        0 <= k < pairs.len() ==> {
            &&& 0 <= (#[trigger] pairs[k]).0 < rows
            &&& is_first_partner(tree, group, pairs[k].0, pairs[k].1)
            &&& events[k].entity_a == group[pairs[k].0].entity
            &&& events[k].entity_b == group[pairs[k].1].entity
        }
    &&& forall|k1: int, k2: int|
        0 <= k1 < k2 < pairs.len() ==> (#[trigger] pairs[k1]).0 < (#[trigger] pairs[k2]).0
    &&& forall|i: int, j: int|
        0 <= i < rows && 0 <= j < group.len() && #[trigger] is_partner(tree, group, i, j)
            ==> exists|k: int| 0 <= k < pairs.len() && (#[trigger] pairs[k]).0 == i
}

/// Files every collider of `group` under each node that it intersects, and
/// notes where each stands in the tree.
fn build_overlap_index(quad_tree: &StaticQuadTree, group: &Vec<Collider>) -> (out: (
    SpatialIndex,
    Vec<TreePosition>,
))
    requires
        quad_tree.wf(),
    ensures
        files_by_overlap(*quad_tree, group@, out.0@, group@.len()),
        out.1@.len() == group@.len(),
        forall|i: int|
            0 <= i < group@.len() ==> (#[trigger] out.1@[i]) == (
                group@[i].entity,
                home_of(*quad_tree, group@, i) as usize,
                group@[i].rect(),
            ),
{
    let ghost tree = *quad_tree;
    let mut spatial_index = SpatialIndex::new();
    let mut tree_positions: Vec<TreePosition> = Vec::new();
    let mut m: usize = 0;
    proof {
        assert forall|node: usize| #[trigger]
            bucket_or_empty(spatial_index@, node) == entries_of(
                group@,
                overlap_members(tree, group@, node as int, 0),
            ) by {
            assert(entries_of(group@, overlap_members(tree, group@, node as int, 0))
                =~= Seq::<Entry>::empty());
        }
    }
    while m < group.len()
        invariant
            0 <= m <= group.len(),
            tree == *quad_tree,
            tree.wf(),
            files_by_overlap(tree, group@, spatial_index@, m as nat),
            tree_positions@.len() == m,
            forall|i: int|
                0 <= i < m ==> (#[trigger] tree_positions@[i]) == (
                    group@[i].entity,
                    home_of(tree, group@, i) as usize,
                    group@[i].rect(),
                ),
        decreases group.len() - m,
    {
        let entity = group[m].entity;
        let bbox = group[m].as_rect();
        let node = quad_tree.smallest_node(&bbox);
        let nodes = quad_tree.intersecting_nodes(&bbox).to_vec();
        let ghost items = nodes@;
        let ghost start = spatial_index@;
        let mut q: usize = 0;
        while q < nodes.len()
            invariant
                0 <= q <= nodes.len(),
                0 <= m < group.len(),
                items == nodes@,
                items.no_duplicates(),
                bbox == group@[m as int].rect(),
                entity == group@[m as int].entity,
                forall|node: usize|
                    bucket_or_empty(spatial_index@, node) == if listed(items, q as int, node as int) {
                        (#[trigger] bucket_or_empty(start, node)).push((entity, bbox))
                    } else {
                        bucket_or_empty(start, node)
                    },
            decreases nodes.len() - q,
        {
            let in_node = nodes[q];
            let ghost before = spatial_index@;
            spatial_index.file(in_node, (entity, bbox));
            proof {
                assert(!listed(items, q as int, in_node as int)) by {
                    if listed(items, q as int, in_node as int) {
                        let r = choose|r: int| 0 <= r < q && #[trigger] items[r] == in_node as int;
                        assert(items[r] == items[q as int]);
                    }
                }
                assert(listed(items, q + 1, in_node as int));
                assert forall|node: usize|
                    bucket_or_empty(spatial_index@, node) == if listed(items, q + 1, node as int) {
                        (#[trigger] bucket_or_empty(start, node)).push((entity, bbox))
                    } else {
                        bucket_or_empty(start, node)
                    } by {
                    if node != in_node {
                        assert(bucket_or_empty(spatial_index@, node) == bucket_or_empty(before, node));
                        if listed(items, q as int, node as int) {
                            let r = choose|r: int| 0 <= r < q && #[trigger] items[r] == node as int;
                            assert(listed(items, q + 1, node as int));
                        }
                        if listed(items, q + 1, node as int) {
                            let r = choose|r: int| 0 <= r < q + 1 && #[trigger] items[r] == node as int;
                            assert(listed(items, q as int, node as int));
                        }
                    }
                }
            }
            q += 1;
        }
        tree_positions.push((entity, node, bbox));
        proof {
            assert forall|node: usize| #[trigger]
                bucket_or_empty(spatial_index@, node) == entries_of(
                    group@,
                    overlap_members(tree, group@, node as int, (m + 1) as nat),
                ) by {
                let old_members = overlap_members(tree, group@, node as int, m as nat);
                let new_members = overlap_members(tree, group@, node as int, (m + 1) as nat);
                assert(bucket_or_empty(start, node) == entries_of(group@, old_members));
                if listed(items, items.len() as int, node as int) {
                    let r = choose|r: int| 0 <= r < items.len() && #[trigger] items[r] == node as int;
                    assert(items.to_set().contains(items[r]));
                    assert(overlaps_node(tree, group@, node as int, m as int));
                    assert(entries_of(group@, new_members) =~= entries_of(group@, old_members).push(
                        (entity, bbox),
                    ));
                } else {
                    if overlaps_node(tree, group@, node as int, m as int) {
                        assert(tree.overlapping(bbox).contains(node));
                        assert(items.to_set().contains(node));
                        assert(items.contains(node));
                        let r = choose|r: int| 0 <= r < items.len() && items[r] == node;
                        assert(listed(items, items.len() as int, node as int));
                    }
                }
            }
        }
        m += 1;
    }
    (spatial_index, tree_positions)
}

/// Looks in `contents`, the bucket of the home node of collider `row`, for
/// the first entity other than that collider which intersects it.
fn first_hit_in_bucket(
    quad_tree: &StaticQuadTree,
    group: &Vec<Collider>,
    row: usize,
    entity: u64,
    box_a: &Rect2D,
    contents: &Vec<Entry>,
) -> (out: (Option<u64>, Ghost<int>))
    requires
        quad_tree.wf(),
        row < group.len(),
        entity == group@[row as int].entity,
        *box_a == group@[row as int].rect(),
        contents@ == entries_of(
            group@,
            overlap_members(
                *quad_tree,
                group@,
                home_of(*quad_tree, group@, row as int),
                group@.len(),
            ),
        ),
    ensures
        out.0 matches Some(other) ==> is_first_partner(*quad_tree, group@, row as int, out.1@) && other
            == group@[out.1@].entity,
        out.0 is None ==> forall|j: int|
            0 <= j < group@.len() ==> !#[trigger] is_partner(*quad_tree, group@, row as int, j),
{
    let ghost tree = *quad_tree;
    let ghost g = group@;
    let ghost node = home_of(tree, g, row as int);
    let ghost members = overlap_members(tree, g, node, g.len());
    proof {
        lemma_overlap_members(tree, g, node, g.len());
    }
    let mut t: usize = 0;
    while t < contents.len()
        invariant
            0 <= t <= contents.len(),
            g == group@,
            tree == *quad_tree,
            row < g.len(),
            node == home_of(tree, g, row as int),
            entity == g[row as int].entity,
            *box_a == g[row as int].rect(),
            members == overlap_members(tree, g, node, g.len()),
            contents@ == entries_of(g, members),
            forall|t: int|
                0 <= t < members.len() ==> 0 <= (#[trigger] members[t]) < g.len() && overlaps_node(
                    tree,
                    g,
                    node,
                    members[t],
                ),
            forall|t1: int, t2: int|
                0 <= t1 < t2 < members.len() ==> members[t1] < members[t2],
            forall|j: int|
                0 <= j < g.len() && #[trigger] overlaps_node(tree, g, node, j) ==> members.contains(j),
            forall|seen: int| 0 <= seen < t ==> !is_partner(tree, g, row as int, #[trigger] members[seen]),
        decreases contents.len() - t,
    {
        let (entity_b, box_b) = contents[t];
        let ghost j = members[t as int];
        assert(contents@[t as int] == g[j].entry());
        if entity_b != entity && box_a.intersect(&box_b) {
            proof {
                assert forall|earlier: int| 0 <= earlier < j implies !#[trigger] is_partner(
                    tree,
                    g,
                    row as int,
                    earlier,
                ) by {
                    if is_partner(tree, g, row as int, earlier) {
                        let r = choose|r: int| 0 <= r < members.len() && members[r] == earlier;
                        if r >= t {
                            if r > t {
                                assert(members[t as int] < members[r]);
                            }
                        }
                    }
                }
            }
            return (Some(entity_b), Ghost(j));
        }
        t += 1;
    }
    proof {
        assert forall|j: int| 0 <= j < g.len() implies !#[trigger] is_partner(tree, g, row as int, j) by {
            if is_partner(tree, g, row as int, j) {
                let r = choose|r: int| 0 <= r < members.len() && members[r] == j;
                assert(!is_partner(tree, g, row as int, members[r]));
            }
        }
    }
    (None, Ghost(0))
}

/// Finds collisions within one group of entities, at most one for each.
///
/// Every entity is filed under each node of `quad_tree` that it
/// intersects. Every entity is then tested against the bucket of its home
/// node, itself left out, and the first entity found to intersect it is
/// reported as its collision; the rest of the bucket is not looked at.
pub fn collisions(quad_tree: &StaticQuadTree, group: &Vec<Collider>) -> (events: Vec<OnCollision>)
    ensures
        exists|pairs: Seq<(int, int)>|
            is_first_hit_pairing(*quad_tree, group@, events@, pairs, group@.len() as int),
{
    proof {
        use_type_invariant(quad_tree);
    }
    let ghost tree = *quad_tree;
    let ghost g = group@;
    let (spatial_index, tree_positions) = build_overlap_index(quad_tree, group);
    let mut events: Vec<OnCollision> = Vec::new();
    let ghost mut pairs: Seq<(int, int)> = Seq::empty();
    let mut row: usize = 0;
    while row < tree_positions.len()
        invariant
            0 <= row <= tree_positions.len(),
            tree == *quad_tree,
            g == group@,
            tree.wf(),
            files_by_overlap(tree, g, spatial_index@, g.len()),
            tree_positions@.len() == g.len(),
            forall|i: int|
                0 <= i < g.len() ==> (#[trigger] tree_positions@[i]) == (
                    g[i].entity,
                    home_of(tree, g, i) as usize,
                    g[i].rect(),
                ),
            is_first_hit_pairing(tree, g, events@, pairs, row as int),
        decreases tree_positions.len() - row,
    {
        let (entity, node, box_a) = tree_positions[row];
        let ghost old_pairs = pairs;
        let ghost old_events = events@;
        proof {
            lemma_home_node_in_tree(tree, g[row as int].rect());
            assert(bucket_or_empty(spatial_index@, node) == entries_of(
                g,
                overlap_members(tree, g, node as int, g.len()),
            ));
        }
        let mut found: Option<u64> = None;
        let ghost mut partner: int = 0;
        match spatial_index.bucket(node) {
            Some(entities_here) => {
                let out = first_hit_in_bucket(quad_tree, group, row, entity, &box_a, entities_here);
                found = out.0;
                proof {
                    partner = out.1@;
                }
            },
            None => {
                proof {
                    lemma_overlap_members(tree, g, node as int, g.len());
                    let members = overlap_members(tree, g, node as int, g.len());
                    assert(members.len() == 0);
                    assert forall|j: int| 0 <= j < g.len() implies !#[trigger] is_partner(
                        tree,
                        g,
                        row as int,
                        j,
                    ) by {
                        if is_partner(tree, g, row as int, j) {
                            assert(members.contains(j));
                        }
                    }
                }
            },
        }
        match found {
            Some(entity_b) => {
                events.push(OnCollision { entity_a: entity, entity_b });
                proof {
                    pairs = pairs.push((row as int, partner));
                    assert forall|k: int| 0 <= k < pairs.len() implies {
                        &&& 0 <= (#[trigger] pairs[k]).0 < row + 1
                        &&& is_first_partner(tree, g, pairs[k].0, pairs[k].1)
                        &&& events@[k].entity_a == g[pairs[k].0].entity
                        &&& events@[k].entity_b == g[pairs[k].1].entity
                    } by {
                        if k < old_pairs.len() {
                            assert(pairs[k] == old_pairs[k]);
                            assert(events@[k] == old_events[k]);
                        }
                    }
                    assert forall|k1: int, k2: int| 0 <= k1 < k2 < pairs.len() implies (
                    #[trigger] pairs[k1]).0 < (#[trigger] pairs[k2]).0 by {
                        assert(pairs[k1] == old_pairs[k1]);
                        if k2 < old_pairs.len() {
                            assert(pairs[k2] == old_pairs[k2]);
                        }
                    }
                    assert forall|i: int, x: int|
                        0 <= i < row + 1 && 0 <= x < g.len() && #[trigger] is_partner(
                            tree,
                            g,
                            i,
                            x,
                        ) implies exists|k: int| 0 <= k < pairs.len() && (#[trigger] pairs[k]).0 == i by {
                        if i < row {
                            let k = choose|k: int| 0 <= k < old_pairs.len() && (#[trigger] old_pairs[k]).0 == i;
                            assert(pairs[k].0 == i);
                        } else {
                            assert(pairs[old_pairs.len() as int].0 == i);
                        }
                    }
                }
            },
            None => {},
        }
        row += 1;
    }
    events
}

} // verus!
