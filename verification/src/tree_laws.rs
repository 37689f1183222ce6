//! What holds of every well-formed quadtree.
use vstd::prelude::*;
use crate::rect2d::{
    lemma_intersect_boundary_inclusive, lemma_quadrant_inside, lemma_quadrant_quarter,
    lemma_quadrants_cover, Rect2D,
};
use crate::static_quadtree::{
    child_holding, child_laid_out, descend, in_span, is_ancestor, layout, lemma_child_span_inside,
    lemma_pow4_is_pow2_squared, lemma_reach_in_span, lemma_span_enclosed, lemma_span_locate,
    lemma_span_reached, lemma_span_step, play_area, pow2, pow4, reaches, sole_child,
    subtree_size, StaticQuadTree, StaticQuadTreeNode,
};
use crate::vector::Vec2;

verus! {

/// Every index of the tree belongs to a node below or at the root, and every
/// node covers a well-formed rectangle inside the play area.
pub proof fn lemma_nodes_inside_play_area(tree: StaticQuadTree, j: int)
    requires
        tree.wf(),
        0 <= j < tree@.len(),
    ensures
        is_ancestor(tree@, 0, j),
        tree@[j].bounds.wf(),
        tree@[0].bounds.encloses(tree@[j].bounds),
{
    lemma_span_reached(tree@, 0, 1, tree.depth(), j);
    lemma_span_enclosed(tree@, 0, 1, tree.depth(), j);
}

/// The bounds of a node lie inside the bounds of each of its ancestors.
pub proof fn lemma_ancestor_encloses(tree: StaticQuadTree, a: int, d: int)
    requires
        tree.wf(),
        is_ancestor(tree@, a, d),
    ensures
        0 <= a < tree@.len(),
        0 <= d < tree@.len(),
        tree@[a].bounds.encloses(tree@[d].bounds),
{
    let steps = choose|steps: nat| reaches(tree@, a, d, steps);
    assert(0 <= a < tree@.len()) by {
        if steps == 0 {
        } else {
            let m = choose|m: int| #[trigger]
                crate::static_quadtree::is_child(tree@, a, m) && reaches(
                    tree@,
                    m,
                    d,
                    (steps - 1) as nat,
                );
        }
    }
    let loc = lemma_span_locate(tree@, 0, 1, tree.depth(), a);
    lemma_span_enclosed(tree@, 0, 1, tree.depth(), a);
    lemma_reach_in_span(tree@, a, loc.0, loc.1, d, steps);
    lemma_span_enclosed(tree@, a, loc.0, loc.1, d);
}

/// The set of intersecting nodes holds the root whenever `target` overlaps
/// the play area.
pub proof fn lemma_overlapping_has_root(tree: StaticQuadTree, target: Rect2D)
    requires
        tree.wf(),
        tree@[0].bounds.intersects(target),
    ensures
        tree.overlapping(target).contains(0),
{
}

/// The set of intersecting nodes holds, with each node, all its ancestors.
pub proof fn lemma_overlapping_has_ancestors(tree: StaticQuadTree, target: Rect2D, a: usize, d: usize)
    requires
        tree.wf(),
        tree.overlapping(target).contains(d),
        is_ancestor(tree@, a as int, d as int),
    ensures
        tree.overlapping(target).contains(a),
{
    lemma_ancestor_encloses(tree, a as int, d as int);
}

/// The home node of a target depends on nothing but the nodes of the tree
/// and the target: asked again of an unchanged tree about an unchanged
/// target, it is the same node.
pub proof fn lemma_home_node_stable(
    first: StaticQuadTree,
    second: StaticQuadTree,
    target_first: Rect2D,
    target_second: Rect2D,
)
    requires
        first@ == second@,
        target_first == target_second,
    ensures
        first.home_node(target_first) == second.home_node(target_second),
{
}

/// The walk down from a node ends inside its subtree.
pub proof fn lemma_descend_in_span(
    nodes: Seq<StaticQuadTreeNode>,
    i: int,
    first: int,
    height: nat,
    target: Rect2D,
)
    requires
        layout(nodes, i, first, height),
    ensures
        in_span(descend(nodes, i, target), i, first, height),
        0 <= descend(nodes, i, target) < nodes.len(),
    decreases height,
{
    if height > 0 {
        let below = (height - 1) as nat;
        assert(child_laid_out(nodes, i, first, below, 0));
        assert(child_laid_out(nodes, i, first, below, 1));
        assert(child_laid_out(nodes, i, first, below, 2));
        assert(child_laid_out(nodes, i, first, below, 3));
        let c = nodes[i].children->0;
        match sole_child(nodes, c, target) {
            Some(next) => {
                let k = next - first;
                let start = first + 4 + k * subtree_size(below);
                lemma_descend_in_span(nodes, next as int, start, below, target);
                lemma_child_span_inside(i, first, height, k, descend(nodes, next as int, target));
            },
            None => {},
        }
    }
}

/// A point of `target` that lies in the bounds of node `i` also lies in the
/// bounds of the node at which the walk down from `i` ends.
pub proof fn lemma_descend_keeps_point(
    nodes: Seq<StaticQuadTreeNode>,
    i: int,
    first: int,
    height: nat,
    target: Rect2D,
    x: int,
    y: int,
)
    requires
        layout(nodes, i, first, height),
        nodes[i].bounds.wf(),
        nodes[i].bounds.contains_point(x, y),
        target.contains_point(x, y),
    ensures
        0 <= descend(nodes, i, target) < nodes.len(),
        nodes[descend(nodes, i, target)].bounds.contains_point(x, y),
    decreases height,
{
    if height > 0 {
        let below = (height - 1) as nat;
        assert(child_laid_out(nodes, i, first, below, 0));
        assert(child_laid_out(nodes, i, first, below, 1));
        assert(child_laid_out(nodes, i, first, below, 2));
        assert(child_laid_out(nodes, i, first, below, 3));
        let c = nodes[i].children->0;
        lemma_quadrants_cover(nodes[i].bounds, x, y);
        let k = choose|k: int| 0 <= k < 4 && #[trigger] nodes[i].bounds.quadrant(k).contains_point(x, y);
        assert(nodes[first + k].bounds == nodes[i].bounds.quadrant(k));
        lemma_intersect_boundary_inclusive(nodes[first + k].bounds, target, x, y);
        lemma_quadrant_inside(nodes[i].bounds, k);
        match sole_child(nodes, c, target) {
            Some(next) => {
                assert(next == first + k);
                let start = first + 4 + k * subtree_size(below);
                lemma_descend_keeps_point(nodes, next as int, start, below, target, x, y);
            },
            None => {},
        }
    }
}

/// The home node of a target is a node of the tree.
pub proof fn lemma_home_node_in_tree(tree: StaticQuadTree, target: Rect2D)
    requires
        tree.wf(),
    ensures
        0 <= tree.home_node(target) < tree@.len(),
{
    lemma_descend_in_span(tree@, 0, 1, tree.depth(), target);
}

/// The broad phase misses nothing inside the play area: where two
/// rectangles have a point in common that lies in the play area, the home
/// node of the one is among the nodes that intersect the other.
pub proof fn lemma_home_node_overlaps(tree: StaticQuadTree, a: Rect2D, b: Rect2D, x: int, y: int)
    requires
        tree.wf(),
        a.contains_point(x, y),
        b.contains_point(x, y),
        tree@[0].bounds.contains_point(x, y),
    ensures
        0 <= tree.home_node(b) < tree@.len(),
        tree.overlapping(a).contains(tree.home_node(b) as usize),
{
    lemma_descend_keeps_point(tree@, 0, 1, tree.depth(), b, x, y);
    let home = tree.home_node(b);
    lemma_intersect_boundary_inclusive(tree@[home].bounds, a, x, y);
}

/// Where the sides of the root of a subtree are multiples of `2^height`,
/// each leaf of the subtree has those sides divided by `2^height`.
pub proof fn lemma_leaf_sides(
    nodes: Seq<StaticQuadTreeNode>,
    i: int,
    first: int,
    height: nat,
    leaf: int,
)
    requires
        layout(nodes, i, first, height),
        nodes[i].bounds.wf(),
        in_span(leaf, i, first, height),
        nodes[leaf].children is None,
        nodes[i].bounds.width() % (pow2(height) as int) == 0,
        nodes[i].bounds.height() % (pow2(height) as int) == 0,
    ensures
        nodes[leaf].bounds.width() * pow2(height) == nodes[i].bounds.width(),
        nodes[leaf].bounds.height() * pow2(height) == nodes[i].bounds.height(),
    decreases height,
{
    if leaf == i {
        assert(height == 0);
        assert(pow2(0) == 1);
    } else {
        lemma_span_step(nodes, i, first, height, leaf);
        let k = child_holding(leaf, first, height);
        let below = (height - 1) as nat;
        let start = first + 4 + k * subtree_size(below);
        let child = nodes[first + k].bounds;
        let parent = nodes[i].bounds;
        let m = pow2(below) as int;
        lemma_pow2_positive(below);
        assert(pow2(height) == 2 * m);
        lemma_half_of_multiple(parent.width(), m);
        lemma_half_of_multiple(parent.height(), m);
        lemma_quadrant_quarter(parent, k);
        lemma_quadrant_inside(parent, k);
        assert(child.width() == parent.width() / 2);
        assert(child.height() == parent.height() / 2);
        lemma_leaf_sides(nodes, first + k, start, below, leaf);
        let w = nodes[leaf].bounds.width();
        let h = nodes[leaf].bounds.height();
        assert(w * (2 * m) == 2 * (w * m)) by (nonlinear_arith);
        assert(h * (2 * m) == 2 * (h * m)) by (nonlinear_arith);
    }
}

/// Every power of 2 is positive.
pub proof fn lemma_pow2_positive(n: nat)
    ensures
        pow2(n) > 0,
    decreases n,
{
    if n > 0 {
        lemma_pow2_positive((n - 1) as nat);
    }
}

/// A multiple of `2 * m` is even, and its half is a multiple of `m`.
pub proof fn lemma_half_of_multiple(x: int, m: int)
    requires
        m > 0,
        x % (2 * m) == 0,
    ensures
        x % 2 == 0,
        (x / 2) % m == 0,
{
    let q = x / (2 * m);
    assert(x == (2 * m) * q) by {
        vstd::arithmetic::div_mod::lemma_fundamental_div_mod(x, 2 * m);
    }
    assert(x == 2 * (m * q)) by (nonlinear_arith)
        requires
            x == (2 * m) * q,
    ;
    assert(x / 2 == m * q);
    assert((m * q) % m == 0) by {
        vstd::arithmetic::div_mod::lemma_mod_multiples_basic(q, m);
        assert(m * q == q * m) by (nonlinear_arith);
    }
}

/// In a tree of depth `D` over a play area whose width and height are
/// multiples of `2^D`, every leaf covers `1 / 4^D` of the play area.
pub proof fn lemma_leaf_area(tree: StaticQuadTree, screen_size: Vec2, leaf: int)
    requires
        tree.wf(),
        screen_size.x > 0,
        screen_size.y > 0,
        tree@[0].bounds == play_area(screen_size),
        (screen_size.x as int) % (pow2(tree.depth()) as int) == 0,
        (screen_size.y as int) % (pow2(tree.depth()) as int) == 0,
        0 <= leaf < tree@.len(),
        tree@[leaf].children is None,
    ensures
        tree@[leaf].bounds.area() * pow4(tree.depth()) == screen_size.x * screen_size.y,
{
    let depth = tree.depth();
    let m = pow2((depth - 1) as nat) as int;
    lemma_pow2_positive((depth - 1) as nat);
    assert(pow2(depth) == 2 * m);
    lemma_half_of_multiple(screen_size.x as int, m);
    lemma_half_of_multiple(screen_size.y as int, m);
    let root = tree@[0].bounds;
    assert(root.width() == screen_size.x);
    assert(root.height() == screen_size.y);
    lemma_leaf_sides(tree@, 0, 1, depth, leaf);
    lemma_pow4_is_pow2_squared(depth);
    let w = tree@[leaf].bounds.width();
    let h = tree@[leaf].bounds.height();
    let p = pow2(depth) as int;
    assert((w * h) * (p * p) == (w * p) * (h * p)) by (nonlinear_arith);
}

/// A tree of depth `D` has `(4^(D + 1) - 1) / 3` nodes.
pub proof fn lemma_tree_node_count(tree: StaticQuadTree)
    requires
        tree.wf(),
    ensures
        tree@.len() == (pow4(tree.depth() + 1) - 1) / 3,
{
    crate::static_quadtree::lemma_node_count_closed_form(tree.depth());
}

/// The walk down to the home node of a target takes at most as many steps
/// as the tree is deep.
pub proof fn lemma_home_node_within_depth(tree: StaticQuadTree, target: Rect2D)
    requires
        tree.wf(),
    ensures
        exists|steps: nat| steps <= tree.depth() && reaches(tree@, 0, tree.home_node(target), steps),
{
    lemma_descend_in_span(tree@, 0, 1, tree.depth(), target);
    let steps = lemma_span_reached(tree@, 0, 1, tree.depth(), tree.home_node(target));
    assert(steps <= tree.depth() && reaches(tree@, 0, tree.home_node(target), steps));
}

/// Two subtrees of the same height that start at the same index and whose
/// roots cover the same rectangle hold the same nodes.
pub proof fn lemma_layout_determines_nodes(
    a: Seq<StaticQuadTreeNode>,
    b: Seq<StaticQuadTreeNode>,
    i: int,
    first: int,
    height: nat,
    j: int,
)
    requires
        layout(a, i, first, height),
        layout(b, i, first, height),
        a[i].bounds == b[i].bounds,
        in_span(j, i, first, height),
    ensures
        a[j].bounds == b[j].bounds,
        a[j].children is Some <==> b[j].children is Some,
        a[j].children is Some ==> a[j].children->0@ =~= b[j].children->0@,
    decreases height,
{
    if j == i {
        if height > 0 {
            let ca = a[i].children->0;
            let cb = b[i].children->0;
            assert(ca@ =~= cb@);
        }
    } else {
        lemma_span_step(a, i, first, height, j);
        lemma_span_step(b, i, first, height, j);
        let k = child_holding(j, first, height);
        let below = (height - 1) as nat;
        lemma_layout_determines_nodes(a, b, first + k, first + 4 + k * subtree_size(below), below, j);
    }
}

/// A tree is determined by its play area and its depth: two trees of the
/// same depth over the same play area have the same nodes, index by index.
pub proof fn lemma_tree_is_determined(first: StaticQuadTree, second: StaticQuadTree, j: int)
    requires
        first.wf(),
        second.wf(),
        first.depth() == second.depth(),
        first@[0].bounds == second@[0].bounds,
        0 <= j < first@.len(),
    ensures
        first@.len() == second@.len(),
        first@[j].bounds == second@[j].bounds,
        first@[j].children is Some <==> second@[j].children is Some,
        first@[j].children is Some ==> first@[j].children->0@ =~= second@[j].children->0@,
{
    lemma_layout_determines_nodes(first@, second@, 0, 1, first.depth(), j);
}

} // verus!
