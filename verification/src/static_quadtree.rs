//! A quadtree over the play area, built once and never changed.
use vstd::prelude::*;
use crate::node_set::NodeSet;
use crate::rect2d::Rect2D;
use crate::rect2d::lemma_quadrant_inside;
use crate::vector::Vec2;

verus! {

/// One node of the tree: the area it covers and, unless it is a leaf, the
/// indices of its four children.
#[derive(Clone, Copy, Debug)]
pub struct StaticQuadTreeNode {
    pub bounds: Rect2D,
    pub children: Option<[usize; 4]>,
}

/// How many nodes lie below a node that has `height` levels under it.
pub open spec fn subtree_size(height: nat) -> nat
    decreases height,
{
    if height == 0 {
        0
    } else {
        4 + 4 * subtree_size((height - 1) as nat)
    }
}

/// How many nodes a tree of the given depth has: one root, four nodes one
/// level down, sixteen below those, and so on.
pub open spec fn node_count(depth: nat) -> nat {
    1 + subtree_size(depth)
}

/// `4` to the power `n`.
pub open spec fn pow4(n: nat) -> nat
    decreases n,
{
    if n == 0 {
        1
    } else {
        4 * pow4((n - 1) as nat)
    }
}

/// `2` to the power `n`.
pub open spec fn pow2(n: nat) -> nat
    decreases n,
{
    if n == 0 {
        1
    } else {
        2 * pow2((n - 1) as nat)
    }
}

/// The rectangle of the given size centered on the origin.
pub open spec fn play_area(screen_size: Vec2) -> Rect2D {
    Rect2D {
        min: Vec2 { x: (0 - screen_size.x / 2) as i64, y: (0 - screen_size.y / 2) as i64 },
        max: Vec2 { x: (screen_size.x / 2) as i64, y: (screen_size.y / 2) as i64 },
    }
}

/// Child `k` of node `i` sits at `first + k`, covers quadrant `k` of its
/// parent, and heads a subtree of height `height` whose other nodes follow
/// those of the children before it.
pub open spec fn child_laid_out(
    nodes: Seq<StaticQuadTreeNode>,
    i: int,
    first: int,
    height: nat,
    k: int,
) -> bool
    decreases height, 1nat,
{
    &&& nodes[first + k].bounds == nodes[i].bounds.quadrant(k)
    &&& layout(nodes, first + k, first + 4 + k * subtree_size(height), height)
}

/// The subtree under node `i` is complete with `height` levels below `i`,
/// and its nodes other than `i` fill the indices from `first` on, in the
/// order in which a depth-first subdivision appends them: the four children
/// of a node side by side, then all that lies under the first child, then
/// all under the second, and so on.
pub open spec fn layout(nodes: Seq<StaticQuadTreeNode>, i: int, first: int, height: nat) -> bool
    decreases height, 0nat,
{
    &&& 0 <= i < nodes.len()
    &&& if height == 0 {
        nodes[i].children is None
    } else {
        &&& i < first
        &&& first + subtree_size(height) <= nodes.len()
        &&& nodes[i].children matches Some(c) && c[0] == first && c[1] == first + 1 && c[2]
            == first + 2 && c[3] == first + 3
        &&& child_laid_out(nodes, i, first, (height - 1) as nat, 0)
        &&& child_laid_out(nodes, i, first, (height - 1) as nat, 1)
        &&& child_laid_out(nodes, i, first, (height - 1) as nat, 2)
        &&& child_laid_out(nodes, i, first, (height - 1) as nat, 3)
    }
}

/// Index `j` is node `i` or lies in the range that the subtree under `i`
/// fills.
pub open spec fn in_span(j: int, i: int, first: int, height: nat) -> bool {
    j == i || first <= j < first + subtree_size(height)
}

/// `child` is one of the four children of `parent`.
pub open spec fn is_child(nodes: Seq<StaticQuadTreeNode>, parent: int, child: int) -> bool {
    &&& 0 <= parent < nodes.len()
    &&& nodes[parent].children matches Some(c) && (c[0] == child || c[1] == child || c[2] == child
        || c[3] == child)
}

/// Node `to` is reached from node `from` by going down `steps` levels.
pub open spec fn reaches(nodes: Seq<StaticQuadTreeNode>, from: int, to: int, steps: nat) -> bool
    decreases steps,
{
    if steps == 0 {
        from == to && 0 <= from < nodes.len()
    } else {
        exists|m: int| #[trigger]
            is_child(nodes, from, m) && reaches(nodes, m, to, (steps - 1) as nat)
    }
}

/// Node `a` is node `d` or one of its ancestors.
pub open spec fn is_ancestor(nodes: Seq<StaticQuadTreeNode>, a: int, d: int) -> bool {
    exists|steps: nat| reaches(nodes, a, d, steps)
}

/// The closed form of the node count: `(4^(depth + 1) - 1) / 3`.
pub proof fn lemma_node_count_closed_form(depth: nat)
    ensures
        3 * node_count(depth) + 1 == pow4(depth + 1),
        node_count(depth) == (pow4(depth + 1) - 1) / 3,
    decreases depth,
{
    assert(pow4(depth + 1) == 4 * pow4(depth));
    if depth > 0 {
        lemma_node_count_closed_form((depth - 1) as nat);
    } else {
        assert(pow4(0) == 1);
    }
}

/// `4^n` is the square of `2^n`.
pub proof fn lemma_pow4_is_pow2_squared(n: nat)
    ensures
        pow4(n) == pow2(n) * pow2(n),
    decreases n,
{
    if n > 0 {
        lemma_pow4_is_pow2_squared((n - 1) as nat);
        let a = pow2((n - 1) as nat);
        let b = pow2(n);
        assert(b == 2 * a);
        assert(pow4(n) == 4 * (a * a));
        assert(b * b == 4 * (a * a)) by (nonlinear_arith)
            requires
                b == 2 * a,
        ;
    } else {
        assert(pow2(0) * pow2(0) == 1) by (nonlinear_arith)
            requires
                pow2(0) == 1,
        ;
    }
}

/// A subtree only depends on its own nodes: where two node sequences agree
/// on them, the subtree is laid out in both or in neither.
pub proof fn lemma_layout_frame(
    a: Seq<StaticQuadTreeNode>,
    b: Seq<StaticQuadTreeNode>,
    i: int,
    first: int,
    height: nat,
)
    requires
        layout(a, i, first, height),
        a.len() <= b.len(),
        b[i] == a[i],
        forall|j: int| first <= j < first + subtree_size(height) ==> b[j] == a[j],
    ensures
        layout(b, i, first, height),
    decreases height, 1nat,
{
    if height > 0 {
        lemma_child_frame(a, b, i, first, height, 0);
        lemma_child_frame(a, b, i, first, height, 1);
        lemma_child_frame(a, b, i, first, height, 2);
        lemma_child_frame(a, b, i, first, height, 3);
    }
}

/// The part of [`lemma_layout_frame`] that concerns child `k`.
proof fn lemma_child_frame(
    a: Seq<StaticQuadTreeNode>,
    b: Seq<StaticQuadTreeNode>,
    i: int,
    first: int,
    height: nat,
    k: int,
)
    requires
        height > 0,
        0 <= k < 4,
        layout(a, i, first, height),
        a.len() <= b.len(),
        b[i] == a[i],
        forall|j: int| first <= j < first + subtree_size(height) ==> b[j] == a[j],
    ensures
        child_laid_out(b, i, first, (height - 1) as nat, k),
    decreases height, 0nat,
{
    let below = (height - 1) as nat;
    let s = subtree_size(below) as int;
    assert(subtree_size(height) == 4 + 4 * s);
    assert(child_laid_out(a, i, first, below, k));
    lemma_child_span(first, height, k);
    assert(b[first + k] == a[first + k]);
    lemma_layout_frame(a, b, first + k, first + 4 + k * s, below);
}

/// The range that the subtree under child `k` fills lies inside the range
/// of its parent, after the four children.
pub proof fn lemma_child_span(first: int, height: nat, k: int)
    requires
        height > 0,
        0 <= k < 4,
    ensures
        subtree_size(height) == 4 + 4 * subtree_size((height - 1) as nat),
        first + 4 <= first + 4 + k * subtree_size((height - 1) as nat),
        first + 4 + k * subtree_size((height - 1) as nat) + subtree_size((height - 1) as nat)
            == first + 4 + (k + 1) * subtree_size((height - 1) as nat),
        first + 4 + (k + 1) * subtree_size((height - 1) as nat) <= first + subtree_size(height),
{
    let s = subtree_size((height - 1) as nat) as int;
    assert(subtree_size(height) == 4 + 4 * s);
    assert(k * s >= 0 && (k + 1) * s == k * s + s && (k + 1) * s <= 4 * s) by (nonlinear_arith)
        requires
            0 <= k < 4,
            s >= 0,
    ;
}

/// Which child of a node heads the subtree that holds index `j`, where `j`
/// lies in the range under that node.
pub open spec fn child_holding(j: int, first: int, height: nat) -> int {
    let s = subtree_size((height - 1) as nat);
    if j < first + 4 {
        j - first
    } else if j < first + 4 + s {
        0
    } else if j < first + 4 + 2 * s {
        1
    } else if j < first + 4 + 3 * s {
        2
    } else {
        3
    }
}

/// An index in the range under a node is one of its children or lies under
/// one of them.
pub proof fn lemma_span_step(
    nodes: Seq<StaticQuadTreeNode>,
    i: int,
    first: int,
    height: nat,
    j: int,
)
    requires
        layout(nodes, i, first, height),
        j != i,
        in_span(j, i, first, height),
    ensures
        height > 0,
        0 <= child_holding(j, first, height) < 4,
        is_child(nodes, i, first + child_holding(j, first, height)),
        child_laid_out(nodes, i, first, (height - 1) as nat, child_holding(j, first, height)),
        in_span(
            j,
            first + child_holding(j, first, height),
            first + 4 + child_holding(j, first, height) * subtree_size((height - 1) as nat),
            (height - 1) as nat,
        ),
{
    let k = child_holding(j, first, height);
    lemma_child_span(first, height, 0);
    lemma_child_span(first, height, 1);
    lemma_child_span(first, height, 2);
    lemma_child_span(first, height, 3);
    let below = (height - 1) as nat;
    assert(child_laid_out(nodes, i, first, below, 0));
    assert(child_laid_out(nodes, i, first, below, 1));
    assert(child_laid_out(nodes, i, first, below, 2));
    assert(child_laid_out(nodes, i, first, below, 3));
}

/// The span of a child's subtree lies inside the span of its parent's.
pub proof fn lemma_child_span_inside(i: int, first: int, height: nat, k: int, m: int)
    requires
        height > 0,
        0 <= k < 4,
        in_span(m, first + k, first + 4 + k * subtree_size((height - 1) as nat), (height - 1) as nat),
    ensures
        in_span(m, i, first, height),
{
    lemma_child_span(first, height, k);
}

/// Within a subtree whose root covers a well-formed rectangle, every node
/// covers a well-formed rectangle inside that of the root.
pub proof fn lemma_span_enclosed(
    nodes: Seq<StaticQuadTreeNode>,
    i: int,
    first: int,
    height: nat,
    j: int,
)
    requires
        layout(nodes, i, first, height),
        nodes[i].bounds.wf(),
        in_span(j, i, first, height),
    ensures
        0 <= j < nodes.len(),
        nodes[j].bounds.wf(),
        nodes[i].bounds.encloses(nodes[j].bounds),
    decreases height,
{
    if j != i {
        lemma_span_step(nodes, i, first, height, j);
        let k = child_holding(j, first, height);
        let below = (height - 1) as nat;
        lemma_quadrant_inside(nodes[i].bounds, k);
        lemma_span_enclosed(nodes, first + k, first + 4 + k * subtree_size(below), below, j);
    }
}

/// Every node in a subtree heads a subtree of its own, which lies inside the
/// first. The result gives where the smaller one starts and its height.
pub proof fn lemma_span_locate(
    nodes: Seq<StaticQuadTreeNode>,
    i: int,
    first: int,
    height: nat,
    j: int,
) -> (loc: (int, nat))
    requires
        layout(nodes, i, first, height),
        in_span(j, i, first, height),
    ensures
        layout(nodes, j, loc.0, loc.1),
        loc.1 <= height,
        forall|m: int| in_span(m, j, loc.0, loc.1) ==> in_span(m, i, first, height),
    decreases height,
{
    if j == i {
        (first, height)
    } else {
        lemma_span_step(nodes, i, first, height, j);
        let k = child_holding(j, first, height);
        let below = (height - 1) as nat;
        let start = first + 4 + k * subtree_size(below);
        let loc = lemma_span_locate(nodes, first + k, start, below, j);
        assert forall|m: int| in_span(m, j, loc.0, loc.1) implies in_span(m, i, first, height) by {
            assert(in_span(m, first + k, start, below));
            lemma_child_span_inside(i, first, height, k, m);
        }
        loc
    }
}

/// Every node in a subtree is reached from its root by going down. The
/// result gives the number of levels.
pub proof fn lemma_span_reached(
    nodes: Seq<StaticQuadTreeNode>,
    i: int,
    first: int,
    height: nat,
    j: int,
) -> (steps: nat)
    requires
        layout(nodes, i, first, height),
        in_span(j, i, first, height),
    ensures
        reaches(nodes, i, j, steps),
        steps <= height,
        is_ancestor(nodes, i, j),
    decreases height,
{
    if j == i {
        assert(reaches(nodes, i, j, 0));
        0
    } else {
        lemma_span_step(nodes, i, first, height, j);
        let k = child_holding(j, first, height);
        let below = (height - 1) as nat;
        let start = first + 4 + k * subtree_size(below);
        let steps = lemma_span_reached(nodes, first + k, start, below, j);
        assert(is_child(nodes, i, first + k) && reaches(nodes, first + k, j, steps));
        assert(reaches(nodes, i, j, steps + 1));
        steps + 1
    }
}

/// Going down from the root of a subtree never leaves it.
pub proof fn lemma_reach_in_span(
    nodes: Seq<StaticQuadTreeNode>,
    i: int,
    first: int,
    height: nat,
    j: int,
    steps: nat,
)
    requires
        layout(nodes, i, first, height),
        reaches(nodes, i, j, steps),
    ensures
        in_span(j, i, first, height),
    decreases steps,
{
    if steps > 0 {
        let m = choose|m: int| #[trigger]
            is_child(nodes, i, m) && reaches(nodes, m, j, (steps - 1) as nat);
        let below = (height - 1) as nat;
        let k = m - first;
        assert(height > 0);
        assert(0 <= k < 4);
        assert(child_laid_out(nodes, i, first, below, 0));
        assert(child_laid_out(nodes, i, first, below, 1));
        assert(child_laid_out(nodes, i, first, below, 2));
        assert(child_laid_out(nodes, i, first, below, 3));
        let start = first + 4 + k * subtree_size(below);
        lemma_reach_in_span(nodes, m, start, below, j, (steps - 1) as nat);
        lemma_child_span_inside(i, first, height, k, j);
    }
}

/// The one child among `c` whose bounds intersect `target`, if there is
/// exactly one.
pub open spec fn sole_child(nodes: Seq<StaticQuadTreeNode>, c: [usize; 4], target: Rect2D) -> Option<
    usize,
> {
    let h0 = nodes[c[0] as int].bounds.intersects(target);
    let h1 = nodes[c[1] as int].bounds.intersects(target);
    let h2 = nodes[c[2] as int].bounds.intersects(target);
    let h3 = nodes[c[3] as int].bounds.intersects(target);
    if h0 && !h1 && !h2 && !h3 {
        Some(c[0])
    } else if !h0 && h1 && !h2 && !h3 {
        Some(c[1])
    } else if !h0 && !h1 && h2 && !h3 {
        Some(c[2])
    } else if !h0 && !h1 && !h2 && h3 {
        Some(c[3])
    } else {
        None
    }
}

/// Where a walk down from node `i` ends that at each node goes on into the
/// one child that intersects `target`, and stops at a leaf or where none or
/// several children intersect it.
pub open spec fn descend(nodes: Seq<StaticQuadTreeNode>, i: int, target: Rect2D) -> int
    decreases nodes.len() - i,
{
    if 0 <= i < nodes.len() {
        match nodes[i].children {
            Some(c) => match sole_child(nodes, c, target) {
                Some(next) => if i < next < nodes.len() {
                    descend(nodes, next as int, target)
                } else {
                    i
                },
                None => i,
            },
            None => i,
        }
    } else {
        i
    }
}

/// The nodes in the subtree under `i` whose bounds intersect `target`.
pub open spec fn span_hits(
    nodes: Seq<StaticQuadTreeNode>,
    i: int,
    first: int,
    height: nat,
    target: Rect2D,
) -> Set<usize> {
    Set::new(|j: usize| in_span(j as int, i, first, height) && nodes[j as int].bounds.intersects(target))
}

/// A deeper tree has more nodes.
pub proof fn lemma_subtree_size_grows(lower: nat, higher: nat)
    requires
        lower <= higher,
    ensures
        subtree_size(lower) <= subtree_size(higher),
    decreases higher,
{
    if lower < higher {
        lemma_subtree_size_grows(lower, (higher - 1) as nat);
    }
}

/// The number of nodes of a tree of depth `max_depth`, if it fits into a
/// `usize`.
pub fn checked_node_count(max_depth: usize) -> (count: Option<usize>)
    ensures
        match count {
            Some(n) => n == node_count(max_depth as nat),
            None => node_count(max_depth as nat) > usize::MAX,
        },
{
    let mut below: usize = 0;
    let mut depth: usize = 0;
    while depth < max_depth
        invariant
            0 <= depth <= max_depth,
            below == subtree_size(depth as nat),
        decreases max_depth - depth,
    {
        proof {
            lemma_subtree_size_grows((depth + 1) as nat, max_depth as nat);
        }
        match below.checked_mul(4) {
            Some(fourfold) => match fourfold.checked_add(4) {
                Some(next) => {
                    below = next;
                },
                None => {
                    return None;
                },
            },
            None => {
                return None;
            },
        }
        depth += 1;
    }
    below.checked_add(1)
}

/// The quadtree: its nodes in one array, the root at index 0.
#[derive(Debug)]
pub struct StaticQuadTree {
    nodes: Vec<StaticQuadTreeNode>,
    max_depth: usize,
}

impl StaticQuadTree {
    /// The nodes of the tree, the root first.
    pub closed spec fn view(&self) -> Seq<StaticQuadTreeNode> {
        self.nodes@
    }

    /// The number of levels below the root.
    pub closed spec fn depth(&self) -> nat {
        self.max_depth as nat
    }

    /// The tree is complete to its depth, laid out depth-first from the root,
    /// and covers a well-formed area.
    pub open spec fn wf(&self) -> bool {
        &&& self.depth() >= 1
        &&& self@.len() == node_count(self.depth())
        &&& self@.len() <= usize::MAX
        &&& layout(self@, 0, 1, self.depth())
        &&& self@[0].bounds.wf()
    }

    /// Every tree is well-formed.
    #[verifier::type_invariant]
    pub open spec fn well_formed(&self) -> bool {
        self.wf()
    }

    /// The smallest node that alone answers for `target`: where the walk
    /// down from the root ends.
    pub open spec fn home_node(&self, target: Rect2D) -> int {
        descend(self@, 0, target)
    }

    /// The nodes, at every level, whose bounds intersect `target`.
    pub open spec fn overlapping(&self, target: Rect2D) -> Set<usize> {
        Set::new(|j: usize| j < self@.len() && self@[j as int].bounds.intersects(target))
    }

    /// Node `index` and the nodes under it, as far as their bounds intersect
    /// `target`.
    pub open spec fn subtree_hits(&self, index: int, target: Rect2D) -> Set<usize> {
        Set::new(
            |j: usize| is_ancestor(self@, index, j as int) && self@[j as int].bounds.intersects(target),
        )
    }

    /// The number of nodes.
    pub fn len(&self) -> (n: usize)
        ensures
            n == self@.len(),
            self.wf(),
    {
        proof {
            use_type_invariant(self);
        }
        self.nodes.len()
    }

    /// The number of levels below the root.
    pub fn max_depth(&self) -> (depth: usize)
        ensures
            depth == self.depth(),
            self.wf(),
    {
        proof {
            use_type_invariant(self);
        }
        self.max_depth
    }

    /// Node `index`, if the tree has that many nodes.
    pub fn node(&self, index: usize) -> (node: Option<StaticQuadTreeNode>)
        ensures
            index < self@.len() ==> node == Some(self@[index as int]),
            index >= self@.len() ==> node is None,
    {
        if index < self.nodes.len() {
            Some(self.nodes[index])
        } else {
            None
        }
    }

    /// Builds the tree as [`Self::new`] does, if it can be built: if the play
    /// area has a positive width and height, there is at least one level
    /// below the root, and the number of nodes fits into a `usize`.
    pub fn try_new(screen_size: Vec2, max_depth: usize) -> (built: Option<Self>)
        ensures
            built is Some <==> screen_size.x > 0 && screen_size.y > 0 && max_depth >= 1 && node_count(
                max_depth as nat,
            ) <= usize::MAX,
            built matches Some(tree) ==> tree.wf() && tree.depth() == max_depth && tree@[0].bounds
                == play_area(screen_size),
    {
        if screen_size.x <= 0 || screen_size.y <= 0 || max_depth < 1 {
            return None;
        }
        match checked_node_count(max_depth) {
            Some(_) => Some(Self::new(screen_size, max_depth)),
            None => None,
        }
    }

    /// Builds the tree over a play area of `screen_size`, centered on the
    /// origin, with `max_depth` levels below the root.
    pub fn new(screen_size: Vec2, max_depth: usize) -> (tree: Self)
        requires
            screen_size.x > 0,
            screen_size.y > 0,
            max_depth >= 1,
            node_count(max_depth as nat) <= usize::MAX,
        ensures
            tree.wf(),
            tree.depth() == max_depth,
            tree@.len() == node_count(max_depth as nat),
            tree@[0].bounds == play_area(screen_size),
    {
        let mut nodes: Vec<StaticQuadTreeNode> = Vec::new();
        let half = Vec2::new(screen_size.x / 2, screen_size.y / 2);
        let top = StaticQuadTreeNode {
            bounds: Rect2D::new(Vec2::new(0 - half.x, 0 - half.y), Vec2::new(half.x, half.y)),
            children: None,
        };
        nodes.push(top);
        Self::subdivide(&mut nodes, 0, 1, max_depth);
        Self { nodes, max_depth }
    }

    /// Gives node `index` four children at the end of `nodes`, one for each
    /// quadrant of its bounds, and subdivides them in turn until `max_depth`
    /// is reached; `depth` is the level of the children.
    pub fn subdivide(
        nodes: &mut Vec<StaticQuadTreeNode>,
        index: usize,
        depth: usize,
        max_depth: usize,
    )
        requires
            index < old(nodes).len(),
            1 <= depth <= max_depth,
            old(nodes).len() + subtree_size((max_depth - depth + 1) as nat) <= usize::MAX,
        ensures
            final(nodes).len() == old(nodes).len() + subtree_size((max_depth - depth + 1) as nat),
            forall|j: int| 0 <= j < old(nodes).len() && j != index ==> final(nodes)[j] == old(nodes)[j],
            final(nodes)[index as int].bounds == old(nodes)[index as int].bounds,
            layout(final(nodes)@, index as int, old(nodes).len() as int, (max_depth - depth + 1) as nat),
        decreases max_depth - depth,
    {
        let ghost height = (max_depth - depth + 1) as nat;
        let ghost below = (height - 1) as nat;
        let ghost s = subtree_size(below) as int;
        let ghost first = nodes.len() as int;
        assert(subtree_size(height) == 4 + 4 * s);
        let bounds = nodes[index].bounds;
        let children = bounds.quadrants();
        let base = nodes.len();
        let child_index = [base, base + 1, base + 2, base + 3];
        nodes.set(index, StaticQuadTreeNode { bounds, children: Some(child_index) });
        let mut k: usize = 0;
        while k < 4
            invariant
                0 <= k <= 4,
                children@.len() == 4,
                nodes.len() == base + k,
                base == old(nodes).len(),
                index < base,
                base + 4 + 4 * s <= usize::MAX,
                forall|j: int| 0 <= j < base && j != index ==> nodes[j] == old(nodes)[j],
                nodes[index as int] == (StaticQuadTreeNode { bounds, children: Some(child_index) }),
                forall|m: int| 0 <= m < k ==> #[trigger] nodes[base + m] == (StaticQuadTreeNode {
                    bounds: children@[m],
                    children: None,
                }),
            decreases 4 - k,
        {
            nodes.push(StaticQuadTreeNode { bounds: children[k], children: None });
            k += 1;
        }
        assert forall|m: int| 0 <= m < 4 implies (#[trigger] nodes[base + m]).bounds
            == bounds.quadrant(m) by {
            assert(children@[m] == bounds.quadrant(m));
        }
        if depth < max_depth {
            let mut k: usize = 0;
            while k < 4
                invariant
                    0 <= k <= 4,
                    depth < max_depth,
                    height == (max_depth - depth + 1) as nat,
                    below == (height - 1) as nat,
                    s == subtree_size(below),
                    first == base,
                    base == old(nodes).len(),
                    index < base,
                    base + 4 + 4 * s <= usize::MAX,
                    nodes.len() == base + 4 + k * s,
                    child_index[0] == base && child_index[1] == base + 1 && child_index[2] == base
                        + 2 && child_index[3] == base + 3,
                    forall|j: int| 0 <= j < base && j != index ==> nodes[j] == old(nodes)[j],
                    nodes[index as int] == (StaticQuadTreeNode {
                        bounds,
                        children: Some(child_index),
                    }),
                    forall|m: int| 0 <= m < 4 ==> (#[trigger] nodes[base + m]).bounds == bounds.quadrant(m),
                    forall|m: int| k <= m < 4 ==> (#[trigger] nodes[base + m]).children is None,
                    forall|m: int|
                        0 <= m < k ==> #[trigger] layout(nodes@, first + m, first + 4 + m * s, below),
                decreases 4 - k,
            {
                let ghost before = nodes@;
                proof {
                    lemma_child_span(first, height, k as int);
                }
                Self::subdivide(nodes, child_index[k], depth + 1, max_depth);
                proof {
                    assert forall|m: int| 0 <= m < k implies #[trigger] layout(
                        nodes@,
                        first + m,
                        first + 4 + m * s,
                        below,
                    ) by {
                        assert(layout(before, first + m, first + 4 + m * s, below));
                        lemma_child_span(first, height, m);
                        assert((m + 1) * s <= k * s) by (nonlinear_arith)
                            requires
                                0 <= m < k,
                                s >= 0,
                        ;
                        lemma_layout_frame(before, nodes@, first + m, first + 4 + m * s, below);
                    }
                    assert forall|m: int| 0 <= m < 4 implies (#[trigger] nodes[base + m]).bounds
                        == bounds.quadrant(m) by {
                        assert(before[base + m].bounds == bounds.quadrant(m));
                    }
                }
                k += 1;
            }
        }
        proof {
            assert forall|m: int| 0 <= m < 4 implies #[trigger] child_laid_out(
                nodes@,
                index as int,
                first,
                below,
                m,
            ) by {
                assert(nodes[first + m].bounds == bounds.quadrant(m));
                if depth < max_depth {
                    assert(layout(nodes@, first + m, first + 4 + m * s, below));
                } else {
                    assert(below == 0);
                    assert(nodes[first + m].children is None);
                }
            }
            assert(child_laid_out(nodes@, index as int, first, below, 0));
            assert(child_laid_out(nodes@, index as int, first, below, 1));
            assert(child_laid_out(nodes@, index as int, first, below, 2));
            assert(child_laid_out(nodes@, index as int, first, below, 3));
            assert(layout(nodes@, index as int, first, height));
        }
    }

    /// The child among `children` that alone intersects `target`.
    fn sole_intersecting_child(&self, children: &[usize; 4], target: &Rect2D) -> (found: Option<usize>)
        requires
            forall|k: int| 0 <= k < 4 ==> children[k] < self.nodes.len(),
        ensures
            found == sole_child(self.nodes@, *children, *target),
    {
        let h0 = self.nodes[children[0]].bounds.intersect(target);
        let h1 = self.nodes[children[1]].bounds.intersect(target);
        let h2 = self.nodes[children[2]].bounds.intersect(target);
        let h3 = self.nodes[children[3]].bounds.intersect(target);
        if h0 && !h1 && !h2 && !h3 {
            Some(children[0])
        } else if !h0 && h1 && !h2 && !h3 {
            Some(children[1])
        } else if !h0 && !h1 && h2 && !h3 {
            Some(children[2])
        } else if !h0 && !h1 && !h2 && h3 {
            Some(children[3])
        } else {
            None
        }
    }

    /// The index of the smallest node that alone answers for `target`.
    /// Starting at the root, the walk goes on into a child as long as
    /// exactly one child intersects `target`.
    pub fn smallest_node(&self, target: &Rect2D) -> (index: usize)
        ensures
            index == self.home_node(*target),
            index < self@.len(),
    {
        proof {
            use_type_invariant(self);
        }
        let mut current_index: usize = 0;
        let ghost mut first: int = 1;
        let ghost mut height: nat = self.depth();
        loop
            invariant
                layout(self.nodes@, current_index as int, first, height),
                descend(self.nodes@, current_index as int, *target) == descend(
                    self.nodes@,
                    0,
                    *target,
                ),
            ensures
                current_index == descend(self.nodes@, 0, *target),
                current_index < self.nodes.len(),
            decreases height,
        {
            match self.nodes[current_index].children {
                Some(children) => {
                    let ghost below = (height - 1) as nat;
                    proof {
                        assert(child_laid_out(self.nodes@, current_index as int, first, below, 0));
                        assert(child_laid_out(self.nodes@, current_index as int, first, below, 1));
                        assert(child_laid_out(self.nodes@, current_index as int, first, below, 2));
                        assert(child_laid_out(self.nodes@, current_index as int, first, below, 3));
                    }
                    match self.sole_intersecting_child(&children, target) {
                        Some(next) => {
                            proof {
                                first = first + 4 + (next - first) * subtree_size(below);
                                height = below;
                            }
                            current_index = next;
                        },
                        None => {
                            break ;
                        },
                    }
                },
                None => {
                    break ;
                },
            }
        }
        current_index
    }

    /// All nodes whose bounds intersect `target`.
    pub fn intersecting_nodes(&self, target: &Rect2D) -> (result: NodeSet)
        ensures
            result@ == self.overlapping(*target),
    {
        proof {
            use_type_invariant(self);
        }
        let mut result = NodeSet::new();
        self.intersect(0, &mut result, target);
        proof {
            assert forall|j: usize| self.overlapping(*target).contains(j) implies self.subtree_hits(
                0,
                *target,
            ).contains(j) by {
                lemma_span_reached(self.nodes@, 0, 1, self.depth(), j as int);
            }
            assert forall|j: usize| self.subtree_hits(0, *target).contains(j) implies self.overlapping(
                *target,
            ).contains(j) by {
                let steps = choose|steps: nat| reaches(self.nodes@, 0, j as int, steps);
                lemma_reach_in_span(self.nodes@, 0, 1, self.depth(), j as int, steps);
            }
            assert(result@ =~= self.overlapping(*target));
        }
        result
    }

    /// Adds to `result` node `index` and the nodes under it, as far as their
    /// bounds intersect `target`.
    pub fn intersect(&self, index: usize, result: &mut NodeSet, target: &Rect2D)
        requires
            index < self@.len(),
        ensures
            final(result)@ == old(result)@.union(self.subtree_hits(index as int, *target)),
    {
        let ghost mut loc: (int, nat) = (0, 0);
        proof {
            use_type_invariant(self);
            loc = lemma_span_locate(self.nodes@, 0, 1, self.depth(), index as int);
            lemma_span_enclosed(self.nodes@, 0, 1, self.depth(), index as int);
        }
        self.intersect_within(index, result, target, Ghost(loc.0), Ghost(loc.1));
        proof {
            let within = span_hits(self.nodes@, index as int, loc.0, loc.1, *target);
            assert forall|j: usize| within.contains(j) implies self.subtree_hits(
                index as int,
                *target,
            ).contains(j) by {
                lemma_span_reached(self.nodes@, index as int, loc.0, loc.1, j as int);
            }
            assert forall|j: usize|
                self.subtree_hits(index as int, *target).contains(j) implies within.contains(j) by {
                let steps = choose|steps: nat| reaches(self.nodes@, index as int, j as int, steps);
                lemma_reach_in_span(self.nodes@, index as int, loc.0, loc.1, j as int, steps);
            }
            assert(within =~= self.subtree_hits(index as int, *target));
        }
    }

    /// Adds to `result` the nodes in the subtree under `index`, which starts
    /// at `first` and is `height` levels high, as far as their bounds
    /// intersect `target`.
    fn intersect_within(
        &self,
        index: usize,
        result: &mut NodeSet,
        target: &Rect2D,
        Ghost(first): Ghost<int>,
        Ghost(height): Ghost<nat>,
    )
        requires
            layout(self.nodes@, index as int, first, height),
            self.nodes@[index as int].bounds.wf(),
        ensures
            final(result)@ == old(result)@.union(
                span_hits(self.nodes@, index as int, first, height, *target),
            ),
        decreases height,
    {
        let ghost wanted = span_hits(self.nodes@, index as int, first, height, *target);
        if self.nodes[index].bounds.intersect(target) {
            result.insert(index);
            match self.nodes[index].children {
                Some(children) => {
                    let ghost below = (height - 1) as nat;
                    let ghost s = subtree_size(below) as int;
                    let mut k: usize = 0;
                    while k < 4
                        invariant
                            0 <= k <= 4,
                            height > 0,
                            below == (height - 1) as nat,
                            s == subtree_size(below),
                            layout(self.nodes@, index as int, first, height),
                            self.nodes@[index as int].bounds.wf(),
                            self.nodes@[index as int].children == Some(children),
                            result@ == old(result)@.union(
                                Set::new(
                                    |j: usize|
                                        (j == index || first <= j < first + k || first + 4 <= j < first
                                            + 4 + k * s) && self.nodes@[j as int].bounds.intersects(
                                            *target,
                                        ),
                                ),
                            ),
                        decreases 4 - k,
                    {
                        let ghost before = result@;
                        let ghost start = first + 4 + k * s;
                        proof {
                            lemma_child_span(first, height, k as int);
                            lemma_quadrant_inside(self.nodes@[index as int].bounds, k as int);
                            assert(child_laid_out(self.nodes@, index as int, first, below, 0));
                            assert(child_laid_out(self.nodes@, index as int, first, below, 1));
                            assert(child_laid_out(self.nodes@, index as int, first, below, 2));
                            assert(child_laid_out(self.nodes@, index as int, first, below, 3));
                            assert(child_laid_out(self.nodes@, index as int, first, below, k as int));
                        }
                        self.intersect_within(children[k], result, target, Ghost(start), Ghost(below));
                        proof {
                            assert(result@ =~= old(result)@.union(
                                Set::new(
                                    |j: usize|
                                        (j == index || first <= j < first + (k + 1) || first + 4 <= j
                                            < first + 4 + (k + 1) * s)
                                            && self.nodes@[j as int].bounds.intersects(*target),
                                ),
                            ));
                        }
                        k += 1;
                    }
                    proof {
                        assert(subtree_size(height) == 4 + 4 * s);
                        assert(result@ =~= old(result)@.union(wanted));
                    }
                },
                None => {
                    proof {
                        assert(result@ =~= old(result)@.union(wanted));
                    }
                },
            }
        } else {
            proof {
                assert forall|j: usize| in_span(j as int, index as int, first, height) implies !self.nodes@[j as int].bounds.intersects(
                    *target,
                ) by {
                    lemma_span_enclosed(self.nodes@, index as int, first, height, j as int);
                }
                assert(result@ =~= old(result)@.union(wanted));
            }
        }
    }
}

} // verus!
