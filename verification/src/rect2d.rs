//! Axis-aligned rectangles.
use vstd::prelude::*;
use crate::vector::{mid, midpoint, Vec2};

verus! {

/// An axis-aligned rectangle given by its lower and upper corner. Edges and
/// corners belong to the rectangle.
#[derive(Clone, Copy, Debug, PartialEq, Eq, Structural)]
pub struct Rect2D {
    pub min: Vec2,
    pub max: Vec2,
}

impl Rect2D {
    /// The lower corner is not above the upper corner on either axis.
    pub open spec fn wf(self) -> bool {
        self.min.x <= self.max.x && self.min.y <= self.max.y
    }

    /// The point `(x, y)` lies in the rectangle, edges included.
    pub open spec fn contains_point(self, x: int, y: int) -> bool {
        self.min.x <= x <= self.max.x && self.min.y <= y <= self.max.y
    }

    /// Every point of `inner` lies in `self`.
    pub open spec fn encloses(self, inner: Rect2D) -> bool {
        self.min.x <= inner.min.x && inner.max.x <= self.max.x && self.min.y <= inner.min.y
            && inner.max.y <= self.max.y
    }

    /// The two rectangles overlap or touch.
    pub open spec fn intersects(self, other: Rect2D) -> bool {
        self.min.x <= other.max.x && self.max.x >= other.min.x && self.min.y <= other.max.y
            && self.max.y >= other.min.y
    }

    /// The extent along `x`.
    pub open spec fn width(self) -> int {
        self.max.x - self.min.x
    }

    /// The extent along `y`.
    pub open spec fn height(self) -> int {
        self.max.y - self.min.y
    }

    /// Width times height.
    pub open spec fn area(self) -> int {
        self.width() * self.height()
    }

    /// The point at which the rectangle is split into quadrants.
    pub open spec fn center(self) -> Vec2 {
        Vec2 {
            x: midpoint(self.min.x as int, self.max.x as int) as i64,
            y: midpoint(self.min.y as int, self.max.y as int) as i64,
        }
    }

    /// Quadrant `k` of the rectangle: 0 and 1 are the lower pair, 2 and 3 the
    /// upper pair, each pair from low `x` to high `x`.
    pub open spec fn quadrant(self, k: int) -> Rect2D {
        let c = self.center();
        if k == 0 {
            Rect2D { min: self.min, max: c }
        } else if k == 1 {
            Rect2D { min: Vec2 { x: c.x, y: self.min.y }, max: Vec2 { x: self.max.x, y: c.y } }
        } else if k == 2 {
            Rect2D { min: Vec2 { x: self.min.x, y: c.y }, max: Vec2 { x: c.x, y: self.max.y } }
        } else {
            Rect2D { min: c, max: self.max }
        }
    }

    /// The rectangle from `min` to `max`.
    pub fn new(min: Vec2, max: Vec2) -> (r: Self)
        ensures
            r.min == min,
            r.max == max,
    {
        Rect2D { min, max }
    }

    /// Whether the two rectangles overlap or touch.
    pub fn intersect(&self, other: &Self) -> (hit: bool)
        ensures
            hit == self.intersects(*other),
    {
        self.min.x <= other.max.x && self.max.x >= other.min.x && self.min.y <= other.max.y
            && self.max.y >= other.min.y
    }

    /// The four quadrants around the center, in the order of [`Self::quadrant`].
    pub fn quadrants(&self) -> (quads: Vec<Self>)
        ensures
            quads@.len() == 4,
            forall|k: int| 0 <= k < 4 ==> quads@[k] == #[trigger] self.quadrant(k),
    {
        let center = Vec2::new(mid(self.min.x, self.max.x), mid(self.min.y, self.max.y));
        let mut quads: Vec<Self> = Vec::new();
        quads.push(Self::new(self.min, center));
        quads.push(Self::new(Vec2::new(center.x, self.min.y), Vec2::new(self.max.x, center.y)));
        quads.push(Self::new(Vec2::new(self.min.x, center.y), Vec2::new(center.x, self.max.y)));
        quads.push(Self::new(center, self.max));
        quads
    }
}

/// Intersection does not depend on the order of the two rectangles.
pub proof fn lemma_intersect_symmetric(a: Rect2D, b: Rect2D)
    ensures
        a.intersects(b) == b.intersects(a),
{
}

/// Intersection is inclusive of the boundary: two rectangles that share a
/// single point, be it on an edge or at a corner, intersect.
pub proof fn lemma_intersect_boundary_inclusive(a: Rect2D, b: Rect2D, x: int, y: int)
    requires
        a.contains_point(x, y),
        b.contains_point(x, y),
    ensures
        a.intersects(b),
{
}

/// Two well-formed rectangles intersect exactly when they have a point in
/// common.
pub proof fn lemma_intersect_iff_common_point(a: Rect2D, b: Rect2D)
    requires
        a.wf(),
        b.wf(),
    ensures
        a.intersects(b) <==> exists|x: int, y: int|
            #[trigger] a.contains_point(x, y) && b.contains_point(x, y),
{
    if a.intersects(b) {
        let x = if a.min.x >= b.min.x { a.min.x as int } else { b.min.x as int };
        let y = if a.min.y >= b.min.y { a.min.y as int } else { b.min.y as int };
        assert(a.contains_point(x, y) && b.contains_point(x, y));
    }
}

/// The center of a well-formed rectangle lies inside it.
pub proof fn lemma_center_inside(r: Rect2D)
    requires
        r.wf(),
    ensures
        r.min.x <= r.center().x <= r.max.x,
        r.min.y <= r.center().y <= r.max.y,
        r.center().x == midpoint(r.min.x as int, r.max.x as int),
        r.center().y == midpoint(r.min.y as int, r.max.y as int),
{
}

/// Each quadrant of a well-formed rectangle is well-formed and lies inside it.
pub proof fn lemma_quadrant_inside(r: Rect2D, k: int)
    requires
        r.wf(),
    ensures
        r.quadrant(k).wf(),
        r.encloses(r.quadrant(k)),
{
    lemma_center_inside(r);
}

/// The quadrants leave no gap: every point of a well-formed rectangle lies in
/// one of its quadrants.
pub proof fn lemma_quadrants_cover(r: Rect2D, x: int, y: int)
    requires
        r.wf(),
        r.contains_point(x, y),
    ensures
        exists|k: int| 0 <= k < 4 && #[trigger] r.quadrant(k).contains_point(x, y),
{
    lemma_center_inside(r);
    let c = r.center();
    let k: int = if x <= c.x {
        if y <= c.y { 0 } else { 2 }
    } else {
        if y <= c.y { 1 } else { 3 }
    };
    assert(r.quadrant(k).contains_point(x, y));
}

/// The quadrants overlap on their shared edges only: a point that lies in
/// two of them lies on one of the two lines through the center.
pub proof fn lemma_quadrants_share_edges_only(r: Rect2D, k1: int, k2: int, x: int, y: int)
    requires
        r.wf(),
        0 <= k1 < k2 < 4,
        r.quadrant(k1).contains_point(x, y),
        r.quadrant(k2).contains_point(x, y),
    ensures
        x == r.center().x || y == r.center().y,
{
    lemma_center_inside(r);
}

/// The quadrants tile the rectangle: their areas add up to its area.
pub proof fn lemma_quadrants_tile(r: Rect2D)
    requires
        r.wf(),
    ensures
        r.quadrant(0).area() + r.quadrant(1).area() + r.quadrant(2).area() + r.quadrant(3).area()
            == r.area(),
{
    lemma_center_inside(r);
    let c = r.center();
    let w0 = c.x - r.min.x;
    let w1 = r.max.x - c.x;
    let h0 = c.y - r.min.y;
    let h1 = r.max.y - c.y;
    assert(w0 * h0 + w1 * h0 + w0 * h1 + w1 * h1 == (w0 + w1) * (h0 + h1)) by (nonlinear_arith);
}

/// Where both sides of the rectangle have even length, every quadrant has
/// half its width and half its height, and so a quarter of its area.
pub proof fn lemma_quadrant_quarter(r: Rect2D, k: int)
    requires
        r.wf(),
        0 <= k < 4,
        r.width() % 2 == 0,
        r.height() % 2 == 0,
    ensures
        2 * r.quadrant(k).width() == r.width(),
        2 * r.quadrant(k).height() == r.height(),
        4 * r.quadrant(k).area() == r.area(),
{
    lemma_center_inside(r);
    let w = r.quadrant(k).width();
    let h = r.quadrant(k).height();
    assert(2 * w == r.width());
    assert(2 * h == r.height());
    assert(4 * (w * h) == (2 * w) * (2 * h)) by (nonlinear_arith);
}

} // verus!
