//! Bounding boxes of entities.
use vstd::prelude::*;
use crate::rect2d::Rect2D;
use crate::vector::Vec2;

verus! {

/// Half of `len`, rounded toward zero.
pub open spec fn half_extent(len: int) -> int {
    if len >= 0 {
        len / 2
    } else {
        -((-len) / 2)
    }
}

/// The extent of an entity around its center: `half_size` to either side on
/// each axis.
#[derive(Clone, Copy, Debug, PartialEq, Eq, Structural)]
pub struct AxisAlignedBoundingBox {
    pub half_size: Vec2,
}

impl AxisAlignedBoundingBox {
    /// The rectangle that the box covers around `center`. Corners that would
    /// leave the range of `i64` stop at its limits.
    pub open spec fn rect_at(self, center: Vec2) -> Rect2D {
        Rect2D { min: center.minus(self.half_size), max: center.plus(self.half_size) }
    }

    /// A box of the given full width and height.
    pub fn new(width: i64, height: i64) -> (bbox: Self)
        ensures
            bbox.half_size.x == half_extent(width as int),
            bbox.half_size.y == half_extent(height as int),
    {
        Self { half_size: Vec2::new(width / 2, height / 2) }
    }

    /// The rectangle that the box covers when centered on `translate`.
    pub fn as_rect(&self, translate: Vec2) -> (r: Rect2D)
        ensures
            r == self.rect_at(translate),
            self.half_size.x >= 0 && self.half_size.y >= 0 ==> r.wf(),
    {
        Rect2D::new(translate.saturating_sub(self.half_size), translate.saturating_add(self.half_size))
    }
}

} // verus!
