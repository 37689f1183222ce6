//! Integer vectors in two and three dimensions.
//!
//! Sums and differences saturate at the limits of `i64`, so no operation here
//! can overflow.
use vstd::prelude::*;

verus! {

/// `v` clamped into the range of `i64`.
pub open spec fn clamp_i64(v: int) -> int {
    if v < i64::MIN {
        i64::MIN as int
    } else if v > i64::MAX {
        i64::MAX as int
    } else {
        v
    }
}

/// `a + b`, saturating at the limits of `i64`.
pub fn saturating_add(a: i64, b: i64) -> (r: i64)
    ensures
        r == clamp_i64(a + b),
{
    let wide: i128 = a as i128 + b as i128;
    if wide > i64::MAX as i128 {
        i64::MAX
    } else if wide < i64::MIN as i128 {
        i64::MIN
    } else {
        wide as i64
    }
}

/// `a - b`, saturating at the limits of `i64`.
pub fn saturating_sub(a: i64, b: i64) -> (r: i64)
    ensures
        r == clamp_i64(a - b),
{
    let wide: i128 = a as i128 - b as i128;
    if wide > i64::MAX as i128 {
        i64::MAX
    } else if wide < i64::MIN as i128 {
        i64::MIN
    } else {
        wide as i64
    }
}

/// The integer nearest below the mean of `a` and `b`.
pub open spec fn midpoint(a: int, b: int) -> int {
    (a + b) / 2
}

/// Computes [`midpoint`] without overflow.
pub fn mid(a: i64, b: i64) -> (m: i64)
    ensures
        m == midpoint(a as int, b as int),
{
    let sum: i128 = a as i128 + b as i128;
    let half: i128 = if sum >= 0 {
        sum / 2
    } else {
        -((1 - sum) / 2)
    };
    half as i64
}

/// A point or displacement in the plane.
#[derive(Clone, Copy, Debug, PartialEq, Eq, Structural)]
pub struct Vec2 {
    pub x: i64,
    pub y: i64,
}

impl Vec2 {
    /// The vector `(x, y)`.
    pub fn new(x: i64, y: i64) -> (v: Self)
        ensures
            v.x == x,
            v.y == y,
    {
        Vec2 { x, y }
    }

    /// The origin.
    pub fn zero() -> (v: Self)
        ensures
            v.x == 0,
            v.y == 0,
    {
        Vec2 { x: 0, y: 0 }
    }

    /// The component-wise saturating sum.
    pub open spec fn plus(self, other: Vec2) -> Vec2 {
        Vec2 {
            x: clamp_i64(self.x + other.x) as i64,
            y: clamp_i64(self.y + other.y) as i64,
        }
    }

    /// The component-wise saturating difference.
    pub open spec fn minus(self, other: Vec2) -> Vec2 {
        Vec2 {
            x: clamp_i64(self.x - other.x) as i64,
            y: clamp_i64(self.y - other.y) as i64,
        }
    }

    /// The sum, each component saturating at the limits of `i64`.
    pub fn saturating_add(self, other: Vec2) -> (v: Vec2)
        ensures
            v == self.plus(other),
    {
        Vec2 { x: saturating_add(self.x, other.x), y: saturating_add(self.y, other.y) }
    }

    /// The difference, each component saturating at the limits of `i64`.
    pub fn saturating_sub(self, other: Vec2) -> (v: Vec2)
        ensures
            v == self.minus(other),
    {
        Vec2 { x: saturating_sub(self.x, other.x), y: saturating_sub(self.y, other.y) }
    }
}

/// A displacement in space. Positions are planar, so only `x` and `y` ever
/// reach a position.
#[derive(Clone, Copy, Debug, PartialEq, Eq, Structural)]
pub struct Vec3 {
    pub x: i64,
    pub y: i64,
    pub z: i64,
}

impl Vec3 {
    /// The vector `(x, y, z)`.
    pub fn new(x: i64, y: i64, z: i64) -> (v: Self)
        ensures
            v.x == x,
            v.y == y,
            v.z == z,
    {
        Vec3 { x, y, z }
    }

    /// The origin.
    pub fn zero() -> (v: Self)
        ensures
            v.x == 0,
            v.y == 0,
            v.z == 0,
    {
        Vec3 { x: 0, y: 0, z: 0 }
    }

    /// The component-wise saturating sum.
    pub open spec fn plus(self, other: Vec3) -> Vec3 {
        Vec3 {
            x: clamp_i64(self.x + other.x) as i64,
            y: clamp_i64(self.y + other.y) as i64,
            z: clamp_i64(self.z + other.z) as i64,
        }
    }

    /// The planar part: `z` is dropped.
    pub open spec fn xy(self) -> Vec2 {
        Vec2 { x: self.x, y: self.y }
    }

    /// The sum, each component saturating at the limits of `i64`.
    pub fn saturating_add(self, other: Vec3) -> (v: Vec3)
        ensures
            v == self.plus(other),
    {
        Vec3 {
            x: saturating_add(self.x, other.x),
            y: saturating_add(self.y, other.y),
            z: saturating_add(self.z, other.z),
        }
    }

    /// The planar part: `z` is dropped.
    pub fn truncate(self) -> (v: Vec2)
        ensures
            v == self.xy(),
    {
        Vec2 { x: self.x, y: self.y }
    }
}

} // verus!
