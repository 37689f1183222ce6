//! Fixed-point collision detection and fixed-timestep physics for 2D games.
//!
//! All coordinates are signed 64-bit integers in whatever fixed-point unit the
//! caller chooses. The crate offers a precomputed quadtree over the play area,
//! bounding-box collision queries that use it, and a physics clock with
//! impulse, gravity and velocity integration. Beside these stand the rules
//! of sprite animation and of the menu screens, and a random number
//! generator.
//!
//! Entities are plain `u64` ids. Nothing here draws, loads or listens: the
//! caller hands in positions, sizes and elapsed time, and gets back
//! positions to draw, ticks and collisions.

pub mod vector;
pub mod rect2d;
pub mod aabb;
pub mod node_set;
pub mod static_quadtree;
pub mod spatial_index;
pub mod collision;
pub mod physics;
pub mod random;
pub mod animation;
pub mod game_menus;
pub mod tree_laws;
pub mod collision_laws;

pub use aabb::AxisAlignedBoundingBox;
pub use animation::{
    cycle_animation, AnimationCycle, AnimationFrame, AnimationOption, CycleOutcome, PerFrameAnimation,
};
pub use collision::{check_collisions, collisions, Collider, OnCollision};
pub use node_set::NodeSet;
pub use physics::{
    apply_gravity, apply_velocity, physics_clock, sum_impulses, Impulse, PhysicsPosition, PhysicsTick,
    PhysicsTimer, Velocity,
};
pub use random::{Random, RandomNumberGenerator};
pub use rect2d::Rect2D;
pub use static_quadtree::{StaticQuadTree, StaticQuadTreeNode};
pub use vector::{Vec2, Vec3};
