//! What holds of the simulation, proved from the contracts of the engine.
//!
//! * `walls`: the walls hold the spheres
//! * `collisions`: what the collision pass does to a sphere, and what it conserves
//! * `overlaps`: what the overlap correction achieves
//! * `ticks`: what a whole tick conserves and leaves alone
//! * `generation`: the grid of a generated scene

pub mod collisions;
pub mod generation;
pub mod overlaps;
pub mod ticks;
pub mod walls;

use vstd::prelude::*;
use crate::geometry::Body;

verus! {

impl Body {
    /// Every number of the body is one that an `i32` holds, as it is for the
    /// body of every sphere.
    pub open spec fn fits(self) -> bool {
        &&& i32::MIN <= self.center.x <= i32::MAX
        &&& i32::MIN <= self.center.y <= i32::MAX
        &&& i32::MIN <= self.velocity.x <= i32::MAX
        &&& i32::MIN <= self.velocity.y <= i32::MAX
        &&& i32::MIN <= self.radius <= i32::MAX
    }
}

/// Every body of the scene fits.
pub open spec fn all_fit(bodies: Seq<Body>) -> bool {
    forall|i: int| 0 <= i < bodies.len() ==> (#[trigger] bodies[i]).fits()
}

} // verus!
