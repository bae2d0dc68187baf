//! The walls hold the spheres.

use vstd::prelude::*;
use crate::engine::{
    adjusted, breached, collided, hit, integrated, parted, parted_row, parted_rows, reflected,
    swept, swept_row, ticked,
};
use crate::geometry::Body;
use crate::laws::overlaps::lemma_same_place_is_clear;
use crate::operations::size;
use crate::settings::ONE;

verus! {

/// Along one axis, a sphere is held by the walls up to `slack`: it moves by
/// no more than `slack` in a tick, sticks out of the viewport by no more
/// than `slack`, and where it sticks out it does not head further out.
pub open spec fn held(position: int, speed: int, radius: int, slack: int) -> bool {
    &&& size(speed) <= slack
    &&& size(position) + radius <= ONE + slack
    &&& breached(position, radius) ==> if position >= 0 {
        speed <= 0
    } else {
        speed >= 0
    }
}

impl Body {
    /// The walls hold the body up to `slack`, along both axes.
    pub open spec fn contained(self, slack: int) -> bool {
        &&& held(self.center.x, self.velocity.x, self.radius, slack)
        &&& held(self.center.y, self.velocity.y, self.radius, slack)
    }
}

/// The scene after `count` ticks.
pub open spec fn ticked_often(bodies: Seq<Body>, count: nat) -> Seq<Body>
    decreases count,
{
    if count == 0 {
        bodies
    } else {
        ticked(ticked_often(bodies, (count - 1) as nat))
    }
}

/// The walls hold the spheres. A body that the walls hold up to `slack` is
/// still held up to `slack` after it moved and the walls were looked at. So
/// is, in particular, a body that lay within the walls and moves by no more
/// than `slack` along each axis in a tick: it sticks out by no more than
/// `slack`. The sphere must be no wider than the viewport.
pub proof fn lemma_wall_containment(bodies: Seq<Body>, index: int, slack: int)
    requires
        0 <= index < bodies.len(),
        bodies[index].fits(),
        bodies[index].radius <= ONE,
        bodies[index].contained(slack),
    ensures
        reflected(integrated(bodies)).len() == bodies.len(),
        reflected(integrated(bodies))[index].contained(slack),
        reflected(integrated(bodies))[index].radius == bodies[index].radius,
{
}

/// The walls hold a lone sphere for ever. A sphere that is alone in its
/// scene and that the walls hold up to `slack` is held up to `slack` after
/// any number of ticks.
pub proof fn lemma_lone_body_contained(bodies: Seq<Body>, slack: int, count: nat)
    requires
        bodies.len() == 1,
        bodies[0].fits(),
        bodies[0].radius <= ONE,
        bodies[0].contained(slack),
    ensures
        ticked_often(bodies, count).len() == 1,
        ticked_often(bodies, count)[0].fits(),
        ticked_often(bodies, count)[0].radius == bodies[0].radius,
        ticked_often(bodies, count)[0].contained(slack),
    decreases count,
{
    if count > 0 {
        lemma_lone_body_contained(bodies, slack, (count - 1) as nat);
        let before = ticked_often(bodies, (count - 1) as nat);
        lemma_wall_containment(before, 0, slack);
        let moved = integrated(before);
        let walled = reflected(moved);
        reveal_with_fuel(swept, 2);
        reveal_with_fuel(swept_row, 2);
        reveal_with_fuel(parted_rows, 2);
        reveal_with_fuel(parted_row, 2);
        assert(hit(walled, 0, 0, walled[0], walled[0]) == walled);
        assert(collided(moved) == walled);
        lemma_same_place_is_clear(walled[0], walled[0].radius);
        assert(parted(walled, 0, 0, walled[0].radius) == walled);
        assert(adjusted(walled) == walled);
        assert(ticked(before) == walled);
    }
}

} // verus!
