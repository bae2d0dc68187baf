//! What a whole tick conserves and leaves alone.

use vstd::prelude::*;
use crate::engine::{breached, collided, integrated, reflected, ticked};
use crate::geometry::Body;
use crate::laws::all_fit;
use crate::laws::collisions::{
    closing_speed, lemma_isolated_collision_conserves, lemma_swept_keeps,
    lemma_touches_either_way, no_faster, touches_none,
};
use crate::laws::overlaps::{
    gap, lemma_adjusted_keeps_motion, lemma_adjusted_rests, lemma_apart_is_clear,
    lemma_lone_overlap_ends, lemma_same_place_is_clear, lone_pair, none_overlap,
};
use crate::operations::{size, Vec2};

verus! {

/// A tick in which two bodies are alone, and no wall cuts either of them
/// once they moved, conserves momentum and, up to rounding, kinetic energy:
/// it leaves the sum of the velocities what it was, and changes the sum of
/// the squares of the speeds by no more than eight times the closing speed
/// of the two, and two.
pub proof fn lemma_isolated_tick_conserves(bodies: Seq<Body>, limit: int)
    requires
        bodies.len() == 2,
        !breached(bodies[0].moved().center.x, bodies[0].radius),
        !breached(bodies[0].moved().center.y, bodies[0].radius),
        !breached(bodies[1].moved().center.x, bodies[1].radius),
        !breached(bodies[1].moved().center.y, bodies[1].radius),
        limit <= 400_000_000,
        no_faster(bodies[0], limit),
        no_faster(bodies[1], limit),
    ensures
        ({
            let after = ticked(bodies);
            &&& after.len() == 2
            &&& after[0].velocity.plus(after[1].velocity) == bodies[0].velocity.plus(
                bodies[1].velocity,
            )
            &&& size(
                after[0].velocity.norm2() + after[1].velocity.norm2() - (
                bodies[0].velocity.norm2() + bodies[1].velocity.norm2()),
            ) <= 8 * closing_speed(bodies[0], bodies[1]) + 2
        }),
{
    let moved = integrated(bodies);
    lemma_isolated_collision_conserves(moved, limit);
    lemma_adjusted_keeps_motion(collided(moved));
}

/// A body at rest that nothing meets stays as it is. In a scene of spheres
/// of one radius, a body at rest is the same after a tick if no other body
/// is about to come within two radii of it, that is, if every other is
/// further from it where it would be one tick after this one, and if the
/// bodies do not move into each other in this tick.
pub proof fn lemma_still_body_rests(bodies: Seq<Body>, index: int, radius: int)
    requires
        0 <= index < bodies.len(),
        all_fit(bodies),
        forall|i: int| 0 <= i < bodies.len() ==> (#[trigger] bodies[i]).radius == radius,
        bodies[index].velocity == (Vec2 { x: 0, y: 0 }),
        forall|j: int|
            0 <= j < bodies.len() && j != index ==> bodies[index].center.minus(
                (#[trigger] bodies[j]).moved().reflected().moved().center,
            ).norm2() > (2 * radius) * (2 * radius),
        forall|i: int, j: int|
            0 <= i < bodies.len() && 0 <= j < bodies.len() && i != j ==> (
            #[trigger] bodies[i]).moved().center.minus(
                (#[trigger] bodies[j]).moved().center,
            ).norm2() >= (2 * radius) * (2 * radius),
    ensures
        ticked(bodies).len() == bodies.len(),
        ticked(bodies)[index] == bodies[index],
{
    let moved = integrated(bodies);
    let walled = reflected(moved);
    let struck = collided(moved);
    lemma_still_body_keeps_velocity(bodies, index, radius);
    lemma_swept_keeps(walled, walled, walled.len() as int, index);
    assert(none_overlap(struck, radius)) by {
        assert forall|i: int, j: int|
            0 <= i < struck.len() && 0 <= j < struck.len() implies !(#[trigger] struck[i]).overlaps(
            #[trigger] struck[j],
            radius,
        ) by {
            assert(struck[i].center == walled[i].center);
            assert(struck[j].center == walled[j].center);
            assert(walled[i].center == bodies[i].moved().center);
            assert(walled[j].center == bodies[j].moved().center);
            if i != j {
                lemma_apart_is_clear(struck[i], struck[j], radius);
            } else {
                lemma_same_place_is_clear(struck[i], radius);
            }
        }
    }
    assert(struck[0].radius == radius) by {
        assert(struck[0].radius == walled[0].radius);
        assert(bodies[0].radius == radius);
    }
    lemma_adjusted_rests(struck);
}

/// A body at rest that nothing meets stays as it is, also beside an
/// overlap. The body is the same after a tick if no other body is about to
/// come within two radii of it and if, once the bodies moved, only the
/// bodies `first` and `second` can overlap, neither of which is the body at
/// rest.
pub proof fn lemma_still_body_rests_beside_an_overlap(
    bodies: Seq<Body>,
    index: int,
    first: int,
    second: int,
    radius: int,
)
    requires
        0 <= index < bodies.len(),
        0 <= first < second < bodies.len(),
        index != first,
        index != second,
        all_fit(bodies),
        forall|i: int| 0 <= i < bodies.len() ==> (#[trigger] bodies[i]).radius == radius,
        bodies[index].velocity == (Vec2 { x: 0, y: 0 }),
        forall|j: int|
            0 <= j < bodies.len() && j != index ==> bodies[index].center.minus(
                (#[trigger] bodies[j]).moved().reflected().moved().center,
            ).norm2() > (2 * radius) * (2 * radius),
        integrated(bodies)[first].center != integrated(bodies)[second].center,
        integrated(bodies)[first].roomy(2 * radius),
        integrated(bodies)[second].roomy(2 * radius),
        lone_pair(integrated(bodies), first, second, radius),
    ensures
        ticked(bodies).len() == bodies.len(),
        ticked(bodies)[index] == bodies[index],
{
    let moved = integrated(bodies);
    let struck = collided(moved);
    lemma_still_body_keeps_velocity(bodies, index, radius);
    let walled = reflected(moved);
    lemma_swept_keeps(walled, walled, walled.len() as int, index);
    assert(forall|i: int|
        0 <= i < bodies.len() ==> (#[trigger] struck[i]).center == moved[i].center);
    assert(struck[0].radius == radius) by {
        assert(struck[0].radius == walled[0].radius);
        assert(bodies[0].radius == radius);
    }
    assert(lone_pair(struck, first, second, radius)) by {
        assert forall|a: int, b: int|
            0 <= a < struck.len() && 0 <= b < struck.len() && a != b && a != first && a != second
                && b != first && b != second implies #[trigger] gap(struck, a, b) >= (2 * radius)
            * (2 * radius) by {
            assert(gap(moved, a, b) >= (2 * radius) * (2 * radius));
        }
        assert forall|other: int|
            0 <= other < struck.len() && other != first && other != second implies #[trigger] gap(
            struck,
            other,
            first,
        ) >= (6 * radius) * (6 * radius) by {
            assert(gap(moved, other, first) >= (6 * radius) * (6 * radius));
        }
        assert forall|other: int|
            0 <= other < struck.len() && other != first && other != second implies #[trigger] gap(
            struck,
            other,
            second,
        ) >= (6 * radius) * (6 * radius) by {
            assert(gap(moved, other, second) >= (6 * radius) * (6 * radius));
        }
    }
    lemma_lone_overlap_ends(struck, first, second);
}

/// The collision pass of a tick leaves a body at rest as it is if no other
/// body is about to come within two radii of it.
pub proof fn lemma_still_body_keeps_velocity(bodies: Seq<Body>, index: int, radius: int)
    requires
        0 <= index < bodies.len(),
        all_fit(bodies),
        forall|i: int| 0 <= i < bodies.len() ==> (#[trigger] bodies[i]).radius == radius,
        bodies[index].velocity == (Vec2 { x: 0, y: 0 }),
        forall|j: int|
            0 <= j < bodies.len() && j != index ==> bodies[index].center.minus(
                (#[trigger] bodies[j]).moved().reflected().moved().center,
            ).norm2() > (2 * radius) * (2 * radius),
    ensures
        collided(integrated(bodies)).len() == bodies.len(),
        collided(integrated(bodies))[index] == bodies[index],
{
    let moved = integrated(bodies);
    let walled = reflected(moved);
    assert(bodies[index].fits());
    assert(walled[index] == bodies[index]);
    assert(touches_none(walled, index)) by {
        assert forall|j: int| 0 <= j < walled.len() implies !walled[index].touches(
            #[trigger] walled[j],
        ) && !walled[j].touches(walled[index]) by {
            if j != index {
                assert(walled[j] == bodies[j].moved().reflected());
                assert(walled[index].moved().center == bodies[index].center);
                assert(walled[j].radius == radius);
                assert(bodies[j].radius == radius);
                lemma_touches_either_way(walled[j], walled[index]);
            }
        }
    }
    lemma_swept_keeps(walled, walled, walled.len() as int, index);
}

} // verus!
