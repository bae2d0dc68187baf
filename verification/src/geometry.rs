//! Points and spheres, and how a sphere is made.

use vstd::prelude::*;
use crate::algebra::{
    lemma_axis_within_span, lemma_just_short_of_circle, lemma_mean_square, lemma_product_within,
    lemma_quot_within, lemma_scaled_length, lemma_scaled_order, lemma_square_of_product,
};
use crate::operations::{
    divide, floor_sqrt, lemma_floor_sqrt_exists, multiply, quot, saturate, size, vector, Vec2,
};
use crate::settings::{COLORS, LENGTH, ONE, TINTS};

verus! {

/// A boundary point of a sphere.
///
/// * `position`: where the point lies
/// * `color`: its colour, each channel in hundredths of full intensity
#[derive(Clone, Copy, Debug)]
pub struct Point {
    pub position: [i32; 2],
    pub color: [u8; 3],
}

/// A sphere in the plane.
///
/// * `points`: the boundary points, as they lay when the sphere was made
/// * `center`: the centre
/// * `velocity`: the displacement of the centre per tick
/// * `radius`: the radius
#[derive(Clone, Copy, Debug)]
pub struct Sphere {
    pub points: [Point; 32],
    pub center: [i32; 2],
    pub velocity: [i32; 2],
    pub radius: i32,
}

/// What the simulation knows of a sphere: where it is, how it moves and how
/// large it is, over the mathematical integers.
pub ghost struct Body {
    pub center: Vec2,
    pub velocity: Vec2,
    pub radius: int,
}

impl View for Sphere {
    type V = Body;

    open spec fn view(&self) -> Body {
        Body {
            center: vector(self.center),
            velocity: vector(self.velocity),
            radius: self.radius as int,
        }
    }
}

/// The colour that the draw `draw` picks from the palette.
pub open spec fn tint_of(draw: int) -> [u8; 3] {
    COLORS[draw % (TINTS as int)]
}

/// The cosine of `step` thirty-second parts of a full turn, in units of
/// which `ONE` make one, for a `step` within the first quarter turn.
pub open spec fn cosine_of(step: int) -> int {
    if step == 0 {
        100_000_000
    } else if step == 1 {
        98_078_528
    } else if step == 2 {
        92_387_953
    } else if step == 3 {
        83_146_961
    } else if step == 4 {
        70_710_678
    } else if step == 5 {
        55_557_023
    } else if step == 6 {
        38_268_343
    } else if step == 7 {
        19_509_032
    } else {
        0
    }
}

/// The direction from the centre of a sphere to its boundary point `index`:
/// the points stand at equal angles, counterclockwise from the positive x
/// axis, and each quarter turn repeats the first one, rotated.
pub open spec fn ring_of(index: int) -> Vec2 {
    let turn = index % 32;
    let step = turn % 8;
    let along = cosine_of(step);
    let across = cosine_of(8 - step);
    if turn < 8 {
        Vec2 { x: along, y: across }
    } else if turn < 16 {
        Vec2 { x: -across, y: along }
    } else if turn < 24 {
        Vec2 { x: -along, y: -across }
    } else {
        Vec2 { x: across, y: -along }
    }
}

/// Where boundary point `index` of a sphere lies.
pub open spec fn ring_point(center: Vec2, radius: int, index: int) -> Vec2 {
    center.plus(ring_of(index).times(radius).over(ONE as int)).clamped()
}

/// The velocity of a sphere launched along `heading` at `multiplier`
/// hundredths of its radius per tick.
pub open spec fn launch(radius: int, heading: Vec2, multiplier: int) -> Vec2 {
    heading.times(multiplier * radius).over(100 * ONE).clamped()
}

/// The heading has unit length, up to the rounding of its two components.
pub open spec fn is_unit(heading: Vec2) -> bool {
    ONE * ONE - 2 * ONE <= heading.norm2() <= ONE * ONE + 2 * ONE
}

/// The velocity is between a hundredth of `radius` and `radius` long, up to
/// rounding: no longer than the radius and its `ONE`-th part, and no
/// shorter than a hundredth of the radius, less two `ONE`-ths of it and
/// three units.
pub open spec fn paced(velocity: Vec2, radius: int) -> bool {
    let speed = floor_sqrt(velocity.norm2());
    &&& ONE * speed <= radius * (ONE + 1)
    &&& radius * (ONE - 2) <= 100 * ONE * (speed + 3)
}

/// How fast a sphere is launched. Along a heading of unit length the speed,
/// rounded down, is `multiplier` hundredths of the radius: no more than
/// that and its `ONE`-th part, and no less than that, less two `ONE`-ths of
/// it and three units. For the multipliers from 1 to 100 that a sphere is
/// made with, it lies between a hundredth of the radius and the radius.
pub proof fn lemma_launch_speed(radius: int, heading: Vec2, multiplier: int)
    requires
        0 <= radius <= i32::MAX,
        1 <= multiplier <= 100,
        is_unit(heading),
    ensures
        ({
            let speed = floor_sqrt(launch(radius, heading, multiplier).norm2());
            &&& 100 * ONE * speed <= multiplier * radius * (ONE + 1)
            &&& multiplier * radius * (ONE - 2) <= 100 * ONE * (speed + 3)
            &&& paced(launch(radius, heading, multiplier), radius)
        }),
{
    let pace = multiplier * radius;
    let full = 100 * ONE;
    let one = ONE as int;
    let x = heading.x;
    let y = heading.y;
    let length2 = heading.norm2();
    assert(0 <= pace <= 100 * radius && radius <= pace) by (nonlinear_arith)
        requires
            pace == multiplier * radius,
            1 <= multiplier <= 100,
            radius >= 0,
    ;
    // Neither component of the heading is longer than a unit, so that
    // nothing is cut off at the end of the range.
    lemma_axis_within_span(x, y, one);
    lemma_axis_within_span(y, x, one);
    lemma_product_within(x, pace, one, pace);
    lemma_product_within(y, pace, one, pace);
    assert(one * pace <= radius * full) by (nonlinear_arith)
        requires
            pace <= 100 * radius,
            full == 100 * one,
            one > 0,
    ;
    lemma_quot_within(x * pace, full, radius);
    lemma_quot_within(y * pace, full, radius);
    let fast = launch(radius, heading, multiplier);
    assert(fast.x == quot(x * pace, full) && fast.y == quot(y * pace, full));
    let a = size(fast.x);
    let b = size(fast.y);
    assert(fast.norm2() == a * a + b * b) by (nonlinear_arith)
        requires
            fast.norm2() == fast.x * fast.x + fast.y * fast.y,
            a == size(fast.x),
            b == size(fast.y),
    ;
    lemma_mean_square(a, b);
    lemma_floor_sqrt_exists(fast.norm2());
    let speed = floor_sqrt(fast.norm2());
    lemma_scaled_length(x, y, pace, full);
    let full2 = full * full;
    let pace2 = pace * pace;
    assert(full2 > 0 && pace2 >= 0) by (nonlinear_arith)
        requires
            full2 == full * full,
            pace2 == pace * pace,
            full > 0,
    ;
    // No faster.
    lemma_scaled_order(full2, speed * speed, a * a + b * b);
    lemma_scaled_order(pace2, length2, one * one + 2 * one);
    lemma_square_of_product(full, speed);
    lemma_square_of_product(pace, one + 1);
    assert(pace2 * (one * one + 2 * one) <= pace2 * ((one + 1) * (one + 1))) by (nonlinear_arith)
        requires
            pace2 >= 0,
    ;
    assert((full * speed) * (full * speed) <= (pace * (one + 1)) * (pace * (one + 1)));
    assert(full * speed <= pace * (one + 1)) by (nonlinear_arith)
        requires
            (full * speed) * (full * speed) <= (pace * (one + 1)) * (pace * (one + 1)),
            full * speed >= 0,
            pace * (one + 1) >= 0,
    {
        if full * speed > pace * (one + 1) {
            assert((full * speed) * (full * speed) > (pace * (one + 1)) * (pace * (one + 1)));
        }
    }
    // No slower.
    lemma_just_short_of_circle(a, b, speed + 1);
    lemma_scaled_order(pace2, (one - 2) * (one - 2), length2);
    lemma_scaled_order(full2, (a + 1) * (a + 1) + (b + 1) * (b + 1), (speed + 3) * (speed + 3));
    lemma_square_of_product(pace, one - 2);
    lemma_square_of_product(full, speed + 3);
    assert((pace * (one - 2)) * (pace * (one - 2)) <= (full * (speed + 3)) * (full * (speed
        + 3)));
    assert(pace * (one - 2) <= full * (speed + 3)) by (nonlinear_arith)
        requires
            (pace * (one - 2)) * (pace * (one - 2)) <= (full * (speed + 3)) * (full * (speed
                + 3)),
            pace * (one - 2) >= 0,
            full * (speed + 3) >= 0,
    {
        if pace * (one - 2) > full * (speed + 3) {
            assert((pace * (one - 2)) * (pace * (one - 2)) > (full * (speed + 3)) * (full * (
            speed + 3)));
        }
    }
    // Between a hundredth of the radius and the radius.
    assert(one * speed <= radius * (one + 1)) by (nonlinear_arith)
        requires
            full * speed <= pace * (one + 1),
            full == 100 * one,
            pace <= 100 * radius,
            one > 0,
    ;
    assert(radius * (one - 2) <= pace * (one - 2)) by (nonlinear_arith)
        requires
            radius <= pace,
            one > 2,
    ;
}

/// The first boundary direction is that of the positive x axis.
pub proof fn lemma_ring_start()
    ensures
        ring_of(0) == (Vec2 { x: ONE as int, y: 0 }),
{
}

/// Every boundary direction has unit length, up to rounding.
pub proof fn lemma_ring_unit(index: int)
    ensures
        ONE * ONE - ONE <= ring_of(index).norm2() <= ONE * ONE + ONE,
{
    let turn = index % 32;
    let step = turn % 8;
    assert(0 <= step < 8);
    assert(cosine_of(step) * cosine_of(step) + cosine_of(8 - step) * cosine_of(8 - step)
        <= 10_000_000_100_000_000 && cosine_of(step) * cosine_of(step) + cosine_of(8 - step)
        * cosine_of(8 - step) >= 9_999_999_900_000_000) by {
        if step == 0 {
        } else if step == 1 {
        } else if step == 2 {
        } else if step == 3 {
        } else if step == 4 {
        } else if step == 5 {
        } else if step == 6 {
        } else {
        }
    }
    let along = cosine_of(step);
    let across = cosine_of(8 - step);
    assert((-along) * (-along) == along * along) by (nonlinear_arith);
    assert((-across) * (-across) == across * across) by (nonlinear_arith);
}

/// The boundary directions are evenly spread, counterclockwise: from each
/// to the next it is the same angle, whose sine is that of a thirty-second
/// part of a full turn, up to rounding.
pub proof fn lemma_ring_even(index: int)
    ensures
        ONE * cosine_of(7) <= ring_of(index).cross(ring_of(index + 1)) <= ONE * cosine_of(7)
            + ONE,
{
    let turn = index % 32;
    let step = turn % 8;
    let here = ring_of(index);
    let next = ring_of(index + 1);
    let along = cosine_of(step);
    let across = cosine_of(8 - step);
    let next_along = cosine_of(step + 1);
    let next_across = cosine_of(7 - step);
    // Within the first quarter turn.
    assert(cosine_of(step) * cosine_of(7 - step) - cosine_of(8 - step) * cosine_of(step + 1)
        >= 1_950_903_200_000_000 && cosine_of(step) * cosine_of(7 - step) - cosine_of(8 - step)
        * cosine_of(step + 1) <= 1_950_903_300_000_000) by {
        if step == 0 {
        } else if step == 1 {
        } else if step == 2 {
        } else if step == 3 {
        } else if step == 4 {
        } else if step == 5 {
        } else if step == 6 {
        } else {
        }
    }
    // Every quarter turn is the first one, turned.
    assert((index + 1) % 32 == if turn == 31 { 0 } else { turn + 1 });
    if turn < 8 {
        assert(here == (Vec2 { x: along, y: across }));
        assert(next == (Vec2 { x: next_along, y: next_across }));
    } else if turn < 16 {
        assert(here == (Vec2 { x: -across, y: along }));
        assert(next == (Vec2 { x: -next_across, y: next_along }));
        assert((-across) * next_along - along * (-next_across) == along * next_across - across
            * next_along) by (nonlinear_arith);
    } else if turn < 24 {
        assert(here == (Vec2 { x: -along, y: -across }));
        assert(next == (Vec2 { x: -next_along, y: -next_across }));
        assert((-along) * (-next_across) - (-across) * (-next_along) == along * next_across
            - across * next_along) by (nonlinear_arith);
    } else {
        assert(here == (Vec2 { x: across, y: -along }));
        assert(next == (Vec2 { x: next_across, y: -next_along }));
        assert(across * (-next_along) - (-along) * next_across == along * next_across - across
            * next_along) by (nonlinear_arith);
    }
}

/// Boundary points half a turn apart lie opposite each other.
pub proof fn lemma_ring_opposite(index: int)
    ensures
        ring_of(index + 16) == ring_of(index).times(-1),
{
    let turn = index % 32;
    assert((index + 16) % 32 == if turn < 16 { turn + 16 } else { turn - 16 });
    assert((turn + 16) % 8 == turn % 8);
    assert((turn - 16) % 8 == turn % 8);
}

/// Draws a number from the thread-local generator of the `rand` crate, by
/// `rand::random::<usize>()`. Nothing is claimed of the number that comes
/// back: every caller is verified for all of them.
#[verifier::external_body]
pub(crate) fn random_usize() -> usize {
    rand::random::<usize>()
}

/// The cosine of `step` thirty-second parts of a full turn.
fn cosine(step: usize) -> (out: i32)
    requires
        step <= 8,
    ensures
        out == cosine_of(step as int),
{
    if step == 0 {
        100_000_000
    } else if step == 1 {
        98_078_528
    } else if step == 2 {
        92_387_953
    } else if step == 3 {
        83_146_961
    } else if step == 4 {
        70_710_678
    } else if step == 5 {
        55_557_023
    } else if step == 6 {
        38_268_343
    } else if step == 7 {
        19_509_032
    } else {
        0
    }
}

/// The direction from the centre of a sphere to its boundary point `index`.
pub fn ring(index: usize) -> (out: [i32; 2])
    ensures
        vector(out) == ring_of(index as int),
{
    let turn: usize = index % 32;
    let step: usize = turn % 8;
    let along: i32 = cosine(step);
    let across: i32 = cosine(8 - step);
    if turn < 8 {
        [along, across]
    } else if turn < 16 {
        [-across, along]
    } else if turn < 24 {
        [-along, -across]
    } else {
        [across, -along]
    }
}

impl Point {
    /// A point at `position`, in a colour drawn at random from the palette.
    pub fn new(position: [i32; 2]) -> (out: Point)
        ensures
            out.position == position,
            exists|draw: int| 0 <= draw < TINTS && out.color == tint_of(draw),
    {
        let draw: usize = random_usize();
        let out = Point::tinted(position, draw);
        assert(out.color == tint_of(draw as int % (TINTS as int)));
        out
    }

    /// A point at `position`, in the colour that `draw` picks from the
    /// palette.
    pub fn tinted(position: [i32; 2], draw: usize) -> (out: Point)
        ensures
            out.position == position,
            out.color == tint_of(draw as int),
    {
        Point { position, color: COLORS[draw % TINTS] }
    }
}

impl Default for Point {
    /// A black point at the origin.
    fn default() -> (out: Point)
        ensures
            out.position@ == seq![0i32, 0i32],
            out.color@ == seq![0u8, 0u8, 0u8],
    {
        Point { position: [0, 0], color: [0, 0, 0] }
    }
}

impl Sphere {
    /// The sphere is the one made at `center`, with `radius`, along
    /// `heading`, from the draw `multiplier` for its speed and the draws
    /// `tints` for the colours of its boundary points.
    pub open spec fn assembled(
        self,
        center: [i32; 2],
        radius: i32,
        heading: [i32; 2],
        multiplier: int,
        tints: Seq<usize>,
    ) -> bool {
        &&& self.center =~= center
        &&& self.radius == radius
        &&& vector(self.velocity) == launch(
            radius as int,
            vector(heading),
            1 + multiplier % 100,
        )
        &&& forall|k: int|
            0 <= k < LENGTH ==> vector((#[trigger] self.points[k]).position) == ring_point(
                vector(center),
                radius as int,
                k,
            ) && self.points[k].color =~= tint_of(tints[k] as int)
    }

    /// The sphere is one that can be made at `center`, with `radius`, along
    /// `heading`, whatever numbers are drawn for it.
    pub open spec fn launched(self, center: [i32; 2], radius: i32, heading: [i32; 2]) -> bool {
        exists|multiplier: int, tints: Seq<usize>|
            multiplier >= 0 && tints.len() == LENGTH && #[trigger] self.assembled(
                center,
                radius,
                heading,
                multiplier,
                tints,
            )
    }

    /// A new sphere at `center`, with `radius`, moving along `heading`.
    ///
    /// `heading` gives the direction of the velocity as a fixed-point vector
    /// (`ONE` for a unit of length). The speed is drawn at random, from one
    /// to a hundred hundredths of the radius per tick for a heading of unit
    /// length, and so is the colour of each boundary point.
    pub fn new(center: [i32; 2], radius: i32, heading: [i32; 2]) -> (out: Sphere)
        ensures
            out.launched(center, radius, heading),
            radius >= 0 && is_unit(vector(heading)) ==> paced(out@.velocity, radius as int),
    {
        let mut tints: [usize; 32] = [0; 32];
        let mut index: usize = 0;
        while index < LENGTH
            invariant
                index <= LENGTH,
            decreases LENGTH - index,
        {
            tints[index] = random_usize();
            index += 1;
        }
        let multiplier: usize = random_usize();
        proof {
            if radius >= 0 && is_unit(vector(heading)) {
                lemma_launch_speed(radius as int, vector(heading), 1 + multiplier as int % 100);
            }
        }
        Sphere::assemble(center, radius, heading, multiplier, &tints)
    }

    /// The sphere at `center`, with `radius`, moving along `heading` at
    /// `1 + multiplier % 100` hundredths of its radius per tick, whose
    /// boundary point `k` has the colour that `tints[k]` picks from the
    /// palette.
    pub fn assemble(
        center: [i32; 2],
        radius: i32,
        heading: [i32; 2],
        multiplier: usize,
        tints: &[usize; 32],
    ) -> (out: Sphere)
        ensures
            out.assembled(center, radius, heading, multiplier as int, tints@),
    {
        let mut points: [Point; 32] = [Point::default(); 32];
        let mut index: usize = 0;
        while index < LENGTH
            invariant
                index <= LENGTH,
                forall|k: int|
                    0 <= k < index ==> vector((#[trigger] points[k]).position) == ring_point(
                        vector(center),
                        radius as int,
                        k,
                    ) && points[k].color == tint_of(tints[k] as int),
            decreases LENGTH - index,
        {
            let direction: [i32; 2] = ring(index);
            let x: i128 = center[0] as i128 + divide(
                multiply(direction[0] as i128, radius as i128),
                ONE as i128,
            );
            let y: i128 = center[1] as i128 + divide(
                multiply(direction[1] as i128, radius as i128),
                ONE as i128,
            );
            points[index] = Point::tinted([saturate(x), saturate(y)], tints[index]);
            index += 1;
        }
        let pace: i128 = multiply((1 + multiplier % 100) as i128, radius as i128);
        proof {
            lemma_product_within(1 + multiplier as int % 100, radius as int, 100, 0x8000_0000);
        }
        let x: i128 = divide(multiply(heading[0] as i128, pace), 100 * (ONE as i128));
        let y: i128 = divide(multiply(heading[1] as i128, pace), 100 * (ONE as i128));
        Sphere { points, center, velocity: [saturate(x), saturate(y)], radius }
    }
}

} // verus!
