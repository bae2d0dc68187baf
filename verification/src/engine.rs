//! The simulation: how a scene is generated, and what a tick does to it.
//!
//! A tick is four passes over the scene, each of which is done before the
//! next begins: the spheres move by their velocities (`update`); the walls
//! turn round what left the viewport, and spheres that are about to touch
//! rebound from each other (`collisions`); spheres that overlap are pushed
//! apart (`adjust`). The contracts speak of the bodies of the spheres, over
//! the mathematical integers.

use vstd::prelude::*;
use crate::algebra::{lemma_floor_div, lemma_product_within, lemma_quot_bounded};
use crate::geometry::{is_unit, paced, random_usize, Body, Sphere};
use crate::object::{is_fan, is_mesh, Object};
use crate::operations::{
    clamp, divide, floor_sqrt, gap2, isqrt, multiply, saturate, size, vector, Vec2,
};
use crate::settings::{AMOUNT, FEWEST, FINE, ONE};

verus! {

/// How a scene is laid out: `amount` spheres of `radius` along each side of a
/// square grid, `padding` apart from each other and from the walls.
#[derive(Clone, Copy, Debug, PartialEq, Eq, Structural)]
pub struct Layout {
    pub amount: usize,
    pub radius: i32,
    pub padding: i32,
}

/// The part of the window that is drawn to, in pixels from its lower left
/// corner.
#[derive(Clone, Copy, Debug, PartialEq, Eq, Structural)]
pub struct Rect {
    pub left: u32,
    pub bottom: u32,
    pub width: u32,
    pub height: u32,
}

/// What the window reports to the frame loop.
#[derive(Clone, Copy, Debug, PartialEq, Eq, Structural)]
pub enum Event {
    /// The user asked to close the window.
    Close,
    /// Anything else that happened to the window.
    Window,
    /// The loop starts.
    Init,
    /// The time that the loop waited for has come.
    Resumed,
    /// The loop woke up for another reason.
    Woken,
    /// Any other event.
    Other,
}

/// What the frame loop does about an event.
#[derive(Clone, Copy, Debug, PartialEq, Eq, Structural)]
pub enum Action {
    /// Stop the loop.
    Exit,
    /// Do nothing until the next event.
    Wait,
    /// Advance the scene by one tick and draw it.
    Advance,
}

/// The number of spheres along each side of the grid that `seed` stands for.
pub open spec fn amount_of(seed: int) -> int {
    FEWEST + seed % (AMOUNT - FEWEST)
}

/// The radius of the spheres of the grid that `seed` stands for: between 20
/// and 59 hundredths of the side of a cell that is one `amount`-th of `ONE`
/// wide.
pub open spec fn radius_of(seed: int) -> int {
    (ONE * (20 + seed % 40)) / (100 * amount_of(seed))
}

/// The gap between two spheres, and between a sphere and a wall, of the grid
/// that `seed` stands for: what the spheres leave of the width of the
/// viewport, in equal parts.
pub open spec fn padding_of(seed: int) -> int {
    (2 * ONE - 2 * radius_of(seed) * amount_of(seed)) / (amount_of(seed) + 1)
}

/// The coordinate of the centres of column `step`, and of row `step`, of the
/// grid that `seed` stands for.
pub open spec fn place_of(seed: int, step: int) -> int {
    (padding_of(seed) + 2 * radius_of(seed)) * (step + 1) - ONE - radius_of(seed)
}

/// The centre of sphere `index` of the grid that `seed` stands for: the
/// spheres are counted row by row.
pub open spec fn center_of(seed: int, index: int) -> Vec2 {
    Vec2 {
        x: place_of(seed, index % amount_of(seed)),
        y: place_of(seed, index / amount_of(seed)),
    }
}

/// `object` is a sphere `index` that the grid of `seed` can hold, launched
/// along `heading`, with its triangle fan. Along a heading of unit length
/// it is between a hundredth of its radius and its radius fast.
pub open spec fn generated(object: Object, seed: int, index: int, heading: [i32; 2]) -> bool {
    &&& vector(object.sphere.center) == center_of(seed, index)
    &&& object.sphere.radius == radius_of(seed)
    &&& object.sphere.launched(object.sphere.center, object.sphere.radius, heading)
    &&& is_unit(vector(heading)) ==> paced(object.sphere@.velocity, radius_of(seed))
    &&& is_mesh(object.vertices, object.sphere)
    &&& is_fan(object.indices)
}

/// The grid of every seed fits the viewport: it holds between `FEWEST` and
/// `AMOUNT - 1` spheres a side, their radius is above zero and their gap is
/// not negative, and a row of them, with the gaps between them and to both
/// walls, is no wider than the viewport.
pub proof fn lemma_layout(seed: int)
    requires
        seed >= 0,
    ensures
        FEWEST <= amount_of(seed) < AMOUNT,
        0 < radius_of(seed) <= 7_375_000,
        0 <= padding_of(seed) <= 2 * ONE,
        (padding_of(seed) + 2 * radius_of(seed)) * amount_of(seed) + padding_of(seed) <= 2 * ONE,
{
    let amount = amount_of(seed);
    let share = 20 + seed % 40;
    let radius = radius_of(seed);
    let padding = padding_of(seed);
    lemma_floor_div(ONE * share, 100 * amount);
    assert(0 < radius <= 7_375_000 && 2 * radius * amount <= 2 * ONE) by (nonlinear_arith)
        requires
            (100 * amount) * radius <= ONE * share < (100 * amount) * radius + 100 * amount,
            20 <= share < 60,
            8 <= amount < 32,
            ONE == 100_000_000,
    ;
    lemma_floor_div(2 * ONE - 2 * radius * amount, amount + 1);
    assert(0 <= padding <= 2 * ONE && (padding + 2 * radius) * amount + padding <= 2 * ONE)
        by (nonlinear_arith)
        requires
            (amount + 1) * padding <= 2 * ONE - 2 * radius * amount < (amount + 1) * padding + (
            amount + 1),
            0 <= 2 * radius * amount <= 2 * ONE,
            8 <= amount < 32,
    ;
}

/// The layout of the scene that `seed` stands for.
pub fn layout(seed: usize) -> (out: Layout)
    ensures
        out.amount == amount_of(seed as int),
        out.radius == radius_of(seed as int),
        out.padding == padding_of(seed as int),
{
    proof {
        lemma_layout(seed as int);
    }
    let amount: usize = FEWEST + seed % (AMOUNT - FEWEST);
    let share: i64 = 20 + (seed % 40) as i64;
    let radius: i64 = (ONE as i64 * share) / (100 * amount as i64);
    assert(2 * radius * amount <= 2 * ONE) by (nonlinear_arith)
        requires
            (radius + radius + padding_of(seed as int)) * amount + padding_of(seed as int) <= 2
                * ONE,
            0 <= padding_of(seed as int),
            0 <= amount,
    ;
    let padding: i64 = (2 * ONE as i64 - 2 * radius * amount as i64) / (amount as i64 + 1);
    Layout { amount, radius: radius as i32, padding: padding as i32 }
}

/// Draws a seed at random, and gives it with the layout of the scene that it
/// stands for.
pub fn seed() -> (out: (usize, Layout))
    ensures
        out.1.amount == amount_of(out.0 as int),
        out.1.radius == radius_of(out.0 as int),
        out.1.padding == padding_of(out.0 as int),
{
    let seed: usize = random_usize();
    (seed, layout(seed))
}

/// Generates the scene that `seed` stands for: a square grid of spheres of
/// one radius, evenly spread over the viewport and counted row by row,
/// sphere `index` launched along `headings[index]` at a speed drawn at
/// random. There must be one heading for each sphere: with more or fewer, no
/// scene is made.
pub fn generate(seed: usize, headings: &Vec<[i32; 2]>) -> (out: Option<Vec<Object>>)
    ensures
        out is Some <==> headings.len() == amount_of(seed as int) * amount_of(seed as int),
        out matches Some(objects) ==> objects.len() == headings.len() && forall|index: int|
            0 <= index < objects.len() ==> generated(
                #[trigger] objects[index],
                seed as int,
                index,
                headings[index],
            ),
{
    let grid = layout(seed);
    let amount: usize = grid.amount;
    proof {
        lemma_layout(seed as int);
        lemma_product_within(amount as int, amount as int, 31, 31);
    }
    let count: usize = amount * amount;
    if headings.len() != count {
        return None;
    }
    let pitch: i64 = grid.padding as i64 + 2 * grid.radius as i64;
    let mut objects: Vec<Object> = Vec::new();
    let mut index: usize = 0;
    while index < count
        invariant
            index <= count,
            count == amount * amount,
            headings.len() == count,
            amount == amount_of(seed as int),
            FEWEST <= amount < AMOUNT,
            grid.radius == radius_of(seed as int),
            0 < grid.radius <= 7_375_000,
            pitch == padding_of(seed as int) + 2 * radius_of(seed as int),
            0 < pitch,
            pitch * amount <= 2 * ONE,
            objects.len() == index,
            forall|i: int|
                0 <= i < index ==> generated(#[trigger] objects[i], seed as int, i, headings[i]),
        decreases count - index,
    {
        let column: usize = index % amount;
        let line: usize = index / amount;
        proof {
            lemma_floor_div(index as int, amount as int);
            assert(line < amount) by (nonlinear_arith)
                requires
                    amount * line <= index < amount * amount,
                    0 < amount,
            ;
            assert(0 < pitch * (column + 1) <= 2 * ONE && 0 < pitch * (line + 1) <= 2 * ONE)
                by (nonlinear_arith)
                requires
                    0 < pitch,
                    pitch * amount <= 2 * ONE,
                    0 <= column < amount,
                    0 <= line < amount,
            ;
        }
        let x: i64 = pitch * (column as i64 + 1) - ONE as i64 - grid.radius as i64;
        let y: i64 = pitch * (line as i64 + 1) - ONE as i64 - grid.radius as i64;
        let object = Object::new([x as i32, y as i32], grid.radius, headings[index]);
        objects.push(object);
        index += 1;
    }
    Some(objects)
}

/// The part of a window of `width` by `height` pixels that is drawn to: the
/// largest square, in the middle of the longer side.
pub fn reshape(width: u32, height: u32) -> (out: Option<Rect>)
    ensures
        out == Some(
            if width > height {
                Rect { left: ((width - height) / 2) as u32, bottom: 0, width: height, height }
            } else {
                Rect { left: 0, bottom: ((height - width) / 2) as u32, width, height: width }
            },
        ),
{
    let mut width = width;
    let mut height = height;
    let mut left: u32 = 0;
    let mut bottom: u32 = 0;
    if width > height {
        left = (width - height) / 2;
        width = height;
    } else if width < height {
        bottom = (height - width) / 2;
        height = width;
    }
    Some(Rect { left, bottom, width, height })
}

/// The wall at `ONE` or at `-ONE` cuts a sphere of `radius` whose centre has
/// the coordinate `position`.
pub open spec fn breached(position: int, radius: int) -> bool {
    size(position) + radius > ONE
}

/// The speed along one axis after the walls of that axis were looked at: a
/// sphere that a wall cuts and that does not yet head back inside is turned
/// round. A sphere that already heads back is left alone, so that it is not
/// turned outward again while it is still on its way in.
pub open spec fn bounce(position: int, speed: int, radius: int) -> int {
    if breached(position, radius) && (position >= 0) == (speed >= 0) {
        clamp(-speed)
    } else {
        speed
    }
}

impl Body {
    /// The body one tick later, if nothing is in its way.
    pub open spec fn moved(self) -> Body {
        Body { center: self.center.plus(self.velocity).clamped(), ..self }
    }

    /// The body after the walls turned it round where it left the viewport.
    pub open spec fn reflected(self) -> Body {
        Body {
            velocity: Vec2 {
                x: bounce(self.center.x, self.velocity.x, self.radius),
                y: bounce(self.center.y, self.velocity.y, self.radius),
            },
            ..self
        }
    }

    /// The two bodies collide: their centres differ, and where the two would
    /// be one tick from now they are no more than two radii apart. The
    /// radius is that of `self`.
    pub open spec fn touches(self, other: Body) -> bool {
        let limit = 2 * self.radius;
        &&& self.center != other.center
        &&& limit >= 0
        &&& self.moved().center.minus(other.moved().center).norm2() <= limit * limit
    }

    /// The velocity of `self` after an elastic collision with `other`, a body
    /// of the same mass: the part of the relative velocity that lies along
    /// the line of centres is taken away, rounded toward zero. Two bodies at
    /// one place have no line of centres, and keep their velocities.
    pub open spec fn rebound(self, other: Body) -> Vec2 {
        let apart = self.center.minus(other.center);
        let closing = self.velocity.minus(other.velocity);
        if self.center == other.center {
            self.velocity
        } else {
            self.velocity.minus(apart.times(closing.dot(apart)).over(apart.norm2())).clamped()
        }
    }

    /// The distance between the centres of the two bodies, in `FINE`-ths of
    /// a unit and rounded down.
    pub open spec fn span(self, other: Body) -> int {
        floor_sqrt(self.center.minus(other.center).norm2() * (FINE * FINE))
    }

    /// The two bodies overlap, for spheres of `radius`: their centres differ
    /// and are less than two radii apart.
    pub open spec fn overlaps(self, other: Body, radius: int) -> bool {
        0 < self.span(other) < 2 * radius * FINE
    }

    /// How far `self` is pushed to end an overlap with `other`, which is
    /// pushed as far the other way: half the depth of the overlap along the
    /// line of centres, rounded toward zero.
    pub open spec fn push(self, other: Body, radius: int) -> Vec2 {
        let span = self.span(other);
        self.center.minus(other.center).times(2 * radius * FINE - span).over(2 * span)
    }
}

/// The bodies of the spheres of a scene.
pub open spec fn scene(objects: Seq<Object>) -> Seq<Body> {
    Seq::new(objects.len(), |i: int| objects[i].sphere@)
}

/// The two scenes have the same objects but for where their spheres are and
/// how they move.
pub open spec fn same_looks(before: Seq<Object>, after: Seq<Object>) -> bool {
    &&& before.len() == after.len()
    &&& forall|i: int|
        0 <= i < before.len() ==> (#[trigger] after[i]).sphere.points == before[i].sphere.points
            && after[i].sphere.radius == before[i].sphere.radius && after[i].vertices
            == before[i].vertices && after[i].indices == before[i].indices
}

/// Every body one tick later, if nothing is in its way.
pub open spec fn integrated(bodies: Seq<Body>) -> Seq<Body> {
    Seq::new(bodies.len(), |i: int| bodies[i].moved())
}

/// Every body after the walls turned it round where it left the viewport.
pub open spec fn reflected(bodies: Seq<Body>) -> Seq<Body> {
    Seq::new(bodies.len(), |i: int| bodies[i].reflected())
}

/// The scene after the bodies `first` and `second`, which were `a` and `b`
/// when the pass began, were looked at: if `a` and `b` collide, each of the
/// two gets the velocity with which it rebounds from the other.
pub open spec fn hit(bodies: Seq<Body>, first: int, second: int, a: Body, b: Body) -> Seq<Body> {
    if a.touches(b) {
        bodies.update(first, Body { velocity: a.rebound(b), ..bodies[first] }).update(
            second,
            Body { velocity: b.rebound(a), ..bodies[second] },
        )
    } else {
        bodies
    }
}

/// The scene after the pairs of `first` with each of the first `count` bodies
/// were looked at in turn. What decides on a pair is `snapshot`, the scene as
/// it was when the pass began.
pub open spec fn swept_row(snapshot: Seq<Body>, bodies: Seq<Body>, first: int, count: int) -> Seq<
    Body,
>
    decreases count,
{
    if count <= 0 {
        bodies
    } else {
        let before = swept_row(snapshot, bodies, first, count - 1);
        hit(before, first, count - 1, snapshot[first], snapshot[count - 1])
    }
}

/// The scene after the pairs of each of the first `rows` bodies with every
/// body were looked at, row by row.
pub open spec fn swept(snapshot: Seq<Body>, bodies: Seq<Body>, rows: int) -> Seq<Body>
    decreases rows,
{
    if rows <= 0 {
        bodies
    } else {
        swept_row(snapshot, swept(snapshot, bodies, rows - 1), rows - 1, snapshot.len() as int)
    }
}

/// The scene after the collision pass: the walls turn the bodies round, then
/// every ordered pair of bodies is looked at, and all of them are judged by
/// the scene as the walls left it. A body that collides with several others
/// in one tick rebounds from the one whose pair is looked at last.
pub open spec fn collided(bodies: Seq<Body>) -> Seq<Body> {
    let walled = reflected(bodies);
    swept(walled, walled, walled.len() as int)
}

/// The scene after the bodies `first` and `second` were pushed apart, if
/// they overlap as the scene stands.
pub open spec fn parted(bodies: Seq<Body>, first: int, second: int, radius: int) -> Seq<Body> {
    let a = bodies[first];
    let b = bodies[second];
    if a.overlaps(b, radius) {
        let shift = a.push(b, radius);
        bodies.update(first, Body { center: a.center.plus(shift).clamped(), ..a }).update(
            second,
            Body { center: b.center.minus(shift).clamped(), ..b },
        )
    } else {
        bodies
    }
}

/// The scene after the pairs of `first` with each of the first `count` bodies
/// were pushed apart in turn.
pub open spec fn parted_row(bodies: Seq<Body>, first: int, count: int, radius: int) -> Seq<Body>
    decreases count,
{
    if count <= 0 {
        bodies
    } else {
        parted(parted_row(bodies, first, count - 1, radius), first, count - 1, radius)
    }
}

/// The scene after the pairs of each of the first `rows` bodies with every
/// body were pushed apart, row by row.
pub open spec fn parted_rows(bodies: Seq<Body>, rows: int, radius: int) -> Seq<Body>
    decreases rows,
{
    if rows <= 0 {
        bodies
    } else {
        parted_row(parted_rows(bodies, rows - 1, radius), rows - 1, bodies.len() as int, radius)
    }
}

/// The scene after the overlap correction: every ordered pair of bodies is
/// looked at in turn, as the scene stands by then, with the radius of the
/// first body for all of them. An empty scene stays empty.
pub open spec fn adjusted(bodies: Seq<Body>) -> Seq<Body> {
    if bodies.len() == 0 {
        bodies
    } else {
        parted_rows(bodies, bodies.len() as int, bodies[0].radius)
    }
}

/// The scene one tick later.
pub open spec fn ticked(bodies: Seq<Body>) -> Seq<Body> {
    adjusted(collided(integrated(bodies)))
}

/// Moves every sphere by its velocity.
pub fn update(objects: &mut Vec<Object>)
    ensures
        scene(final(objects)@) == integrated(scene(old(objects)@)),
        same_looks(old(objects)@, final(objects)@),
{
    let mut index: usize = 0;
    while index < objects.len()
        invariant
            index <= objects.len(),
            objects.len() == old(objects).len(),
            same_looks(old(objects)@, objects@),
            forall|i: int|
                0 <= i < index ==> (#[trigger] objects[i]).sphere@ == old(
                    objects,
                )[i].sphere@.moved(),
            forall|i: int|
                index <= i < objects.len() ==> (#[trigger] objects[i]).sphere@ == old(
                    objects,
                )[i].sphere@,
        decreases objects.len() - index,
    {
        let velocity = objects[index].sphere.velocity;
        let center = crate::operations::add(objects[index].sphere.center, velocity);
        objects[index].update(center, velocity);
        index += 1;
    }
    assert(scene(objects@) =~= integrated(scene(old(objects)@)));
}

/// The speed along one axis after the walls of that axis were looked at.
fn turned(position: i32, speed: i32, radius: i32) -> (out: i32)
    ensures
        out == bounce(position as int, speed as int, radius as int),
{
    let reach: i64 = if position < 0 {
        -(position as i64)
    } else {
        position as i64
    } + radius as i64;
    if reach > ONE as i64 && (position >= 0) == (speed >= 0) {
        saturate(-(speed as i128))
    } else {
        speed
    }
}

/// Turns a sphere round where it left the viewport.
pub fn wall(object: &mut Object)
    ensures
        final(object).sphere@ == old(object).sphere@.reflected(),
        final(object).sphere.points == old(object).sphere.points,
        final(object).sphere.radius == old(object).sphere.radius,
        final(object).vertices == old(object).vertices,
        final(object).indices == old(object).indices,
{
    let center = object.sphere.center;
    let radius = object.sphere.radius;
    let velocity = object.sphere.velocity;
    let x: i32 = turned(center[0], velocity[0], radius);
    let y: i32 = turned(center[1], velocity[1], radius);
    object.update(center, [x, y]);
}

/// Whether two spheres collide.
pub fn touches(first: &Sphere, second: &Sphere) -> (out: bool)
    ensures
        out == first@.touches(second@),
{
    if first.center[0] == second.center[0] && first.center[1] == second.center[1] {
        return false;
    }
    if first.radius < 0 {
        return false;
    }
    let limit: i128 = 2 * (first.radius as i128);
    let bound: u128 = multiply(limit, limit) as u128;
    let mine = crate::operations::add(first.center, first.velocity);
    let yours = crate::operations::add(second.center, second.velocity);
    gap2(mine, yours) <= bound
}

/// The velocity of `first` after an elastic collision with `second`.
pub fn rebound(first: &Sphere, second: &Sphere) -> (out: [i32; 2])
    ensures
        vector(out) == first@.rebound(second@),
{
    if first.center[0] == second.center[0] && first.center[1] == second.center[1] {
        return first.velocity;
    }
    let apart_x: i128 = first.center[0] as i128 - second.center[0] as i128;
    let apart_y: i128 = first.center[1] as i128 - second.center[1] as i128;
    let closing_x: i128 = first.velocity[0] as i128 - second.velocity[0] as i128;
    let closing_y: i128 = first.velocity[1] as i128 - second.velocity[1] as i128;
    proof {
        lemma_product_within(closing_x as int, apart_x as int, 0x1_0000_0000, 0x1_0000_0000);
        lemma_product_within(closing_y as int, apart_y as int, 0x1_0000_0000, 0x1_0000_0000);
    }
    let along: i128 = multiply(closing_x, apart_x) + multiply(closing_y, apart_y);
    let span2: i128 = gap2(first.center, second.center) as i128;
    assert(span2 > 0) by (nonlinear_arith)
        requires
            span2 == apart_x * apart_x + apart_y * apart_y,
            apart_x != 0 || apart_y != 0,
    ;
    proof {
        lemma_product_within(
            apart_x as int,
            along as int,
            0x1_0000_0000,
            0x2_0000_0000_0000_0000,
        );
        lemma_product_within(
            apart_y as int,
            along as int,
            0x1_0000_0000,
            0x2_0000_0000_0000_0000,
        );
        lemma_quot_bounded(apart_x * along, span2 as int);
        lemma_quot_bounded(apart_y * along, span2 as int);
    }
    let x: i128 = first.velocity[0] as i128 - divide(multiply(along, apart_x), span2);
    let y: i128 = first.velocity[1] as i128 - divide(multiply(along, apart_y), span2);
    [saturate(x), saturate(y)]
}

/// Lets the spheres `first` and `second` collide, judged by what they were
/// when the pass began: `a` and `b`.
fn strike(objects: &mut Vec<Object>, first: usize, second: usize, a: &Sphere, b: &Sphere)
    requires
        first < old(objects).len(),
        second < old(objects).len(),
    ensures
        scene(final(objects)@) == hit(
            scene(old(objects)@),
            first as int,
            second as int,
            a@,
            b@,
        ),
        same_looks(old(objects)@, final(objects)@),
{
    if touches(a, b) {
        let mine = rebound(a, b);
        let yours = rebound(b, a);
        objects[first].sphere.velocity = mine;
        objects[second].sphere.velocity = yours;
    }
    assert(scene(objects@) =~= hit(scene(old(objects)@), first as int, second as int, a@, b@));
}

/// Lets the spheres `first` and `second` collide, if they are about to
/// touch: each of the two gets the velocity with which it rebounds from the
/// other. Two spheres at one place are left alone.
pub fn inner(objects: &mut Vec<Object>, first: usize, second: usize)
    requires
        first < old(objects).len(),
        second < old(objects).len(),
    ensures
        scene(final(objects)@) == hit(
            scene(old(objects)@),
            first as int,
            second as int,
            scene(old(objects)@)[first as int],
            scene(old(objects)@)[second as int],
        ),
        same_looks(old(objects)@, final(objects)@),
{
    let a = objects[first].sphere;
    let b = objects[second].sphere;
    strike(objects, first, second, &a, &b);
}

/// The collision pass of a tick. First the walls turn round every sphere
/// that left the viewport. Then every ordered pair of spheres is looked at,
/// by ascending index of the first and then of the second, and a pair that
/// is about to touch rebounds. Every pair is judged by the scene as the
/// walls left it, not by what earlier pairs of the same pass made of it, so
/// the outcome for a pair does not depend on which of the two comes first.
pub fn collisions(objects: &mut Vec<Object>)
    ensures
        scene(final(objects)@) == collided(scene(old(objects)@)),
        same_looks(old(objects)@, final(objects)@),
{
    let count: usize = objects.len();
    let mut index: usize = 0;
    while index < count
        invariant
            index <= count,
            objects.len() == count,
            old(objects).len() == count,
            same_looks(old(objects)@, objects@),
            forall|i: int|
                0 <= i < index ==> (#[trigger] objects[i]).sphere@ == old(
                    objects,
                )[i].sphere@.reflected(),
            forall|i: int|
                index <= i < count ==> (#[trigger] objects[i]).sphere@ == old(objects)[i].sphere@,
        decreases count - index,
    {
        wall(&mut objects[index]);
        index += 1;
    }
    let ghost walled = scene(objects@);
    assert(walled =~= reflected(scene(old(objects)@)));
    let mut snapshot: Vec<Sphere> = Vec::new();
    let mut index: usize = 0;
    while index < count
        invariant
            index <= count,
            objects.len() == count,
            snapshot.len() == index,
            walled == scene(objects@),
            forall|i: int| 0 <= i < index ==> (#[trigger] snapshot[i])@ == walled[i],
        decreases count - index,
    {
        snapshot.push(objects[index].sphere);
        index += 1;
    }
    let mut first: usize = 0;
    while first < count
        invariant
            first <= count,
            objects.len() == count,
            old(objects).len() == count,
            snapshot.len() == count,
            walled.len() == count,
            forall|i: int| 0 <= i < count ==> (#[trigger] snapshot[i])@ == walled[i],
            same_looks(old(objects)@, objects@),
            scene(objects@) == swept(walled, walled, first as int),
        decreases count - first,
    {
        let mut second: usize = 0;
        while second < count
            invariant
                first < count,
                second <= count,
                objects.len() == count,
                old(objects).len() == count,
                snapshot.len() == count,
                walled.len() == count,
                forall|i: int| 0 <= i < count ==> (#[trigger] snapshot[i])@ == walled[i],
                same_looks(old(objects)@, objects@),
                scene(objects@) == swept_row(
                    walled,
                    swept(walled, walled, first as int),
                    first as int,
                    second as int,
                ),
            decreases count - second,
        {
            if first != second {
                strike(objects, first, second, &snapshot[first], &snapshot[second]);
            }
            second += 1;
        }
        first += 1;
    }
}

/// Pushes the spheres `first` and `second` apart, if they overlap.
fn part(objects: &mut Vec<Object>, first: usize, second: usize, radius: i32)
    requires
        first < old(objects).len(),
        second < old(objects).len(),
    ensures
        scene(final(objects)@) == parted(
            scene(old(objects)@),
            first as int,
            second as int,
            radius as int,
        ),
        same_looks(old(objects)@, final(objects)@),
{
    let a = objects[first].sphere.center;
    let b = objects[second].sphere.center;
    let span: i128 = isqrt(gap2(a, b) * (FINE as u128 * FINE as u128)) as i128;
    proof {
        lemma_product_within(2 * radius as int, FINE as int, 0x1_0000_0000, 10_000_000);
    }
    let detour: i128 = multiply(2 * (radius as i128), FINE as i128) - span;
    if detour > 0 && span > 0 {
        let apart_x: i128 = a[0] as i128 - b[0] as i128;
        let apart_y: i128 = a[1] as i128 - b[1] as i128;
        proof {
            lemma_product_within(
                apart_x as int,
                detour as int,
                0x1_0000_0000,
                0x100_0000_0000_0000,
            );
            lemma_product_within(
                apart_y as int,
                detour as int,
                0x1_0000_0000,
                0x100_0000_0000_0000,
            );
            lemma_quot_bounded(apart_x * detour, 2 * span as int);
            lemma_quot_bounded(apart_y * detour, 2 * span as int);
        }
        let shift_x: i128 = divide(multiply(apart_x, detour), 2 * span);
        let shift_y: i128 = divide(multiply(apart_y, detour), 2 * span);
        objects[first].sphere.center = [
            saturate(a[0] as i128 + shift_x),
            saturate(a[1] as i128 + shift_y),
        ];
        objects[second].sphere.center = [
            saturate(b[0] as i128 - shift_x),
            saturate(b[1] as i128 - shift_y),
        ];
    }
    assert(scene(objects@) =~= parted(
        scene(old(objects)@),
        first as int,
        second as int,
        radius as int,
    ));
}

/// The overlap correction of a tick. Every ordered pair of spheres is looked
/// at, by ascending index of the first and then of the second, and a pair
/// that overlaps as the scene stands by then is pushed apart along its line
/// of centres, each sphere by half the depth of the overlap. The radius of
/// the first sphere of the scene counts for all. Velocities stay as they
/// are, two spheres at one place are left alone, and an empty scene stays
/// empty.
pub fn adjust(objects: &mut Vec<Object>)
    ensures
        scene(final(objects)@) == adjusted(scene(old(objects)@)),
        same_looks(old(objects)@, final(objects)@),
{
    let count: usize = objects.len();
    if count == 0 {
        return ;
    }
    let radius: i32 = objects[0].sphere.radius;
    let ghost start = scene(objects@);
    let mut first: usize = 0;
    while first < count
        invariant
            first <= count,
            objects.len() == count,
            old(objects).len() == count,
            start.len() == count,
            same_looks(old(objects)@, objects@),
            scene(objects@) == parted_rows(start, first as int, radius as int),
        decreases count - first,
    {
        let mut second: usize = 0;
        while second < count
            invariant
                first < count,
                second <= count,
                objects.len() == count,
                old(objects).len() == count,
                start.len() == count,
                same_looks(old(objects)@, objects@),
                scene(objects@) == parted_row(
                    parted_rows(start, first as int, radius as int),
                    first as int,
                    second as int,
                    radius as int,
                ),
            decreases count - second,
        {
            if first != second {
                part(objects, first, second, radius);
            }
            second += 1;
        }
        first += 1;
    }
}

/// Advances the scene by one tick: the spheres move, the walls and the
/// spheres turn them round, and what still overlaps is pushed apart.
pub fn tick(objects: &mut Vec<Object>)
    ensures
        scene(final(objects)@) == ticked(scene(old(objects)@)),
        same_looks(old(objects)@, final(objects)@),
{
    update(objects);
    collisions(objects);
    adjust(objects);
}

/// What the frame loop does about `event`: it stops when the window is to
/// be closed, advances the scene when it starts and whenever the time it
/// waited for has come, and waits for the next event otherwise.
pub fn respond(event: Event) -> (out: Action)
    ensures
        out == match event {
            Event::Close => Action::Exit,
            Event::Init | Event::Resumed => Action::Advance,
            Event::Window | Event::Woken | Event::Other => Action::Wait,
        },
{
    match event {
        Event::Close => Action::Exit,
        Event::Window => Action::Wait,
        Event::Init => Action::Advance,
        Event::Resumed => Action::Advance,
        Event::Woken => Action::Wait,
        Event::Other => Action::Wait,
    }
}

} // verus!
