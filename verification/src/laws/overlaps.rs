//! What the overlap correction achieves.

use vstd::prelude::*;
use crate::algebra::{
    lemma_axis_within_span, lemma_clearance, lemma_mean_square, lemma_push_short,
    lemma_pushed_far_enough, lemma_pushed_near, lemma_pushed_not_too_far, lemma_scaled_order,
    lemma_spread, lemma_square_of_product, lemma_turned_round,
};
use crate::engine::{adjusted, parted, parted_row, parted_rows};
use crate::geometry::Body;
use crate::operations::{
    floor_sqrt, lemma_floor_sqrt_at_least, lemma_floor_sqrt_exists, lemma_floor_sqrt_unique, quot,
    size,
};
use crate::settings::FINE;

verus! {

impl Body {
    /// The centre of the body can move by `margin` along each axis without
    /// leaving the range of `i32`.
    pub open spec fn roomy(self, margin: int) -> bool {
        &&& i32::MIN + margin <= self.center.x <= i32::MAX - margin
        &&& i32::MIN + margin <= self.center.y <= i32::MAX - margin
    }
}

/// The two scenes have bodies of the same velocities and radii.
pub open spec fn same_motion(before: Seq<Body>, after: Seq<Body>) -> bool {
    &&& before.len() == after.len()
    &&& forall|i: int|
        0 <= i < before.len() ==> (#[trigger] after[i]).velocity == before[i].velocity
            && after[i].radius == before[i].radius
}

/// The square of the distance between the centres of two bodies of the
/// scene.
pub open spec fn gap(bodies: Seq<Body>, first: int, second: int) -> int {
    bodies[first].center.minus(bodies[second].center).norm2()
}

/// No two bodies of the scene overlap, for spheres of `radius`.
pub open spec fn none_overlap(bodies: Seq<Body>, radius: int) -> bool {
    forall|i: int, j: int|
        0 <= i < bodies.len() && 0 <= j < bodies.len() ==> !(#[trigger] bodies[i]).overlaps(
            #[trigger] bodies[j],
            radius,
        )
}

/// The body `first` overlaps with none of the bodies from `from` up to
/// `count`.
pub open spec fn row_clear(
    bodies: Seq<Body>,
    first: int,
    from: int,
    count: int,
    radius: int,
) -> bool {
    forall|second: int|
        from <= second < count ==> !bodies[first].overlaps(#[trigger] bodies[second], radius)
}

/// None of the bodies from `from` up to `rows` overlaps with any body.
pub open spec fn rows_clear(bodies: Seq<Body>, from: int, rows: int, radius: int) -> bool {
    forall|first: int| from <= first < rows ==> #[trigger] row_clear(
        bodies,
        first,
        0,
        bodies.len() as int,
        radius,
    )
}

/// In the scene no pair of bodies overlaps but, at most, that of `first` and
/// `second`.
pub open spec fn clear_but(bodies: Seq<Body>, first: int, second: int, radius: int) -> bool {
    forall|i: int, j: int|
        0 <= i < bodies.len() && 0 <= j < bodies.len() && !(i == first && j == second) && !(i
            == second && j == first) ==> !(#[trigger] bodies[i]).overlaps(
            #[trigger] bodies[j],
            radius,
        )
}

/// Only the bodies `first` and `second` of the scene can overlap, and where
/// they are pushed to they meet no other: any two others are two radii apart
/// or more, and any other is six radii or more from both.
pub open spec fn lone_pair(bodies: Seq<Body>, first: int, second: int, radius: int) -> bool {
    &&& forall|a: int, b: int|
        0 <= a < bodies.len() && 0 <= b < bodies.len() && a != b && a != first && a != second
            && b != first && b != second ==> #[trigger] gap(bodies, a, b) >= (2 * radius) * (2
            * radius)
    &&& forall|other: int|
        0 <= other < bodies.len() && other != first && other != second ==> #[trigger] gap(
            bodies,
            other,
            first,
        ) >= (6 * radius) * (6 * radius)
    &&& forall|other: int|
        0 <= other < bodies.len() && other != first && other != second ==> #[trigger] gap(
            bodies,
            other,
            second,
        ) >= (6 * radius) * (6 * radius)
}

/// Pushing the pairs of one body apart changes no velocity.
proof fn lemma_parted_row_keeps(bodies: Seq<Body>, first: int, count: int, radius: int)
    requires
        0 <= first < bodies.len(),
        0 <= count <= bodies.len(),
    ensures
        same_motion(bodies, parted_row(bodies, first, count, radius)),
    decreases count,
{
    if count > 0 {
        lemma_parted_row_keeps(bodies, first, count - 1, radius);
        let before = parted_row(bodies, first, count - 1, radius);
        assert(same_motion(before, parted(before, first, count - 1, radius)));
    }
}

/// Pushing the pairs of the first rows apart changes no velocity.
proof fn lemma_parted_rows_keep(bodies: Seq<Body>, rows: int, radius: int)
    requires
        0 <= rows <= bodies.len(),
    ensures
        same_motion(bodies, parted_rows(bodies, rows, radius)),
    decreases rows,
{
    if rows > 0 {
        lemma_parted_rows_keep(bodies, rows - 1, radius);
        let before = parted_rows(bodies, rows - 1, radius);
        lemma_parted_row_keeps(before, rows - 1, bodies.len() as int, radius);
    }
}

/// The overlap correction changes no velocity and no radius.
pub proof fn lemma_adjusted_keeps_motion(bodies: Seq<Body>)
    ensures
        same_motion(bodies, adjusted(bodies)),
{
    if bodies.len() > 0 {
        lemma_parted_rows_keep(bodies, bodies.len() as int, bodies[0].radius);
    }
}

/// A body does not overlap with a body at its own place.
pub proof fn lemma_same_place_is_clear(body: Body, radius: int)
    ensures
        !body.overlaps(body, radius),
{
    let gap = body.center.minus(body.center).norm2();
    assert(gap * (FINE * FINE) == 0) by (nonlinear_arith)
        requires
            gap == 0,
    ;
    lemma_floor_sqrt_unique(0, 0);
}

/// The distance between two bodies is the same either way round.
proof fn lemma_gap_either_way(first: Body, second: Body)
    ensures
        first.center.minus(second.center).norm2() == second.center.minus(first.center).norm2(),
        first.span(second) == second.span(first),
{
    let there = first.center.minus(second.center);
    let back = second.center.minus(first.center);
    lemma_turned_round(there.x, there.y, there.x, there.y);
    assert(back.x == -there.x && back.y == -there.y);
}

/// The distance between two bodies in `FINE`-ths of a unit falls short of
/// `FINE` times the distance in units, rounded down, and one more.
proof fn lemma_span_is_short(first: Body, second: Body)
    ensures
        first.span(second) < (floor_sqrt(first.center.minus(second.center).norm2()) + 1) * FINE,
{
    let gap = first.center.minus(second.center).norm2();
    let fine = FINE as int;
    lemma_mean_square(first.center.minus(second.center).x, first.center.minus(second.center).y);
    lemma_floor_sqrt_exists(gap);
    assert(gap * (fine * fine) >= 0) by (nonlinear_arith)
        requires
            gap >= 0,
    ;
    lemma_floor_sqrt_exists(gap * (fine * fine));
    let root = floor_sqrt(gap);
    let span = first.span(second);
    lemma_square_of_product(root + 1, fine);
    assert(gap * (fine * fine) < ((root + 1) * (root + 1)) * (fine * fine)) by (nonlinear_arith)
        requires
            gap < (root + 1) * (root + 1),
            fine > 0,
    ;
    assert(span < (root + 1) * fine) by (nonlinear_arith)
        requires
            span * span < ((root + 1) * fine) * ((root + 1) * fine),
            span >= 0,
            root >= 0,
            fine > 0,
    {
        if span >= (root + 1) * fine {
            assert((root + 1) * fine >= 0);
            assert(span * span >= ((root + 1) * fine) * ((root + 1) * fine));
        }
    }
}

/// Two bodies whose centres are two radii apart or more do not overlap.
pub proof fn lemma_apart_is_clear(first: Body, second: Body, radius: int)
    requires
        first.center.minus(second.center).norm2() >= (2 * radius) * (2 * radius),
    ensures
        !first.overlaps(second, radius),
{
    let gap = first.center.minus(second.center).norm2();
    let wide = 2 * radius * FINE;
    if wide >= 0 {
        lemma_square_of_product(2 * radius, FINE as int);
        lemma_scaled_order(FINE * FINE, (2 * radius) * (2 * radius), gap);
        assert(gap * (FINE * FINE) == (FINE * FINE) * gap) by (nonlinear_arith);
        assert(((2 * radius) * (2 * radius)) * (FINE * FINE) == (FINE * FINE) * ((2 * radius) * (2
            * radius))) by (nonlinear_arith);
        lemma_floor_sqrt_at_least(gap * (FINE * FINE), wide);
    }
}

/// Two bodies at different places that do not overlap are two radii apart
/// or more.
proof fn lemma_clear_is_apart(first: Body, second: Body, radius: int)
    requires
        first.center != second.center,
        !first.overlaps(second, radius),
    ensures
        floor_sqrt(first.center.minus(second.center).norm2()) >= 2 * radius,
{
    let line = first.center.minus(second.center);
    assert(line.norm2() >= 1) by (nonlinear_arith)
        requires
            line.norm2() == line.x * line.x + line.y * line.y,
            line.x != 0 || line.y != 0,
    ;
    lemma_scaled_order(FINE * FINE, 1, line.norm2());
    assert(line.norm2() * (FINE * FINE) == (FINE * FINE) * line.norm2()) by (nonlinear_arith);
    lemma_floor_sqrt_at_least(line.norm2() * (FINE * FINE), FINE as int);
    lemma_span_is_short(first, second);
    lemma_floor_sqrt_exists(line.norm2());
    assert(floor_sqrt(line.norm2()) >= 2 * radius) by (nonlinear_arith)
        requires
            first.span(second) >= 2 * radius * FINE,
            first.span(second) < (floor_sqrt(line.norm2()) + 1) * FINE,
            FINE > 0,
    ;
}

/// A body that is six radii or more away from where another was does not
/// overlap with the other when that moved by less than two radii along each
/// axis.
proof fn lemma_still_clear(fixed: Body, before: Body, after: Body, radius: int)
    requires
        radius >= 0,
        fixed.center.minus(before.center).norm2() >= (6 * radius) * (6 * radius),
        size(after.center.x - before.center.x) < 2 * radius,
        size(after.center.y - before.center.y) < 2 * radius,
    ensures
        fixed.center.minus(after.center).norm2() >= (2 * radius) * (2 * radius),
        after.center.minus(fixed.center).norm2() >= (2 * radius) * (2 * radius),
        !fixed.overlaps(after, radius),
        !after.overlaps(fixed, radius),
{
    let line = fixed.center.minus(before.center);
    lemma_clearance(
        line.x,
        line.y,
        before.center.x - after.center.x,
        before.center.y - after.center.y,
        radius,
    );
    let there = fixed.center.minus(after.center);
    let back = after.center.minus(fixed.center);
    assert(there.x == line.x + (before.center.x - after.center.x));
    assert(there.y == line.y + (before.center.y - after.center.y));
    lemma_turned_round(there.x, there.y, there.x, there.y);
    assert(back.x == -there.x && back.y == -there.y);
    lemma_apart_is_clear(fixed, after, radius);
    lemma_apart_is_clear(after, fixed, radius);
}

/// Where nothing overlaps, looking at the pairs of one body changes nothing.
proof fn lemma_parted_row_rests(bodies: Seq<Body>, first: int, count: int, radius: int)
    requires
        0 <= first < bodies.len(),
        0 <= count <= bodies.len(),
        none_overlap(bodies, radius),
    ensures
        parted_row(bodies, first, count, radius) == bodies,
    decreases count,
{
    if count > 0 {
        lemma_parted_row_rests(bodies, first, count - 1, radius);
        assert(!bodies[first].overlaps(bodies[count - 1], radius));
    }
}

/// Where nothing overlaps, looking at the pairs of the first rows changes
/// nothing.
proof fn lemma_parted_rows_rest(bodies: Seq<Body>, rows: int, radius: int)
    requires
        0 <= rows <= bodies.len(),
        none_overlap(bodies, radius),
    ensures
        parted_rows(bodies, rows, radius) == bodies,
    decreases rows,
{
    if rows > 0 {
        lemma_parted_rows_rest(bodies, rows - 1, radius);
        lemma_parted_row_rests(bodies, rows - 1, bodies.len() as int, radius);
    }
}

/// Where nothing overlaps, the overlap correction changes nothing.
pub proof fn lemma_adjusted_rests(bodies: Seq<Body>)
    requires
        bodies.len() > 0 ==> none_overlap(bodies, bodies[0].radius),
    ensures
        adjusted(bodies) == bodies,
{
    if bodies.len() > 0 {
        lemma_parted_rows_rest(bodies, bodies.len() as int, bodies[0].radius);
    }
}

/// What is left of the pairs of one body changes nothing if none of them
/// overlaps.
proof fn lemma_parted_row_tail(bodies: Seq<Body>, first: int, from: int, count: int, radius: int)
    requires
        0 <= from <= count,
        row_clear(parted_row(bodies, first, from, radius), first, from, count, radius),
    ensures
        parted_row(bodies, first, count, radius) == parted_row(bodies, first, from, radius),
    decreases count,
{
    if count > from {
        lemma_parted_row_tail(bodies, first, from, count - 1, radius);
        let start = parted_row(bodies, first, from, radius);
        assert(!start[first].overlaps(start[count - 1], radius));
    }
}

/// What is left of the rows changes nothing if none of their pairs
/// overlaps.
proof fn lemma_parted_rows_tail(bodies: Seq<Body>, from: int, rows: int, radius: int)
    requires
        0 <= from <= rows <= bodies.len(),
        rows_clear(parted_rows(bodies, from, radius), from, rows, radius),
    ensures
        parted_rows(bodies, rows, radius) == parted_rows(bodies, from, radius),
    decreases rows,
{
    if rows > from {
        lemma_parted_rows_tail(bodies, from, rows - 1, radius);
        lemma_parted_rows_keep(bodies, from, radius);
        let start = parted_rows(bodies, from, radius);
        assert(row_clear(start, rows - 1, 0, start.len() as int, radius));
        assert(parted_row(start, rows - 1, 0, radius) == start);
        lemma_parted_row_tail(start, rows - 1, 0, bodies.len() as int, radius);
    }
}

/// No overlap after the correction, for one pair. Two bodies that overlap
/// are, once they were pushed apart, no closer than three units short of two
/// radii and no further than two radii and their `FINE`-th part; and neither
/// was moved by as much as a radius along an axis. Their centres must have
/// room to move by a radius.
pub proof fn lemma_parted_apart(bodies: Seq<Body>, first: int, second: int, radius: int)
    requires
        0 <= first < bodies.len(),
        0 <= second < bodies.len(),
        bodies[first].overlaps(bodies[second], radius),
        bodies[first].roomy(radius),
        bodies[second].roomy(radius),
    ensures
        ({
            let after = parted(bodies, first, second, radius);
            let near = floor_sqrt(after[first].center.minus(after[second].center).norm2());
            &&& after.len() == bodies.len()
            &&& 2 * radius - 3 <= near
            &&& FINE * near <= 2 * radius * (FINE + 1)
            &&& size(after[first].center.x - bodies[first].center.x) < radius
            &&& size(after[first].center.y - bodies[first].center.y) < radius
            &&& size(after[second].center.x - bodies[second].center.x) < radius
            &&& size(after[second].center.y - bodies[second].center.y) < radius
            &&& forall|i: int|
                0 <= i < bodies.len() && i != first && i != second ==> after[i] == bodies[i]
        }),
{
    let a = bodies[first];
    let b = bodies[second];
    let apart = a.center.minus(b.center);
    let gap = apart.norm2();
    let fine = FINE as int;
    let span = a.span(b);
    let reach = 2 * radius;
    let wide = reach * fine;
    let detour = wide - span;
    lemma_mean_square(apart.x, apart.y);
    assert(gap >= 0);
    assert(gap * (fine * fine) >= 0) by (nonlinear_arith)
        requires
            gap >= 0,
    ;
    lemma_floor_sqrt_exists(gap * (fine * fine));
    // The centres are at different places, at least `FINE` `FINE`-ths apart.
    assert(gap >= 1) by {
        if gap == 0 {
            assert(gap * (fine * fine) == 0) by (nonlinear_arith)
                requires
                    gap == 0,
            ;
            assert(false) by (nonlinear_arith)
                requires
                    span > 0,
                    span * span <= 0,
            ;
        }
    }
    assert(first != second) by {
        if first == second {
            assert(gap == 0) by (nonlinear_arith)
                requires
                    gap == apart.x * apart.x + apart.y * apart.y,
                    apart.x == 0,
                    apart.y == 0,
            ;
        }
    }
    lemma_scaled_order(fine * fine, 1, gap);
    assert(gap * (fine * fine) == (fine * fine) * gap) by (nonlinear_arith);
    lemma_floor_sqrt_at_least(gap * (fine * fine), fine);
    // Along each axis the push is shorter than the radius.
    lemma_square_of_product(apart.x, fine);
    lemma_square_of_product(apart.y, fine);
    lemma_spread(fine * fine, apart.x * apart.x, apart.y * apart.y);
    lemma_axis_within_span(apart.x * fine, apart.y * fine, span);
    lemma_axis_within_span(apart.y * fine, apart.x * fine, span);
    lemma_push_short(apart.x, span, detour, fine);
    lemma_push_short(apart.y, span, detour, fine);
    let shift = a.push(b, radius);
    assert(shift.x == quot(apart.x * detour, 2 * span));
    assert(shift.y == quot(apart.y * detour, 2 * span));
    assert(size(shift.x) < radius && size(shift.y) < radius) by (nonlinear_arith)
        requires
            2 * fine * size(shift.x) <= detour,
            2 * fine * size(shift.y) <= detour,
            detour < 2 * radius * fine,
            fine > 0,
    ;
    let after = parted(bodies, first, second, radius);
    assert(after[first].center == a.center.plus(shift));
    assert(after[second].center == b.center.minus(shift));
    let grown = after[first].center.minus(after[second].center);
    assert(grown.x == apart.x + 2 * shift.x);
    assert(grown.y == apart.y + 2 * shift.y);
    // How far apart the push leaves them.
    lemma_pushed_far_enough(apart.x, apart.y, span, reach, fine);
    lemma_pushed_not_too_far(apart.x, apart.y, span, wide);
    lemma_mean_square(grown.x, grown.y);
    lemma_floor_sqrt_exists(grown.norm2());
    let near = floor_sqrt(grown.norm2());
    if reach >= 3 {
        lemma_floor_sqrt_at_least(grown.norm2(), reach - 3);
    }
    assert(reach > 0) by (nonlinear_arith)
        requires
            reach * fine > span,
            span > 0,
            fine > 0,
    ;
    lemma_pushed_near(near, grown.norm2(), gap, span, reach, fine);
}

/// Where only one pair can overlap, the row of one of the two pushes that
/// pair apart, and does nothing else.
proof fn lemma_lone_pair_row(bodies: Seq<Body>, first: int, second: int, radius: int)
    requires
        0 <= first < bodies.len(),
        0 <= second < bodies.len(),
        first != second,
        row_clear(bodies, first, 0, second, radius),
        row_clear(
            parted(bodies, first, second, radius),
            first,
            second + 1,
            bodies.len() as int,
            radius,
        ),
    ensures
        parted_row(bodies, first, bodies.len() as int, radius) == parted(
            bodies,
            first,
            second,
            radius,
        ),
{
    let count = bodies.len() as int;
    let once = parted(bodies, first, second, radius);
    assert(parted_row(bodies, first, 0, radius) == bodies);
    lemma_parted_row_tail(bodies, first, 0, second, radius);
    assert(parted_row(bodies, first, second + 1, radius) == once);
    lemma_parted_row_tail(bodies, first, second + 1, count, radius);
}

/// Where only one pair can overlap, the overlap correction pushes that pair
/// apart, once from each side, and does nothing else.
proof fn lemma_lone_pair_parted(bodies: Seq<Body>, first: int, second: int, radius: int)
    requires
        0 <= first < second < bodies.len(),
        clear_but(bodies, first, second, radius),
        clear_but(parted(bodies, first, second, radius), first, second, radius),
        clear_but(
            parted(parted(bodies, first, second, radius), second, first, radius),
            first,
            second,
            radius,
        ),
    ensures
        parted_rows(bodies, bodies.len() as int, radius) == parted(
            parted(bodies, first, second, radius),
            second,
            first,
            radius,
        ),
{
    let count = bodies.len() as int;
    let once = parted(bodies, first, second, radius);
    let twice = parted(once, second, first, radius);
    assert(once.len() == count && twice.len() == count);
    // The rows before that of `first`.
    assert(rows_clear(bodies, 0, first, radius)) by {
        assert forall|row: int| 0 <= row < first implies #[trigger] row_clear(
            bodies,
            row,
            0,
            count,
            radius,
        ) by {
            assert forall|column: int| 0 <= column < count implies !bodies[row].overlaps(
                #[trigger] bodies[column],
                radius,
            ) by {}
        }
    }
    lemma_parted_rows_tail(bodies, 0, first, radius);
    assert(parted_rows(bodies, first, radius) == bodies);
    // The row of `first`.
    lemma_lone_pair_row(bodies, first, second, radius);
    assert(parted_rows(bodies, first + 1, radius) == once);
    // The rows between.
    assert(rows_clear(once, first + 1, second, radius)) by {
        assert forall|row: int| first + 1 <= row < second implies #[trigger] row_clear(
            once,
            row,
            0,
            count,
            radius,
        ) by {
            assert forall|column: int| 0 <= column < count implies !once[row].overlaps(
                #[trigger] once[column],
                radius,
            ) by {}
        }
    }
    lemma_parted_rows_tail(bodies, first + 1, second, radius);
    assert(parted_rows(bodies, second, radius) == once);
    // The row of `second`.
    lemma_lone_pair_row(once, second, first, radius);
    assert(parted_rows(bodies, second + 1, radius) == twice);
    // The rows after.
    assert(rows_clear(twice, second + 1, count, radius)) by {
        assert forall|row: int| second + 1 <= row < count implies #[trigger] row_clear(
            twice,
            row,
            0,
            count,
            radius,
        ) by {
            assert forall|column: int| 0 <= column < count implies !twice[row].overlaps(
                #[trigger] twice[column],
                radius,
            ) by {}
        }
    }
    lemma_parted_rows_tail(bodies, second + 1, count, radius);
}

/// What `lemma_lone_pair_clear` says of one pair of bodies.
proof fn lemma_lone_pair_one(
    bodies: Seq<Body>,
    first: int,
    second: int,
    radius: int,
    once: Seq<Body>,
    twice: Seq<Body>,
    i: int,
    j: int,
)
    requires
        0 <= first < second < bodies.len(),
        radius > 0,
        lone_pair(bodies, first, second, radius),
        once.len() == bodies.len(),
        twice.len() == bodies.len(),
        forall|k: int|
            0 <= k < bodies.len() && k != first && k != second ==> once[k] == bodies[k] && twice[k]
                == bodies[k],
        size(once[first].center.x - bodies[first].center.x) < radius,
        size(once[first].center.y - bodies[first].center.y) < radius,
        size(once[second].center.x - bodies[second].center.x) < radius,
        size(once[second].center.y - bodies[second].center.y) < radius,
        size(twice[first].center.x - once[first].center.x) < radius,
        size(twice[first].center.y - once[first].center.y) < radius,
        size(twice[second].center.x - once[second].center.x) < radius,
        size(twice[second].center.y - once[second].center.y) < radius,
        0 <= i < bodies.len(),
        0 <= j < bodies.len(),
        !(i == first && j == second),
        !(i == second && j == first),
    ensures
        !bodies[i].overlaps(bodies[j], radius),
        !once[i].overlaps(once[j], radius),
        !twice[i].overlaps(twice[j], radius),
        i != j ==> gap(twice, i, j) >= (2 * radius) * (2 * radius),
{
    if i == j {
        lemma_same_place_is_clear(bodies[i], radius);
        lemma_same_place_is_clear(once[i], radius);
        lemma_same_place_is_clear(twice[i], radius);
    } else if i != first && i != second && j != first && j != second {
        assert(gap(bodies, i, j) >= (2 * radius) * (2 * radius));
        lemma_apart_is_clear(bodies[i], bodies[j], radius);
    } else if i != first && i != second {
        // `j` is one of the two.
        assert(gap(bodies, i, first) >= (6 * radius) * (6 * radius));
        assert(gap(bodies, i, second) >= (6 * radius) * (6 * radius));
        lemma_still_clear(bodies[i], bodies[j], bodies[j], radius);
        lemma_still_clear(bodies[i], bodies[j], once[j], radius);
        lemma_still_clear(bodies[i], bodies[j], twice[j], radius);
    } else {
        // `i` is one of the two, and `j` is not.
        assert(gap(bodies, j, first) >= (6 * radius) * (6 * radius));
        assert(gap(bodies, j, second) >= (6 * radius) * (6 * radius));
        lemma_still_clear(bodies[j], bodies[i], bodies[i], radius);
        lemma_still_clear(bodies[j], bodies[i], once[i], radius);
        lemma_still_clear(bodies[j], bodies[i], twice[i], radius);
    }
}

/// Where only one pair can overlap and no other body is near, no other pair
/// overlaps before, between and after the two pushes that part the pair, and
/// the two end no closer than three units short of two radii.
proof fn lemma_lone_pair_clear(bodies: Seq<Body>, first: int, second: int, radius: int)
    requires
        0 <= first < second < bodies.len(),
        radius > 0,
        bodies[first].center != bodies[second].center,
        bodies[first].roomy(2 * radius),
        bodies[second].roomy(2 * radius),
        lone_pair(bodies, first, second, radius),
    ensures
        ({
            let once = parted(bodies, first, second, radius);
            let twice = parted(once, second, first, radius);
            &&& twice.len() == bodies.len()
            &&& clear_but(bodies, first, second, radius)
            &&& clear_but(once, first, second, radius)
            &&& clear_but(twice, first, second, radius)
            &&& floor_sqrt(gap(twice, first, second)) >= 2 * radius - 3
            &&& floor_sqrt(gap(twice, second, first)) >= 2 * radius - 3
            &&& forall|i: int, j: int|
                0 <= i < bodies.len() && 0 <= j < bodies.len() && i != j && !(i == first && j
                    == second) && !(i == second && j == first) ==> #[trigger] gap(twice, i, j)
                    >= (2 * radius) * (2 * radius)
        }),
{
    let count = bodies.len() as int;
    let once = parted(bodies, first, second, radius);
    let twice = parted(once, second, first, radius);
    // Where the two are pushed to, and how far.
    if bodies[first].overlaps(bodies[second], radius) {
        lemma_parted_apart(bodies, first, second, radius);
    } else {
        lemma_clear_is_apart(bodies[first], bodies[second], radius);
    }
    lemma_gap_either_way(once[first], once[second]);
    if once[second].overlaps(once[first], radius) {
        lemma_parted_apart(once, second, first, radius);
    }
    lemma_gap_either_way(twice[first], twice[second]);
    assert(once.len() == count && twice.len() == count);
    assert(forall|i: int|
        0 <= i < count && i != first && i != second ==> once[i] == bodies[i] && twice[i]
            == bodies[i]);
    assert forall|i: int, j: int|
        0 <= i < count && 0 <= j < count && !(i == first && j == second) && !(i == second && j
            == first) implies !(#[trigger] bodies[i]).overlaps(#[trigger] bodies[j], radius)
        && !once[i].overlaps(once[j], radius) && !twice[i].overlaps(twice[j], radius) && (i != j
        ==> gap(twice, i, j) >= (2 * radius) * (2 * radius)) by {
        lemma_lone_pair_one(bodies, first, second, radius, once, twice, i, j);
    }
    assert(clear_but(once, first, second, radius)) by {
        assert forall|i: int, j: int|
            0 <= i < count && 0 <= j < count && !(i == first && j == second) && !(i == second
                && j == first) implies !(#[trigger] once[i]).overlaps(
            #[trigger] once[j],
            radius,
        ) by {
            assert(!bodies[i].overlaps(bodies[j], radius));
        }
    }
    assert(clear_but(twice, first, second, radius)) by {
        assert forall|i: int, j: int|
            0 <= i < count && 0 <= j < count && !(i == first && j == second) && !(i == second
                && j == first) implies !(#[trigger] twice[i]).overlaps(
            #[trigger] twice[j],
            radius,
        ) by {
            assert(!bodies[i].overlaps(bodies[j], radius));
        }
    }
    assert forall|i: int, j: int|
        0 <= i < count && 0 <= j < count && i != j && !(i == first && j == second) && !(i
            == second && j == first) implies #[trigger] gap(twice, i, j) >= (2 * radius) * (2
        * radius) by {
        assert(!bodies[i].overlaps(bodies[j], radius));
    }
}

/// No overlap after the correction, where one pair overlaps at most. In a
/// scene in which only the bodies `first` and `second` can overlap, any two
/// bodies are, after the overlap correction, no closer than three units
/// short of two radii, and every body but the two is left as it was. The
/// two must be at different places, with room to move by two radii.
pub proof fn lemma_lone_overlap_ends(bodies: Seq<Body>, first: int, second: int)
    requires
        0 <= first < second < bodies.len(),
        bodies[first].center != bodies[second].center,
        bodies[first].roomy(2 * bodies[0].radius),
        bodies[second].roomy(2 * bodies[0].radius),
        lone_pair(bodies, first, second, bodies[0].radius),
    ensures
        adjusted(bodies).len() == bodies.len(),
        forall|a: int, b: int|
            0 <= a < bodies.len() && 0 <= b < bodies.len() && a != b ==> floor_sqrt(
                #[trigger] gap(adjusted(bodies), a, b),
            ) >= 2 * bodies[0].radius - 3,
        forall|other: int|
            0 <= other < bodies.len() && other != first && other != second ==> (
            #[trigger] adjusted(bodies)[other]) == bodies[other],
{
    let radius = bodies[0].radius;
    let count = bodies.len() as int;
    if radius <= 0 {
        // Nothing overlaps, and nothing is closer than nothing.
        assert(none_overlap(bodies, radius)) by {
            assert forall|i: int, j: int| 0 <= i < count && 0 <= j < count implies !(
            #[trigger] bodies[i]).overlaps(#[trigger] bodies[j], radius) by {
                let line = bodies[i].center.minus(bodies[j].center);
                lemma_mean_square(line.x, line.y);
                assert(line.norm2() * (FINE * FINE) >= 0) by (nonlinear_arith)
                    requires
                        line.norm2() >= 0,
                ;
                lemma_floor_sqrt_exists(line.norm2() * (FINE * FINE));
            }
        }
        lemma_adjusted_rests(bodies);
        assert forall|a: int, b: int| 0 <= a < count && 0 <= b < count && a != b implies floor_sqrt(
            #[trigger] gap(adjusted(bodies), a, b),
        ) >= 2 * radius - 3 by {
            let line = bodies[a].center.minus(bodies[b].center);
            lemma_mean_square(line.x, line.y);
            lemma_floor_sqrt_exists(line.norm2());
        }
    } else {
        let twice = parted(parted(bodies, first, second, radius), second, first, radius);
        lemma_lone_pair_clear(bodies, first, second, radius);
        lemma_lone_pair_parted(bodies, first, second, radius);
        assert(adjusted(bodies) == twice);
        assert(forall|other: int|
            0 <= other < count && other != first && other != second ==> twice[other]
                == bodies[other]);
        assert forall|a: int, b: int| 0 <= a < count && 0 <= b < count && a != b implies floor_sqrt(
            #[trigger] gap(adjusted(bodies), a, b),
        ) >= 2 * radius - 3 by {
            if !(a == first && b == second) && !(a == second && b == first) {
                assert(gap(twice, a, b) >= (2 * radius) * (2 * radius));
                lemma_floor_sqrt_at_least(gap(twice, a, b), 2 * radius);
            }
        }
    }
}

/// No overlap after the correction, for a scene of two. Two bodies at
/// different places are, after the overlap correction, no closer than three
/// units short of two radii. Their centres must have room to move by two
/// radii.
pub proof fn lemma_two_bodies_apart(bodies: Seq<Body>)
    requires
        bodies.len() == 2,
        bodies[0].center != bodies[1].center,
        bodies[0].roomy(2 * bodies[0].radius),
        bodies[1].roomy(2 * bodies[0].radius),
    ensures
        adjusted(bodies).len() == 2,
        floor_sqrt(adjusted(bodies)[0].center.minus(adjusted(bodies)[1].center).norm2()) >= 2
            * bodies[0].radius - 3,
{
    lemma_lone_overlap_ends(bodies, 0, 1);
    assert(floor_sqrt(gap(adjusted(bodies), 0, 1)) >= 2 * bodies[0].radius - 3);
}

} // verus!
