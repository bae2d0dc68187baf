//! What the collision pass does to a sphere, and what it conserves.

use vstd::prelude::*;
use crate::algebra::{
    lemma_exchange, lemma_kick, lemma_negated, lemma_quot_remainder, lemma_turned_round,
};
use crate::engine::{breached, collided, hit, reflected, swept, swept_row};
use crate::geometry::Body;
use crate::operations::{quot, size, Vec2};

verus! {

/// The two scenes have their bodies at the same places, with the same radii.
pub open spec fn same_places(before: Seq<Body>, after: Seq<Body>) -> bool {
    &&& before.len() == after.len()
    &&& forall|i: int|
        0 <= i < before.len() ==> (#[trigger] after[i]).center == before[i].center
            && after[i].radius == before[i].radius
}

/// The body `index` collides with no body of the scene.
pub open spec fn touches_none(bodies: Seq<Body>, index: int) -> bool {
    forall|j: int|
        0 <= j < bodies.len() ==> !bodies[index].touches(#[trigger] bodies[j])
            && !bodies[j].touches(bodies[index])
}

/// The pair of `first` and `second` collides, and `index` is one of the two.
pub open spec fn strikes(snapshot: Seq<Body>, first: int, second: int, index: int) -> bool {
    (index == first || index == second) && snapshot[first].touches(snapshot[second])
}

/// The body `index` collides with one body of the scene at most.
pub open spec fn meets_one_at_most(bodies: Seq<Body>, index: int) -> bool {
    forall|j: int, k: int|
        0 <= j < bodies.len() && 0 <= k < bodies.len() && bodies[index].touches(
            #[trigger] bodies[j],
        ) && bodies[index].touches(#[trigger] bodies[k]) ==> j == k
}

/// `order` lists the places of a scene of `count` bodies, each once, and
/// `back` tells of each place where it stands in `order`.
pub open spec fn is_reordering(order: Seq<int>, back: Seq<int>, count: int) -> bool {
    &&& order.len() == count
    &&& back.len() == count
    &&& forall|i: int| 0 <= i < count ==> 0 <= #[trigger] order[i] < count && back[order[i]] == i
    &&& forall|m: int| 0 <= m < count ==> 0 <= #[trigger] back[m] < count && order[back[m]] == m
}

/// The scene with its bodies in another order: in place `i` stands the body
/// that stood in place `order[i]`.
pub open spec fn reordered(bodies: Seq<Body>, order: Seq<int>) -> Seq<Body> {
    Seq::new(order.len(), |i: int| bodies[order[i]])
}

/// Each component of the velocity of the body is within `limit`.
pub open spec fn no_faster(body: Body, limit: int) -> bool {
    &&& -limit <= body.velocity.x <= limit
    &&& -limit <= body.velocity.y <= limit
}

/// How fast two bodies close in on each other or part: the larger component
/// of their relative velocity, whatever its sign.
pub open spec fn closing_speed(first: Body, second: Body) -> int {
    let closing = first.velocity.minus(second.velocity);
    if size(closing.x) >= size(closing.y) {
        size(closing.x)
    } else {
        size(closing.y)
    }
}

/// Among spheres of one radius it takes two to collide: if one collides
/// with the other, the other collides with it.
pub proof fn lemma_touches_either_way(a: Body, b: Body)
    requires
        a.radius == b.radius,
    ensures
        a.touches(b) == b.touches(a),
{
    let there = a.moved().center.minus(b.moved().center);
    let back = b.moved().center.minus(a.moved().center);
    lemma_turned_round(there.x, there.y, there.x, there.y);
    assert(back.x == -there.x && back.y == -there.y);
}

/// Among spheres of one radius it does not matter which of a pair comes
/// first: the scene is the same after the pair was looked at either way
/// round.
pub proof fn lemma_hit_either_way(bodies: Seq<Body>, first: int, second: int, a: Body, b: Body)
    requires
        0 <= first < bodies.len(),
        0 <= second < bodies.len(),
        first != second,
        a.radius == b.radius,
    ensures
        hit(bodies, first, second, a, b) == hit(bodies, second, first, b, a),
{
    lemma_touches_either_way(a, b);
    assert(hit(bodies, first, second, a, b) =~= hit(bodies, second, first, b, a));
}

/// Looking at the pairs of one body moves nothing, and leaves a body alone
/// that collides with none.
pub proof fn lemma_swept_row_keeps(
    snapshot: Seq<Body>,
    bodies: Seq<Body>,
    first: int,
    count: int,
    index: int,
)
    requires
        bodies.len() == snapshot.len(),
        0 <= first < bodies.len(),
        0 <= count <= bodies.len(),
        0 <= index < bodies.len(),
    ensures
        same_places(bodies, swept_row(snapshot, bodies, first, count)),
        touches_none(snapshot, index) ==> swept_row(snapshot, bodies, first, count)[index]
            == bodies[index],
    decreases count,
{
    if count > 0 {
        lemma_swept_row_keeps(snapshot, bodies, first, count - 1, index);
        let before = swept_row(snapshot, bodies, first, count - 1);
        let after = hit(before, first, count - 1, snapshot[first], snapshot[count - 1]);
        assert(after == swept_row(snapshot, bodies, first, count));
        assert(same_places(before, after));
    }
}

/// The pass over the pairs moves nothing, and leaves a body alone that
/// collides with none.
pub proof fn lemma_swept_keeps(snapshot: Seq<Body>, bodies: Seq<Body>, rows: int, index: int)
    requires
        bodies.len() == snapshot.len(),
        0 <= rows <= bodies.len(),
        0 <= index < bodies.len(),
    ensures
        same_places(bodies, swept(snapshot, bodies, rows)),
        touches_none(snapshot, index) ==> swept(snapshot, bodies, rows)[index] == bodies[index],
    decreases rows,
{
    if rows > 0 {
        lemma_swept_keeps(snapshot, bodies, rows - 1, index);
        let before = swept(snapshot, bodies, rows - 1);
        lemma_swept_row_keeps(snapshot, before, rows - 1, snapshot.len() as int, index);
    }
}

/// The rest of the pairs of one body leaves a body alone that none of them
/// strikes.
proof fn lemma_row_tail(
    snapshot: Seq<Body>,
    bodies: Seq<Body>,
    first: int,
    from: int,
    count: int,
    index: int,
)
    requires
        bodies.len() == snapshot.len(),
        0 <= first < bodies.len(),
        0 <= from <= count <= bodies.len(),
        0 <= index < bodies.len(),
        forall|second: int| from <= second < count ==> !strikes(snapshot, first, second, index),
    ensures
        swept_row(snapshot, bodies, first, count)[index] == swept_row(
            snapshot,
            bodies,
            first,
            from,
        )[index],
    decreases count,
{
    if count > from {
        lemma_row_tail(snapshot, bodies, first, from, count - 1, index);
        lemma_swept_row_keeps(snapshot, bodies, first, count - 1, index);
        assert(!strikes(snapshot, first, count - 1, index));
    }
}

/// The rest of the rows leaves a body alone that none of their pairs
/// strikes.
proof fn lemma_rows_tail(
    snapshot: Seq<Body>,
    bodies: Seq<Body>,
    from: int,
    rows: int,
    index: int,
)
    requires
        bodies.len() == snapshot.len(),
        0 <= from <= rows <= bodies.len(),
        0 <= index < bodies.len(),
        forall|first: int, second: int|
            from <= first < rows && 0 <= second < bodies.len() ==> !strikes(
                snapshot,
                first,
                second,
                index,
            ),
    ensures
        swept(snapshot, bodies, rows)[index] == swept(snapshot, bodies, from)[index],
    decreases rows,
{
    if rows > from {
        lemma_rows_tail(snapshot, bodies, from, rows - 1, index);
        lemma_swept_keeps(snapshot, bodies, rows - 1, index);
        let before = swept(snapshot, bodies, rows - 1);
        lemma_row_tail(snapshot, before, rows - 1, 0, snapshot.len() as int, index);
    }
}

/// In the collision pass a body that collides with none keeps its velocity:
/// it leaves the pass as the walls left it.
pub proof fn lemma_collided_alone(bodies: Seq<Body>, index: int)
    requires
        0 <= index < bodies.len(),
        touches_none(reflected(bodies), index),
    ensures
        collided(bodies).len() == bodies.len(),
        collided(bodies)[index] == reflected(bodies)[index],
{
    let walled = reflected(bodies);
    lemma_swept_keeps(walled, walled, walled.len() as int, index);
}

/// In the collision pass a body rebounds from the last body that it
/// collides with. In a scene of spheres of one radius, the body `index`
/// leaves the pass with the velocity with which it rebounds from `partner`,
/// as the walls left the two, if it collides with `partner` and with no body
/// after `partner`; what else collides in the scene does not matter.
pub proof fn lemma_collided_last_partner(bodies: Seq<Body>, index: int, partner: int)
    requires
        0 <= index < bodies.len(),
        0 <= partner < bodies.len(),
        forall|i: int|
            0 <= i < bodies.len() ==> (#[trigger] bodies[i]).radius == bodies[index].radius,
        reflected(bodies)[index].touches(reflected(bodies)[partner]),
        forall|later: int|
            partner < later < bodies.len() ==> !reflected(bodies)[index].touches(
                #[trigger] reflected(bodies)[later],
            ),
    ensures
        collided(bodies).len() == bodies.len(),
        collided(bodies)[index] == (Body {
            velocity: reflected(bodies)[index].rebound(reflected(bodies)[partner]),
            ..reflected(bodies)[index]
        }),
{
    let walled = reflected(bodies);
    let count = walled.len() as int;
    let me = walled[index];
    let you = walled[partner];
    assert(index != partner);
    assert(forall|i: int| 0 <= i < count ==> (#[trigger] walled[i]).radius == me.radius) by {
        assert forall|i: int| 0 <= i < count implies (#[trigger] walled[i]).radius == me.radius by {
            assert(bodies[i].radius == bodies[index].radius);
        }
    }
    assert forall|i: int| 0 <= i < count implies walled[i].touches(me) == me.touches(
        #[trigger] walled[i],
    ) by {
        lemma_touches_either_way(walled[i], me);
    }
    lemma_swept_keeps(walled, walled, count, index);
    if partner > index {
        let rows = swept(walled, walled, partner);
        lemma_swept_keeps(walled, walled, partner, index);
        lemma_swept_row_keeps(walled, rows, partner, index, index);
        let before = swept_row(walled, rows, partner, index);
        let after = swept_row(walled, rows, partner, index + 1);
        assert(after == hit(before, partner, index, you, me));
        assert(after[index] == (Body { velocity: me.rebound(you), ..me }));
        lemma_row_tail(walled, rows, partner, index + 1, count, index);
        assert(swept(walled, walled, partner + 1) == swept_row(walled, rows, partner, count));
        assert forall|first: int, second: int|
            partner + 1 <= first < count && 0 <= second < count implies !strikes(
            walled,
            first,
            second,
            index,
        ) by {
            assert(walled[first].touches(me) == me.touches(walled[first]));
        }
        lemma_rows_tail(walled, walled, partner + 1, count, index);
    } else {
        let rows = swept(walled, walled, index);
        lemma_swept_keeps(walled, walled, index, index);
        lemma_swept_row_keeps(walled, rows, index, partner, index);
        let before = swept_row(walled, rows, index, partner);
        let after = swept_row(walled, rows, index, partner + 1);
        assert(after == hit(before, index, partner, me, you));
        assert(after[index] == (Body { velocity: me.rebound(you), ..me }));
        lemma_row_tail(walled, rows, index, partner + 1, count, index);
        assert(swept(walled, walled, index + 1) == swept_row(walled, rows, index, count));
        assert forall|first: int, second: int|
            index + 1 <= first < count && 0 <= second < count implies !strikes(
            walled,
            first,
            second,
            index,
        ) by {
            assert(walled[first].touches(me) == me.touches(walled[first]));
        }
        lemma_rows_tail(walled, walled, index + 1, count, index);
    }
}

/// An elastic collision conserves momentum and, up to rounding, kinetic
/// energy. When two bodies rebound from each other, the sum of their
/// velocities stays what it was, and the sum of the squares of their speeds
/// changes by no more than eight times their closing speed, and two. The
/// velocities must be within 400 000 000 units a tick, so that none leaves
/// the range of `i32`.
pub proof fn lemma_collision_conserves(first: Body, second: Body, limit: int)
    requires
        limit <= 400_000_000,
        no_faster(first, limit),
        no_faster(second, limit),
    ensures
        ({
            let mine = first.rebound(second);
            let yours = second.rebound(first);
            &&& mine.plus(yours) == first.velocity.plus(second.velocity)
            &&& size(
                mine.norm2() + yours.norm2() - (first.velocity.norm2()
                    + second.velocity.norm2()),
            ) <= 8 * closing_speed(first, second) + 2
        }),
{
    if first.center == second.center {
        assert(size(0) == 0);
        return ;
    }
    let apart = first.center.minus(second.center);
    let closing = first.velocity.minus(second.velocity);
    let bound = closing_speed(first, second);
    let d = apart.norm2();
    let n = closing.dot(apart);
    lemma_kick(apart.x, apart.y, closing.x, closing.y, bound);
    let kx = quot(apart.x * n, d);
    let ky = quot(apart.y * n, d);
    assert(first.rebound(second) == (Vec2 {
        x: first.velocity.x - kx,
        y: first.velocity.y - ky,
    }));
    lemma_turned_round(apart.x, apart.y, closing.x, closing.y);
    lemma_negated(apart.x, n);
    lemma_negated(apart.y, n);
    lemma_quot_remainder(apart.x * n, d);
    lemma_quot_remainder(apart.y * n, d);
    let back = second.center.minus(first.center);
    let opening = second.velocity.minus(first.velocity);
    assert(back.x == -apart.x && back.y == -apart.y);
    assert(opening.x == -closing.x && opening.y == -closing.y);
    assert(opening.dot(back) == n);
    assert(back.norm2() == d);
    assert(back.times(n).over(d) == (Vec2 { x: -kx, y: -ky }));
    assert(second.rebound(first) == (Vec2 {
        x: second.velocity.x + kx,
        y: second.velocity.y + ky,
    }));
    lemma_exchange(first.velocity.x, second.velocity.x, kx);
    lemma_exchange(first.velocity.y, second.velocity.y, ky);
}

/// Whether or not a pair collides, looking at it conserves momentum and, up
/// to rounding, kinetic energy: the sum of the velocities of the two stays
/// what it was, the sum of the squares of their speeds changes by no more
/// than eight times their closing speed, and two, and no other body is
/// touched.
pub proof fn lemma_hit_conserves(bodies: Seq<Body>, first: int, second: int, limit: int)
    requires
        0 <= first < bodies.len(),
        0 <= second < bodies.len(),
        first != second,
        limit <= 400_000_000,
        no_faster(bodies[first], limit),
        no_faster(bodies[second], limit),
    ensures
        ({
            let after = hit(bodies, first, second, bodies[first], bodies[second]);
            &&& after.len() == bodies.len()
            &&& after[first].velocity.plus(after[second].velocity)
                == bodies[first].velocity.plus(bodies[second].velocity)
            &&& size(
                after[first].velocity.norm2() + after[second].velocity.norm2() - (
                bodies[first].velocity.norm2() + bodies[second].velocity.norm2()),
            ) <= 8 * closing_speed(bodies[first], bodies[second]) + 2
            &&& forall|i: int|
                0 <= i < bodies.len() && i != first && i != second ==> after[i] == bodies[i]
        }),
{
    lemma_collision_conserves(bodies[first], bodies[second], limit);
    assert(size(0) == 0);
}

/// An isolated collision of two conserves momentum and, up to rounding,
/// kinetic energy. In a scene of two bodies, neither of which a wall cuts,
/// the collision pass leaves the sum of the velocities what it was, and
/// changes the sum of the squares of the speeds by no more than eight times
/// the closing speed of the two, and two.
pub proof fn lemma_isolated_collision_conserves(bodies: Seq<Body>, limit: int)
    requires
        bodies.len() == 2,
        !breached(bodies[0].center.x, bodies[0].radius),
        !breached(bodies[0].center.y, bodies[0].radius),
        !breached(bodies[1].center.x, bodies[1].radius),
        !breached(bodies[1].center.y, bodies[1].radius),
        limit <= 400_000_000,
        no_faster(bodies[0], limit),
        no_faster(bodies[1], limit),
    ensures
        ({
            let after = collided(bodies);
            &&& after.len() == 2
            &&& after[0].velocity.plus(after[1].velocity) == bodies[0].velocity.plus(
                bodies[1].velocity,
            )
            &&& size(
                after[0].velocity.norm2() + after[1].velocity.norm2() - (
                bodies[0].velocity.norm2() + bodies[1].velocity.norm2()),
            ) <= 8 * closing_speed(bodies[0], bodies[1]) + 2
        }),
{
    let walled = reflected(bodies);
    assert(walled =~= bodies);
    reveal_with_fuel(swept, 3);
    reveal_with_fuel(swept_row, 3);
    lemma_collision_conserves(bodies[0], bodies[1], limit);
    let a = bodies[0];
    let b = bodies[1];
    let both = bodies.update(0, Body { velocity: a.rebound(b), ..a }).update(
        1,
        Body { velocity: b.rebound(a), ..b },
    );
    assert(hit(bodies, 0, 0, a, a) == bodies);
    let once = hit(bodies, 0, 1, a, b);
    assert(swept_row(bodies, bodies, 0, 2) == once);
    let twice = hit(once, 1, 0, b, a);
    assert(hit(twice, 1, 1, b, b) == twice);
    assert(collided(bodies) == twice);
    assert(once == bodies || once =~= both);
    assert(twice == once || twice =~= both);
    assert(size(0) == 0);
}

/// A pair whose two bodies would be more than two radii apart one tick
/// from now is left alone, whatever it is now.
pub proof fn lemma_hit_out_of_reach(bodies: Seq<Body>, first: int, second: int, a: Body, b: Body)
    requires
        a.moved().center.minus(b.moved().center).norm2() > (2 * a.radius) * (2 * a.radius),
    ensures
        hit(bodies, first, second, a, b) == bodies,
{
}

/// The collision pass does not depend on the order of the bodies, where no
/// body collides with more than one other. In a scene of spheres of one
/// radius in which, as the walls leave it, each body collides with one
/// other at most, the pass does to each body the same in whatever order the
/// bodies stand: the pass over the reordered scene gives the reordered
/// outcome of the pass.
pub proof fn lemma_collided_in_any_order(bodies: Seq<Body>, order: Seq<int>, back: Seq<int>)
    requires
        is_reordering(order, back, bodies.len() as int),
        forall|i: int, j: int|
            0 <= i < bodies.len() && 0 <= j < bodies.len() ==> (#[trigger] bodies[i]).radius == (
            #[trigger] bodies[j]).radius,
        forall|i: int|
            0 <= i < bodies.len() ==> #[trigger] meets_one_at_most(reflected(bodies), i),
    ensures
        collided(reordered(bodies, order)) == reordered(collided(bodies), order),
{
    let count = bodies.len() as int;
    let turned = reordered(bodies, order);
    let walled = reflected(bodies);
    let walled_turned = reflected(turned);
    assert(walled_turned.len() == count);
    assert(forall|i: int| 0 <= i < count ==> #[trigger] walled_turned[i] == walled[order[i]]);
    if count > 0 {
        lemma_swept_keeps(walled, walled, count, 0);
        lemma_swept_keeps(walled_turned, walled_turned, count, 0);
    }
    assert(collided(turned).len() == count);
    assert(collided(bodies).len() == count);
    assert forall|i: int| 0 <= i < count implies collided(turned)[i] == reordered(
        collided(bodies),
        order,
    )[i] by {
        lemma_collided_one(bodies, order, back, i);
    }
    assert(collided(turned) =~= reordered(collided(bodies), order));
}

/// What `lemma_collided_in_any_order` says of one body.
proof fn lemma_collided_one(bodies: Seq<Body>, order: Seq<int>, back: Seq<int>, place: int)
    requires
        is_reordering(order, back, bodies.len() as int),
        forall|i: int, j: int|
            0 <= i < bodies.len() && 0 <= j < bodies.len() ==> (#[trigger] bodies[i]).radius == (
            #[trigger] bodies[j]).radius,
        forall|i: int|
            0 <= i < bodies.len() ==> #[trigger] meets_one_at_most(reflected(bodies), i),
        0 <= place < bodies.len(),
    ensures
        collided(reordered(bodies, order))[place] == collided(bodies)[order[place]],
{
    let count = bodies.len() as int;
    let turned = reordered(bodies, order);
    let walled = reflected(bodies);
    let walled_turned = reflected(turned);
    let index = order[place];
    assert(forall|i: int| 0 <= i < count ==> #[trigger] walled_turned[i] == walled[order[i]]);
    assert(meets_one_at_most(walled, index));
    assert(forall|i: int|
        0 <= i < count ==> (#[trigger] bodies[i]).radius == bodies[index].radius);
    assert forall|i: int| 0 <= i < count implies (#[trigger] turned[i]).radius
        == turned[place].radius by {
        assert(bodies[order[i]].radius == bodies[index].radius);
    }
    if exists|j: int|
        0 <= j < count && walled_turned[place].touches(#[trigger] walled_turned[j]) {
        let partner = choose|j: int|
            0 <= j < count && walled_turned[place].touches(#[trigger] walled_turned[j]);
        let other = order[partner];
        assert(walled[index].touches(walled[other]));
        assert forall|later: int| partner < later < count implies !walled_turned[place].touches(
            #[trigger] walled_turned[later],
        ) by {
            if walled_turned[place].touches(walled_turned[later]) {
                assert(walled[index].touches(walled[order[later]]));
                assert(order[later] == other);
                assert(back[order[later]] == later);
            }
        }
        assert forall|later: int| other < later < count implies !walled[index].touches(
            #[trigger] walled[later],
        ) by {}
        lemma_collided_last_partner(turned, place, partner);
        lemma_collided_last_partner(bodies, index, other);
    } else {
        assert(touches_none(walled_turned, place)) by {
            assert forall|j: int| 0 <= j < count implies !walled_turned[place].touches(
                #[trigger] walled_turned[j],
            ) && !walled_turned[j].touches(walled_turned[place]) by {
                assert(walled_turned[j].radius == walled_turned[place].radius) by {
                    assert(turned[j].radius == turned[place].radius);
                }
                lemma_touches_either_way(walled_turned[j], walled_turned[place]);
            }
        }
        assert(touches_none(walled, index)) by {
            assert forall|m: int| 0 <= m < count implies !walled[index].touches(
                #[trigger] walled[m],
            ) && !walled[m].touches(walled[index]) by {
                assert(order[back[m]] == m);
                assert(walled_turned[back[m]] == walled[m]);
                assert(!walled_turned[place].touches(walled_turned[back[m]]));
                assert(walled[m].radius == walled[index].radius) by {
                    assert(bodies[m].radius == bodies[index].radius);
                }
                lemma_touches_either_way(walled[m], walled[index]);
            }
        }
        lemma_collided_alone(turned, place);
        lemma_collided_alone(bodies, index);
    }
}

} // verus!
