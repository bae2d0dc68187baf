//! The grid of a generated scene.

use vstd::prelude::*;
use crate::algebra::lemma_floor_div;
use crate::engine::{
    amount_of, breached, center_of, generated, lemma_layout, padding_of, place_of, radius_of,
};
use crate::object::Object;

verus! {

/// Generation is a function of the seed: two objects that were generated
/// for the same place of the grid of the same seed have the same centre and
/// the same radius, whatever their headings and whatever was drawn for them.
pub proof fn lemma_generation_deterministic(
    seed: int,
    index: int,
    first: Object,
    first_heading: [i32; 2],
    second: Object,
    second_heading: [i32; 2],
)
    requires
        generated(first, seed, index, first_heading),
        generated(second, seed, index, second_heading),
    ensures
        first.sphere@.center == second.sphere@.center,
        first.sphere@.radius == second.sphere@.radius,
        first.sphere@.center == center_of(seed, index),
        first.sphere@.radius == radius_of(seed),
{
}

/// Every row and every column of the grid lies within the walls.
proof fn lemma_place_contained(seed: int, step: int)
    requires
        seed >= 0,
        0 <= step < amount_of(seed),
    ensures
        !breached(place_of(seed, step), radius_of(seed)),
{
    lemma_layout(seed);
    let amount = amount_of(seed);
    let pitch = padding_of(seed) + 2 * radius_of(seed);
    assert(pitch <= pitch * (step + 1) <= pitch * amount) by (nonlinear_arith)
        requires
            0 <= step < amount,
            0 < pitch,
    ;
}

/// The grid lies within the walls: no sphere of it sticks out of the
/// viewport.
pub proof fn lemma_grid_contained(seed: int, index: int)
    requires
        seed >= 0,
        0 <= index < amount_of(seed) * amount_of(seed),
    ensures
        !breached(center_of(seed, index).x, radius_of(seed)),
        !breached(center_of(seed, index).y, radius_of(seed)),
{
    let amount = amount_of(seed);
    lemma_layout(seed);
    lemma_floor_div(index, amount);
    vstd::arithmetic::div_mod::lemma_mod_bound(index, amount);
    assert(0 <= index / amount < amount) by (nonlinear_arith)
        requires
            amount * (index / amount) <= index < amount * (index / amount) + amount,
            0 <= index < amount * amount,
            0 < amount,
    ;
    lemma_place_contained(seed, index % amount);
    lemma_place_contained(seed, index / amount);
}

/// The grid has no overlap: the centres of two spheres of it are at least
/// two radii apart.
pub proof fn lemma_grid_spaced(seed: int, first: int, second: int)
    requires
        seed >= 0,
        0 <= first < amount_of(seed) * amount_of(seed),
        0 <= second < amount_of(seed) * amount_of(seed),
        first != second,
    ensures
        center_of(seed, first).minus(center_of(seed, second)).norm2() >= (2 * radius_of(seed)) * (2
            * radius_of(seed)),
{
    let amount = amount_of(seed);
    lemma_layout(seed);
    lemma_floor_div(first, amount);
    lemma_floor_div(second, amount);
    vstd::arithmetic::div_mod::lemma_fundamental_div_mod(first, amount);
    vstd::arithmetic::div_mod::lemma_fundamental_div_mod(second, amount);
    let reach = 2 * radius_of(seed);
    let pitch = padding_of(seed) + reach;
    let apart = center_of(seed, first).minus(center_of(seed, second));
    let columns = first % amount - second % amount;
    let rows = first / amount - second / amount;
    assert(apart.x == pitch * columns && apart.y == pitch * rows) by (nonlinear_arith)
        requires
            apart.x == pitch * (first % amount + 1) - pitch * (second % amount + 1),
            apart.y == pitch * (first / amount + 1) - pitch * (second / amount + 1),
            columns == first % amount - second % amount,
            rows == first / amount - second / amount,
    ;
    assert(columns != 0 || rows != 0);
    assert(apart.x * apart.x + apart.y * apart.y >= reach * reach) by (nonlinear_arith)
        requires
            apart.x == pitch * columns,
            apart.y == pitch * rows,
            columns != 0 || rows != 0,
            pitch >= reach,
            reach >= 0,
    {
        assert(columns * columns >= 1 || rows * rows >= 1);
        assert(pitch * pitch >= reach * reach);
        assert(apart.x * apart.x == (pitch * pitch) * (columns * columns));
        assert(apart.y * apart.y == (pitch * pitch) * (rows * rows));
    }
}

} // verus!
