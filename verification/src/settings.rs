//! What is fixed about the window, the spheres and the unit of length.

use vstd::prelude::*;

verus! {

/// Window width in pixels.
pub const WIDTH: u32 = 625;

/// Window height in pixels.
pub const HEIGHT: u32 = 625;

/// Window title.
pub const TITLE: &'static str = "Collisions";

/// Number of boundary points of a sphere.
pub const LENGTH: usize = 32;

/// Exclusive upper bound of the number of spheres along one side of the grid.
pub const AMOUNT: usize = 32;

/// Inclusive lower bound of the number of spheres along one side of the grid.
pub const FEWEST: usize = 8;

/// Number of colours in the palette.
pub const TINTS: usize = 7;

/// The palette, each channel in hundredths of full intensity.
pub const COLORS: [[u8; 3]; 7] = [
    [70, 8, 14],  // red
    [9, 63, 69],  // blue
    [76, 65, 7],  // yellow
    [6, 72, 44],  // green
    [38, 4, 52],  // purple
    [70, 32, 4],  // orange
    [69, 5, 14],  // pink
];

/// The fixed-point unit: every coordinate, velocity and radius is an `i32`
/// that counts hundred-millionths of the distance from the centre of the
/// viewport to any of its walls, so `ONE` stands for that distance.
pub const ONE: i32 = 100_000_000;

/// How finely the distance of two spheres that overlap is taken: to one
/// `FINE`-th of a unit.
pub const FINE: i32 = 10_000_000;

} // verus!
