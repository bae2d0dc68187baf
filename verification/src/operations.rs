//! Arithmetic on fixed-point numbers and on pairs of them.
//!
//! A number is an `i32` that counts units of which `ONE` make one. Every
//! operation works out the exact result over wider integers, rounds it
//! toward zero where it divides, and last brings it into the range of
//! `i32`: a result beyond either end of the range is the end of the range.

use vstd::prelude::*;
use crate::algebra::lemma_product_within;
use crate::settings::ONE;

verus! {

/// A point or displacement of the plane over the mathematical integers,
/// counted in the same units as the `i32` coordinates it models.
pub ghost struct Vec2 {
    pub x: int,
    pub y: int,
}

impl Vec2 {
    /// The sum of two vectors.
    pub open spec fn plus(self, other: Vec2) -> Vec2 {
        Vec2 { x: self.x + other.x, y: self.y + other.y }
    }

    /// The difference of two vectors.
    pub open spec fn minus(self, other: Vec2) -> Vec2 {
        Vec2 { x: self.x - other.x, y: self.y - other.y }
    }

    /// The exact inner product, in squared units.
    pub open spec fn dot(self, other: Vec2) -> int {
        self.x * other.x + self.y * other.y
    }

    /// The exact outer product, in squared units: the product of the lengths
    /// and of the sine of the angle from `self` to `other`.
    pub open spec fn cross(self, other: Vec2) -> int {
        self.x * other.y - self.y * other.x
    }

    /// The exact squared length, in squared units.
    pub open spec fn norm2(self) -> int {
        self.x * self.x + self.y * self.y
    }

    /// Both components multiplied by `factor`.
    pub open spec fn times(self, factor: int) -> Vec2 {
        Vec2 { x: self.x * factor, y: self.y * factor }
    }

    /// Both components divided by a positive `divisor`, rounded toward zero.
    pub open spec fn over(self, divisor: int) -> Vec2 {
        Vec2 { x: quot(self.x, divisor), y: quot(self.y, divisor) }
    }

    /// Both components brought into the range of `i32`.
    pub open spec fn clamped(self) -> Vec2 {
        Vec2 { x: clamp(self.x), y: clamp(self.y) }
    }
}

/// The vector that a coordinate pair stands for.
pub open spec fn vector(pair: [i32; 2]) -> Vec2 {
    Vec2 { x: pair[0] as int, y: pair[1] as int }
}

/// The nearest value to `value` that an `i32` holds.
pub open spec fn clamp(value: int) -> int {
    if value < i32::MIN {
        i32::MIN as int
    } else if value > i32::MAX {
        i32::MAX as int
    } else {
        value
    }
}

/// The quotient of `n` by a positive `d`, rounded toward zero.
pub open spec fn quot(n: int, d: int) -> int {
    if n >= 0 {
        n / d
    } else {
        -((-n) / d)
    }
}

/// The absolute value.
pub open spec fn size(value: int) -> int {
    if value < 0 {
        -value
    } else {
        value
    }
}

/// `r` is the integer part of the square root of `n`.
pub open spec fn is_floor_sqrt(n: int, r: int) -> bool {
    r >= 0 && r * r <= n && n < (r + 1) * (r + 1)
}

/// The integer part of the square root of `n`; 0 for a negative `n`.
pub open spec fn floor_sqrt(n: int) -> int {
    if n < 0 {
        0
    } else {
        choose|r: int| is_floor_sqrt(n, r)
    }
}

/// Every natural number has an integer square root.
pub proof fn lemma_floor_sqrt_exists(n: int)
    requires
        n >= 0,
    ensures
        is_floor_sqrt(n, floor_sqrt(n)),
    decreases n,
{
    if n == 0 {
        assert(is_floor_sqrt(0, 0));
    } else {
        lemma_floor_sqrt_exists(n - 1);
        let r = floor_sqrt(n - 1);
        if (r + 1) * (r + 1) <= n {
            assert(n < (r + 2) * (r + 2)) by (nonlinear_arith)
                requires
                    r >= 0,
                    n - 1 < (r + 1) * (r + 1),
            ;
            assert(is_floor_sqrt(n, r + 1));
        } else {
            assert(is_floor_sqrt(n, r));
        }
    }
}

/// The integer square root is unique.
pub proof fn lemma_floor_sqrt_unique(n: int, r: int)
    requires
        is_floor_sqrt(n, r),
    ensures
        floor_sqrt(n) == r,
{
    assert(n >= 0) by (nonlinear_arith)
        requires
            r * r <= n,
    ;
    lemma_floor_sqrt_exists(n);
    let s = floor_sqrt(n);
    assert(s == r) by (nonlinear_arith)
        requires
            r >= 0,
            s >= 0,
            r * r <= n,
            n < (r + 1) * (r + 1),
            s * s <= n,
            n < (s + 1) * (s + 1),
    {
        if s < r {
            assert((s + 1) * (s + 1) <= r * r);
        }
        if r < s {
            assert((r + 1) * (r + 1) <= s * s);
        }
    }
}

/// The integer square root of a number is no smaller than any number whose
/// square the number reaches.
pub proof fn lemma_floor_sqrt_at_least(n: int, least: int)
    requires
        least * least <= n,
    ensures
        floor_sqrt(n) >= least,
{
    assert(n >= 0) by (nonlinear_arith)
        requires
            least * least <= n,
    ;
    lemma_floor_sqrt_exists(n);
    let root = floor_sqrt(n);
    if root < least {
        assert((root + 1) * (root + 1) <= least * least) by (nonlinear_arith)
            requires
                0 <= root < least,
        ;
    }
}

/// Brings a wide intermediate result into the range of `i32`.
pub fn saturate(value: i128) -> (out: i32)
    ensures
        out == clamp(value as int),
{
    if value < -2147483648 {
        -2147483648
    } else if value > 2147483647 {
        2147483647
    } else {
        value as i32
    }
}

/// Divides by a positive number, rounding toward zero.
pub(crate) fn divide(n: i128, d: i128) -> (q: i128)
    requires
        d > 0,
    ensures
        q == quot(n as int, d as int),
{
    n / d
}

/// The product of two wide values that are known to be of moderate size.
pub(crate) fn multiply(a: i128, b: i128) -> (p: i128)
    requires
        -0x4_0000_0000_0000_0000 <= a <= 0x4_0000_0000_0000_0000,
        -0x1000_0000_0000_0000 <= b <= 0x1000_0000_0000_0000,
    ensures
        p == a * b,
        p == b * a,
{
    proof {
        lemma_product_within(
            a as int,
            b as int,
            0x4_0000_0000_0000_0000,
            0x1000_0000_0000_0000,
        );
        assert(a * b == b * a) by (nonlinear_arith);
    }
    a * b
}

/// The integer part of the square root of `n`.
pub fn isqrt(n: u128) -> (r: u64)
    ensures
        r == floor_sqrt(n as int),
{
    let mut low: u128 = 0;
    let mut high: u128 = 0x1_0000_0000_0000_0000;
    assert(n < high * high) by (nonlinear_arith)
        requires
            high == 0x1_0000_0000_0000_0000,
            n <= u128::MAX,
    ;
    while high - low > 1
        invariant
            low < high <= 0x1_0000_0000_0000_0000,
            low * low <= n,
            n < high * high,
        decreases high - low,
    {
        let middle: u128 = low + (high - low) / 2;
        assert(middle * middle <= 0xffff_ffff_ffff_ffff * 0xffff_ffff_ffff_ffff)
            by (nonlinear_arith)
            requires
                0 <= middle <= 0xffff_ffff_ffff_ffff,
        ;
        if middle * middle <= n {
            low = middle;
        } else {
            high = middle;
        }
    }
    proof {
        lemma_floor_sqrt_unique(n as int, low as int);
    }
    low as u64
}

/// Scales `vector` by the fixed-point factor `scalar`: each component is the
/// exact product divided by `ONE`, rounded toward zero and saturated.
pub fn scale(scalar: i32, vector: [i32; 2]) -> (out: [i32; 2])
    ensures
        self::vector(out) == self::vector(vector).times(scalar as int).over(ONE as int).clamped(),
{
    let x: i128 = divide(multiply(vector[0] as i128, scalar as i128), ONE as i128);
    let y: i128 = divide(multiply(vector[1] as i128, scalar as i128), ONE as i128);
    [saturate(x), saturate(y)]
}

/// The saturated sum of two vectors.
pub fn add(first: [i32; 2], second: [i32; 2]) -> (out: [i32; 2])
    ensures
        vector(out) == vector(first).plus(vector(second)).clamped(),
{
    let x: i128 = first[0] as i128 + second[0] as i128;
    let y: i128 = first[1] as i128 + second[1] as i128;
    [saturate(x), saturate(y)]
}

/// The saturated difference of two vectors.
pub fn sub(first: [i32; 2], second: [i32; 2]) -> (out: [i32; 2])
    ensures
        vector(out) == vector(first).minus(vector(second)).clamped(),
{
    let x: i128 = first[0] as i128 - second[0] as i128;
    let y: i128 = first[1] as i128 - second[1] as i128;
    [saturate(x), saturate(y)]
}

/// The fixed-point inner product: the exact inner product divided by `ONE`,
/// rounded toward zero and saturated.
pub fn dot(first: [i32; 2], second: [i32; 2]) -> (out: i32)
    ensures
        out == clamp(quot(vector(first).dot(vector(second)), ONE as int)),
{
    let x: i128 = multiply(first[0] as i128, second[0] as i128);
    let y: i128 = multiply(first[1] as i128, second[1] as i128);
    proof {
        lemma_product_within(first[0] as int, second[0] as int, 0x8000_0000, 0x8000_0000);
        lemma_product_within(first[1] as int, second[1] as int, 0x8000_0000, 0x8000_0000);
    }
    saturate(divide(x + y, ONE as i128))
}

/// The exact squared distance between two points.
pub fn gap2(first: [i32; 2], second: [i32; 2]) -> (out: u128)
    ensures
        out == vector(first).minus(vector(second)).norm2(),
        out <= 0x2_0000_0000_0000_0000,
{
    let x: i128 = first[0] as i128 - second[0] as i128;
    let y: i128 = first[1] as i128 - second[1] as i128;
    proof {
        lemma_product_within(x as int, x as int, 0x1_0000_0000, 0x1_0000_0000);
        lemma_product_within(y as int, y as int, 0x1_0000_0000, 0x1_0000_0000);
        assert(x * x >= 0 && y * y >= 0) by (nonlinear_arith);
    }
    (multiply(x, x) + multiply(y, y)) as u128
}

/// The Euclidean distance between two points: the integer part of the square
/// root of the exact squared distance, saturated.
pub fn dist(first: [i32; 2], second: [i32; 2]) -> (out: i32)
    ensures
        out == clamp(floor_sqrt(vector(first).minus(vector(second)).norm2())),
{
    let root: u64 = isqrt(gap2(first, second));
    saturate(root as i128)
}

} // verus!
