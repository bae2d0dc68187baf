//! Facts of integer arithmetic that the proofs of the library rest on.

use vstd::prelude::*;
use crate::operations::{quot, size};

verus! {

/// A product is no larger than the product of the bounds of its factors.
pub proof fn lemma_product_within(a: int, b: int, m: int, n: int)
    by (nonlinear_arith)
    requires
        -m <= a <= m,
        -n <= b <= n,
    ensures
        -(m * n) <= a * b <= m * n,
{
}

/// A quotient rounded down, times the divisor, falls short of what was
/// divided by less than the divisor.
pub proof fn lemma_floor_div(n: int, d: int)
    requires
        d > 0,
    ensures
        d * (n / d) <= n < d * (n / d) + d,
{
    vstd::arithmetic::div_mod::lemma_fundamental_div_mod(n, d);
    vstd::arithmetic::div_mod::lemma_mod_bound(n, d);
}

/// A quotient rounded toward zero is no larger than what was divided, and
/// has its sign.
pub proof fn lemma_quot_bounded(n: int, d: int)
    requires
        d > 0,
    ensures
        n >= 0 ==> 0 <= quot(n, d) <= n,
        n <= 0 ==> n <= quot(n, d) <= 0,
{
    if n >= 0 {
        assert(0 <= n / d <= n) by (nonlinear_arith)
            requires
                n >= 0,
                d > 0,
        ;
    } else {
        assert(0 <= (-n) / d <= -n) by (nonlinear_arith)
            requires
                -n >= 0,
                d > 0,
        ;
    }
}

/// What a quotient rounded toward zero leaves over is smaller than the
/// divisor, and turning the sign of what is divided turns the sign of the
/// quotient.
pub proof fn lemma_quot_remainder(n: int, d: int)
    requires
        d > 0,
    ensures
        -d < n - d * quot(n, d) < d,
        quot(-n, d) == -quot(n, d),
{
    if n > 0 {
        lemma_floor_div(n, d);
    } else if n < 0 {
        lemma_floor_div(-n, d);
        assert(d * (-((-n) / d)) == -(d * ((-n) / d))) by (nonlinear_arith);
    } else {
        let zero = 0int;
        lemma_floor_div(zero, d);
        assert(zero / d == 0) by (nonlinear_arith)
            requires
                d * (zero / d) <= zero < d * (zero / d) + d,
                zero == 0,
                d > 0,
        ;
        assert(d * 0 == 0);
    }
}

/// A quotient is within a bound if what is divided is within the bound
/// times the divisor.
pub proof fn lemma_quot_within(n: int, d: int, bound: int)
    requires
        d > 0,
        bound >= 0,
        -(bound * d) <= n <= bound * d,
    ensures
        -bound <= quot(n, d) <= bound,
{
    lemma_quot_remainder(n, d);
    let q = quot(n, d);
    assert(-bound <= q <= bound) by (nonlinear_arith)
        requires
            -(bound * d) <= n <= bound * d,
            -d < n - d * q < d,
            d > 0,
            bound >= 0,
    {
        if q > bound {
            assert(d * q >= d * (bound + 1));
        }
        if q < -bound {
            assert(d * q <= d * (-bound - 1));
        }
    }
}

/// Twice the product of two numbers is no more than the sum of their
/// squares, whatever their signs.
pub proof fn lemma_mean_square(x: int, y: int)
    by (nonlinear_arith)
    ensures
        -(x * x + y * y) <= 2 * (x * y) <= x * x + y * y,
        x * x >= 0,
        y * y >= 0,
{
    assert((x - y) * (x - y) >= 0);
    assert((x + y) * (x + y) >= 0);
}

/// A product spread over a sum.
pub proof fn lemma_spread(a: int, b: int, c: int)
    by (nonlinear_arith)
    ensures
        a * (b + c) == a * b + a * c,
        (b + c) * a == a * b + a * c,
        a * (b - c) == a * b - a * c,
{
}

/// The factors of a product of three can change places.
pub proof fn lemma_regroup(a: int, b: int, c: int)
    by (nonlinear_arith)
    ensures
        a * (b * c) == b * (a * c),
        (a * b) * c == b * (a * c),
        (b * a) * c == b * (a * c),
        a * (c * b) == b * (a * c),
{
}

/// The factors of a product of four can change places.
pub proof fn lemma_regroup_four(c: int, n: int, d: int, v: int)
    by (nonlinear_arith)
    ensures
        (c * n) * (d * v) == (d * n) * (v * c),
{
}

/// The square of a product is the product of the squares.
pub proof fn lemma_square_of_product(p: int, q: int)
    by (nonlinear_arith)
    ensures
        (p * q) * (p * q) == (p * p) * (q * q),
{
}

/// Of two lengths, the longer has the larger square.
pub proof fn lemma_square_ordered(small: int, large: int)
    by (nonlinear_arith)
    requires
        0 <= small <= large,
    ensures
        small * small <= large * large,
{
}

/// Of two numbers, the smaller has the smaller multiple.
pub proof fn lemma_scaled_order(scale: int, small: int, large: int)
    by (nonlinear_arith)
    requires
        scale >= 0,
        small <= large,
    ensures
        scale * small <= scale * large,
{
}

/// Turning one factor round turns the product round.
pub proof fn lemma_negated(a: int, b: int)
    by (nonlinear_arith)
    ensures
        (-a) * b == -(a * b),
{
}

/// An inner product and a squared length do not change when both vectors
/// are turned round.
pub proof fn lemma_turned_round(cx: int, cy: int, vx: int, vy: int)
    by (nonlinear_arith)
    ensures
        (-vx) * (-cx) + (-vy) * (-cy) == vx * cx + vy * cy,
        (-cx) * (-cx) + (-cy) * (-cy) == cx * cx + cy * cy,
{
}

/// What two speeds gain in squares when one gives `k` to the other.
pub proof fn lemma_exchange(a: int, b: int, k: int)
    by (nonlinear_arith)
    ensures
        (a - k) * (a - k) + (b + k) * (b + k) - (a * a + b * b) == 2 * (k * (k - (a - b))),
{
}

/// With `p` for a kick before it is rounded, `r` for what rounding takes
/// from it and `m` for the mirror image of the velocity, all three times
/// the divisor: the rounded kick times its difference from the velocity.
pub proof fn lemma_cross(p: int, r: int, m: int)
    by (nonlinear_arith)
    ensures
        (p - r) * ((p - r) - (m + 2 * p)) == r * r + r * m - (p * p + p * m),
{
}

/// A kick `k` times its difference from the velocity `v`, scaled by the
/// square of the divisor `d`.
pub proof fn lemma_scaled_change(d: int, k: int, v: int)
    by (nonlinear_arith)
    ensures
        (d * d) * (k * (k - v)) == (d * k) * (d * k - d * v),
{
}

/// The part along `(cx, cy)` of `(vx, vy)`, times each of `cx` and `cy`.
pub proof fn lemma_along(cx: int, cy: int, vx: int, vy: int)
    ensures
        cx * (vx * cx + vy * cy) == vx * (cx * cx) + vy * (cx * cy),
        cy * (vx * cx + vy * cy) == vx * (cx * cy) + vy * (cy * cy),
{
    lemma_spread(cx, vx * cx, vy * cy);
    lemma_regroup(cx, vx, cx);
    lemma_regroup(cx, vy, cy);
    lemma_spread(cy, vx * cx, vy * cy);
    lemma_regroup(cy, vx, cx);
    lemma_regroup(cy, vy, cy);
    assert(cy * cx == cx * cy) by (nonlinear_arith);
}

/// With `m` for the mirror image of `dv` at `p`: the part of the square of
/// `p` that `m` does not take back.
pub proof fn lemma_mirror(p: int, m: int, dv: int)
    by (nonlinear_arith)
    requires
        m == dv - 2 * p,
    ensures
        p * p + p * m == p * dv - p * p,
{
}

/// The squares of the two parts of a vector scaled by `n`.
pub proof fn lemma_square_sum(cx: int, cy: int, n: int)
    ensures
        (cx * n) * (cx * n) + (cy * n) * (cy * n) == (n * n) * (cx * cx + cy * cy),
{
    lemma_square_of_product(cx, n);
    lemma_square_of_product(cy, n);
    lemma_spread(n * n, cx * cx, cy * cy);
    assert((cx * cx) * (n * n) == (n * n) * (cx * cx)) by (nonlinear_arith);
    assert((cy * cy) * (n * n) == (n * n) * (cy * cy)) by (nonlinear_arith);
}

/// The sizes of what an elastic collision does, in numbers: `(cx, cy)` is
/// the line between the centres, `(vx, vy)` the relative velocity, neither
/// component of which is larger than `bound`, and the kick is the part of
/// the relative velocity along the line of centres, rounded toward zero.
/// The kick is no larger than twice the bound, and the energy that its
/// rounding adds or takes is no more than four times the bound, and one.
pub proof fn lemma_kick(cx: int, cy: int, vx: int, vy: int, bound: int)
    requires
        cx != 0 || cy != 0,
        -bound <= vx <= bound,
        -bound <= vy <= bound,
    ensures
        ({
            let d = cx * cx + cy * cy;
            let n = vx * cx + vy * cy;
            let kx = quot(cx * n, d);
            let ky = quot(cy * n, d);
            &&& d > 0
            &&& -(2 * bound) <= kx <= 2 * bound
            &&& -(2 * bound) <= ky <= 2 * bound
            &&& -(4 * bound + 1) <= kx * (kx - vx) + ky * (ky - vy) <= 4 * bound + 1
        }),
{
    let xx = cx * cx;
    let yy = cy * cy;
    let xy = cx * cy;
    let d = cx * cx + cy * cy;
    let n = vx * cx + vy * cy;
    let px = cx * n;
    let py = cy * n;
    let kx = quot(px, d);
    let ky = quot(py, d);
    lemma_mean_square(cx, cy);
    assert(d > 0) by (nonlinear_arith)
        requires
            d == cx * cx + cy * cy,
            cx != 0 || cy != 0,
    ;
    let half = size(xy);
    assert(2 * half <= d);
    // Each part of the products in terms of six simple ones, and their sizes.
    lemma_along(cx, cy, vx, vy);
    assert(px == vx * xx + vy * xy);
    assert(py == vx * xy + vy * yy);
    lemma_product_within(vx, xx, bound, xx);
    lemma_product_within(vy, xx, bound, xx);
    lemma_product_within(vx, yy, bound, yy);
    lemma_product_within(vy, yy, bound, yy);
    lemma_product_within(vx, xy, bound, half);
    lemma_product_within(vy, xy, bound, half);
    lemma_spread(bound, xx, yy);
    lemma_scaled_order(bound, 2 * half, d);
    assert(bound * (2 * half) == 2 * (bound * half)) by (nonlinear_arith);
    let top = bound * d;
    assert(top >= 0);
    assert(-(2 * top) <= px <= 2 * top);
    assert(-(2 * top) <= py <= 2 * top);
    assert(2 * top == (2 * bound) * d) by (nonlinear_arith)
        requires
            top == bound * d,
    ;
    lemma_quot_within(px, d, 2 * bound);
    lemma_quot_within(py, d, 2 * bound);
    // What the relative velocity becomes when it is mirrored at the line of
    // centres, times d.
    let wx = d * vx;
    let wy = d * vy;
    let mx = wx - 2 * px;
    let my = wy - 2 * py;
    lemma_spread(vx, xx, yy);
    lemma_spread(vy, xx, yy);
    assert(wx == vx * xx + vx * yy);
    assert(wy == vy * xx + vy * yy);
    assert(-(2 * top) <= mx <= 2 * top);
    assert(-(2 * top) <= my <= 2 * top);
    // What rounding left over of the kick.
    lemma_quot_remainder(px, d);
    lemma_quot_remainder(py, d);
    let rx = px - d * kx;
    let ry = py - d * ky;
    // The change of energy, times d * d, in terms of what rounding left over.
    let change_x = kx * (kx - vx);
    let change_y = ky * (ky - vy);
    lemma_scaled_change(d, kx, vx);
    lemma_scaled_change(d, ky, vy);
    lemma_spread(d * d, change_x, change_y);
    lemma_cross(px, rx, mx);
    lemma_cross(py, ry, my);
    assert(d * kx == px - rx);
    assert(d * kx - d * vx == (px - rx) - (mx + 2 * px));
    assert((d * kx) * (d * kx - d * vx) == (px - rx) * ((px - rx) - (mx + 2 * px)));
    assert((d * ky) * (d * ky - d * vy) == (py - ry) * ((py - ry) - (my + 2 * py)));
    // The kick that is not rounded changes nothing.
    lemma_mirror(px, mx, wx);
    lemma_mirror(py, my, wy);
    lemma_square_sum(cx, cy, n);
    lemma_regroup_four(cx, n, d, vx);
    lemma_regroup_four(cy, n, d, vy);
    lemma_spread(d * n, vx * cx, vy * cy);
    assert(px * wx + py * wy == (d * n) * n);
    assert((d * n) * n == (n * n) * d) by (nonlinear_arith);
    assert(px * px + px * mx + (py * py + py * my) == 0);
    let scaled = (d * d) * (change_x + change_y);
    assert(scaled == rx * rx + ry * ry + rx * mx + ry * my);
    lemma_product_within(rx, mx, d - 1, 2 * top);
    lemma_product_within(ry, my, d - 1, 2 * top);
    lemma_product_within(rx, rx, d - 1, d - 1);
    lemma_product_within(ry, ry, d - 1, d - 1);
    let most = 2 * ((d - 1) * (d - 1)) + 2 * ((d - 1) * (2 * top));
    assert(-most <= scaled <= most);
    assert(most < (d * d) * (4 * bound + 2)) by (nonlinear_arith)
        requires
            most == 2 * ((d - 1) * (d - 1)) + 2 * ((d - 1) * (2 * top)),
            top == bound * d,
            d > 0,
            bound >= 0,
    ;
    let change = change_x + change_y;
    assert(-(4 * bound + 1) <= change <= 4 * bound + 1) by (nonlinear_arith)
        requires
            -most <= (d * d) * change <= most,
            most < (d * d) * (4 * bound + 2),
            d > 0,
    {
        assert(d * d > 0);
        if change >= 4 * bound + 2 {
            assert((d * d) * change >= (d * d) * (4 * bound + 2));
        }
        if change <= -(4 * bound + 2) {
            assert((d * d) * change <= (d * d) * (-(4 * bound + 2)));
        }
    }
}

/// A coordinate of the line between two centres is no longer than the line.
pub proof fn lemma_axis_within_span(x: int, y: int, span: int)
    by (nonlinear_arith)
    requires
        span >= 0,
        x * x + y * y < (span + 1) * (span + 1),
    ensures
        -span <= x <= span,
{
    if x > span {
        assert(x * x >= (span + 1) * (span + 1));
    }
    if x < -span {
        assert((-x) * (-x) >= (span + 1) * (span + 1));
    }
    assert(y * y >= 0);
}

/// Two lengths whose squares add up to less than the square of `limit` fall
/// short of a circle of radius `limit + 3` even when each grows by two.
pub proof fn lemma_short_of_circle(a: int, b: int, limit: int)
    by (nonlinear_arith)
    requires
        a >= 0,
        b >= 0,
        limit >= 0,
        a * a + b * b < limit * limit,
    ensures
        (a + 2) * (a + 2) + (b + 2) * (b + 2) < (limit + 3) * (limit + 3),
{
    assert((a + b) * (a + b) <= 2 * (a * a + b * b)) by {
        assert((a - b) * (a - b) >= 0);
    }
    assert(limit > 0);
    if 2 * (a + b) > 3 * limit {
        assert(4 * ((a + b) * (a + b)) > 9 * (limit * limit)) by {
            assert((2 * (a + b)) * (2 * (a + b)) > (3 * limit) * (3 * limit));
        }
    }
    assert(2 * (a + b) <= 3 * limit);
}

/// How far one coordinate of the line between two centres grows when an
/// overlap is ended: `apart` is the coordinate, `span` the distance between
/// the centres, `detour` the depth of the overlap.
pub proof fn lemma_push_axis(apart: int, span: int, detour: int)
    requires
        span > 0,
        detour > 0,
    ensures
        ({
            let shift = quot(apart * detour, 2 * span);
            let grown = apart + 2 * shift;
            &&& apart >= 0 ==> shift >= 0
            &&& apart <= 0 ==> shift <= 0
            &&& span * (size(grown) + 2) >= (detour + span) * size(apart)
            &&& 2 * span * size(shift) <= size(apart) * detour
        }),
{
    let reach = size(apart);
    let step = (reach * detour) / (2 * span);
    assert(reach * detour >= 0) by (nonlinear_arith)
        requires
            reach >= 0,
            detour > 0,
    ;
    lemma_floor_div(reach * detour, 2 * span);
    assert(step >= 0) by (nonlinear_arith)
        requires
            reach * detour < (2 * span) * step + 2 * span,
            span > 0,
            reach * detour >= 0,
    ;
    if apart >= 0 {
        assert(apart * detour == reach * detour);
        if apart == 0 {
            assert(step == 0) by (nonlinear_arith)
                requires
                    (2 * span) * step <= reach * detour,
                    reach == 0,
                    step >= 0,
                    span > 0,
            ;
        }
    } else {
        assert(-(apart * detour) == reach * detour) by (nonlinear_arith)
            requires
                reach == -apart,
        ;
        assert(apart * detour <= 0);
        if apart * detour == 0 {
            assert(reach * detour == 0);
        }
    }
    let shift = quot(apart * detour, 2 * span);
    assert(size(shift) == step);
    assert(size(apart + 2 * shift) == reach + 2 * step);
    assert(span * (reach + 2 * step + 2) >= (detour + span) * reach) by (nonlinear_arith)
        requires
            reach * detour < (2 * span) * step + 2 * span,
    ;
    assert(2 * span * step <= reach * detour) by (nonlinear_arith)
        requires
            (2 * span) * step <= reach * detour,
    ;
}

/// A push is short along each axis: `apart` is a coordinate of the line
/// between the centres, `span` the length of the line in `fine`-ths of a
/// unit, `detour` the depth of the overlap in `fine`-ths of a unit.
pub proof fn lemma_push_short(apart: int, span: int, detour: int, fine: int)
    requires
        fine > 0,
        span > 0,
        detour > 0,
        -span <= apart * fine <= span,
    ensures
        2 * fine * size(quot(apart * detour, 2 * span)) <= detour,
{
    lemma_push_axis(apart, span, detour);
    let shift = size(quot(apart * detour, 2 * span));
    let reach = size(apart);
    assert(reach * fine <= span) by (nonlinear_arith)
        requires
            -span <= apart * fine <= span,
            reach == size(apart),
    ;
    assert(2 * fine * shift <= detour) by (nonlinear_arith)
        requires
            2 * span * shift <= reach * detour,
            0 <= reach * fine <= span,
            span > 0,
            detour > 0,
            shift >= 0,
            fine > 0,
    {
        assert((reach * fine) * detour <= span * detour);
        assert((2 * span * shift) * fine <= (reach * detour) * fine);
        assert((reach * detour) * fine == (reach * fine) * detour);
        assert(span * (2 * fine * shift) == (2 * span * shift) * fine);
        if 2 * fine * shift > detour {
            assert(span * (2 * fine * shift) >= span * (detour + 1));
        }
    }
}

/// What pushing apart achieves, in numbers: `x` and `y` span the line
/// between the centres, `span` is its length in `fine`-ths of a unit,
/// `reach` is two radii.
pub proof fn lemma_pushed_far_enough(x: int, y: int, span: int, reach: int, fine: int)
    requires
        fine > 0,
        span > 0,
        reach * fine > span,
        span * span <= (x * x + y * y) * (fine * fine),
    ensures
        ({
            let grown_x = x + 2 * quot(x * (reach * fine - span), 2 * span);
            let grown_y = y + 2 * quot(y * (reach * fine - span), 2 * span);
            reach >= 3 ==> grown_x * grown_x + grown_y * grown_y >= (reach - 3) * (reach - 3)
        }),
{
    let wide = reach * fine;
    let detour = wide - span;
    let grown_x = x + 2 * quot(x * detour, 2 * span);
    let grown_y = y + 2 * quot(y * detour, 2 * span);
    lemma_push_axis(x, span, detour);
    lemma_push_axis(y, span, detour);
    let a = size(x);
    let b = size(y);
    let wide_a = size(grown_x);
    let wide_b = size(grown_y);
    assert(a * a == x * x && b * b == y * y && wide_a * wide_a == grown_x * grown_x && wide_b
        * wide_b == grown_y * grown_y) by (nonlinear_arith)
        requires
            a == size(x),
            b == size(y),
            wide_a == size(grown_x),
            wide_b == size(grown_y),
    ;
    assert(reach > 0) by (nonlinear_arith)
        requires
            reach * fine > span,
            span > 0,
            fine > 0,
    ;
    if reach >= 3 && wide_a * wide_a + wide_b * wide_b < (reach - 3) * (reach - 3) {
        lemma_short_of_circle(wide_a, wide_b, reach - 3);
        let sum = (wide_a + 2) * (wide_a + 2) + (wide_b + 2) * (wide_b + 2);
        assert(sum < reach * reach);
        assert(wide * a >= 0 && wide * b >= 0) by (nonlinear_arith)
            requires
                wide > 0,
                a >= 0,
                b >= 0,
        ;
        lemma_square_ordered(wide * a, span * (wide_a + 2));
        lemma_square_ordered(wide * b, span * (wide_b + 2));
        lemma_square_of_product(wide, a);
        lemma_square_of_product(wide, b);
        lemma_square_of_product(reach, fine);
        lemma_square_of_product(span, wide_a + 2);
        lemma_square_of_product(span, wide_b + 2);
        let span2 = span * span;
        let wide2 = wide * wide;
        let reach2 = reach * reach;
        let fine2 = fine * fine;
        let gap = a * a + b * b;
        lemma_spread(span2, (wide_a + 2) * (wide_a + 2), (wide_b + 2) * (wide_b + 2));
        lemma_spread(wide2, a * a, b * b);
        assert(span2 * sum >= wide2 * gap);
        assert(wide2 * gap == reach2 * (gap * fine2)) by (nonlinear_arith)
            requires
                wide2 == reach2 * fine2,
        ;
        assert(span2 > 0 && reach2 >= 0) by (nonlinear_arith)
            requires
                span2 == span * span,
                reach2 == reach * reach,
                span > 0,
        ;
        lemma_scaled_order(reach2, span2, gap * fine2);
        assert(false) by (nonlinear_arith)
            requires
                span2 * sum >= reach2 * span2,
                sum < reach2,
                span2 > 0,
        ;
    }
}

/// What pushing apart does not overdo, in numbers: `x` and `y` span the
/// line between the centres, `span` is its length and `reach` is two radii,
/// both in the same parts of a unit. The line grows by no more than the
/// factor from `span` to `reach`.
pub proof fn lemma_pushed_not_too_far(x: int, y: int, span: int, reach: int)
    requires
        span > 0,
        reach > span,
    ensures
        ({
            let grown_x = x + 2 * quot(x * (reach - span), 2 * span);
            let grown_y = y + 2 * quot(y * (reach - span), 2 * span);
            (span * span) * (grown_x * grown_x + grown_y * grown_y) <= (reach * reach) * (x * x + y
                * y)
        }),
{
    let detour = reach - span;
    let grown_x = x + 2 * quot(x * detour, 2 * span);
    let grown_y = y + 2 * quot(y * detour, 2 * span);
    lemma_push_axis(x, span, detour);
    lemma_push_axis(y, span, detour);
    let a = size(x);
    let b = size(y);
    let wide_a = size(grown_x);
    let wide_b = size(grown_y);
    assert(a * a == x * x && b * b == y * y && wide_a * wide_a == grown_x * grown_x && wide_b
        * wide_b == grown_y * grown_y) by (nonlinear_arith)
        requires
            a == size(x),
            b == size(y),
            wide_a == size(grown_x),
            wide_b == size(grown_y),
    ;
    assert(wide_a == a + 2 * size(quot(x * detour, 2 * span)));
    assert(wide_b == b + 2 * size(quot(y * detour, 2 * span)));
    assert(0 <= span * wide_a <= reach * a) by (nonlinear_arith)
        requires
            wide_a == a + 2 * size(quot(x * detour, 2 * span)),
            2 * span * size(quot(x * detour, 2 * span)) <= a * detour,
            detour == reach - span,
            span > 0,
            wide_a >= 0,
    ;
    assert(0 <= span * wide_b <= reach * b) by (nonlinear_arith)
        requires
            wide_b == b + 2 * size(quot(y * detour, 2 * span)),
            2 * span * size(quot(y * detour, 2 * span)) <= b * detour,
            detour == reach - span,
            span > 0,
            wide_b >= 0,
    ;
    lemma_square_ordered(span * wide_a, reach * a);
    lemma_square_ordered(span * wide_b, reach * b);
    lemma_square_of_product(span, wide_a);
    lemma_square_of_product(span, wide_b);
    lemma_square_of_product(reach, a);
    lemma_square_of_product(reach, b);
    lemma_spread(span * span, wide_a * wide_a, wide_b * wide_b);
    lemma_spread(reach * reach, a * a, b * b);
}

/// What pushing apart does not overdo, as a distance: `near` is the
/// distance of the centres after the push, rounded down, `after` its square;
/// `gap` is the square of their distance before, of which `span` is the
/// root in `fine`-ths of a unit; `reach` is two radii.
pub proof fn lemma_pushed_near(
    near: int,
    after: int,
    gap: int,
    span: int,
    reach: int,
    fine: int,
)
    requires
        fine > 0,
        span >= fine,
        reach > 0,
        near >= 0,
        near * near <= after,
        gap * (fine * fine) < (span + 1) * (span + 1),
        (span * span) * after <= ((reach * fine) * (reach * fine)) * gap,
    ensures
        fine * near <= reach * (fine + 1),
{
    let wide = reach * fine;
    lemma_square_of_product(span, near);
    lemma_square_of_product(reach, fine);
    lemma_square_of_product(reach, span + 1);
    let span2 = span * span;
    let reach2 = reach * reach;
    let fine2 = fine * fine;
    assert(span2 >= 0 && reach2 > 0) by (nonlinear_arith)
        requires
            span2 == span * span,
            reach2 == reach * reach,
            reach > 0,
    ;
    lemma_scaled_order(span2, near * near, after);
    assert((wide * wide) * gap == reach2 * (gap * fine2)) by (nonlinear_arith)
        requires
            wide * wide == reach2 * fine2,
    ;
    assert(reach2 * (gap * fine2) < reach2 * ((span + 1) * (span + 1))) by (nonlinear_arith)
        requires
            gap * fine2 < (span + 1) * (span + 1),
            reach2 > 0,
    ;
    // The squares are in order, and so are the lengths.
    assert((span * near) * (span * near) < (reach * (span + 1)) * (reach * (span + 1)));
    assert(span * near < reach * (span + 1)) by (nonlinear_arith)
        requires
            (span * near) * (span * near) < (reach * (span + 1)) * (reach * (span + 1)),
            span >= 0,
            near >= 0,
            reach > 0,
    {
        if span * near >= reach * (span + 1) {
            assert(reach * (span + 1) >= 0);
            assert((span * near) * (span * near) >= (reach * (span + 1)) * (reach * (span + 1)));
        }
    }
    if near > reach {
        assert(fine * (near - reach) <= span * (near - reach)) by (nonlinear_arith)
            requires
                fine <= span,
                near - reach > 0,
        ;
        assert(span * (near - reach) < reach) by (nonlinear_arith)
            requires
                span * near < reach * (span + 1),
        ;
        assert(fine * near < reach * (fine + 1)) by (nonlinear_arith)
            requires
                fine * (near - reach) < reach,
        ;
    } else {
        assert(fine * near <= reach * (fine + 1)) by (nonlinear_arith)
            requires
                near <= reach,
                fine > 0,
                reach > 0,
        ;
    }
}

/// Two points that are six lengths apart or more are still two lengths
/// apart or more when one of them moved by less than two lengths along each
/// axis: `x` and `y` span the line between them, `dx` and `dy` are how it
/// changes.
pub proof fn lemma_clearance(x: int, y: int, dx: int, dy: int, length: int)
    by (nonlinear_arith)
    requires
        length >= 0,
        x * x + y * y >= (6 * length) * (6 * length),
        -(2 * length) < dx < 2 * length,
        -(2 * length) < dy < 2 * length,
    ensures
        (x + dx) * (x + dx) + (y + dy) * (y + dy) >= (2 * length) * (2 * length),
{
    if (x + dx) * (x + dx) + (y + dy) * (y + dy) < (2 * length) * (2 * length) {
        assert((x + dx) * (x + dx) < (2 * length) * (2 * length));
        assert((y + dy) * (y + dy) < (2 * length) * (2 * length));
        assert(-(2 * length) < x + dx < 2 * length) by {
            if x + dx >= 2 * length {
                assert((x + dx) * (x + dx) >= (2 * length) * (2 * length));
            }
            if x + dx <= -(2 * length) {
                assert((x + dx) * (x + dx) >= (2 * length) * (2 * length));
            }
        }
        assert(-(2 * length) < y + dy < 2 * length) by {
            if y + dy >= 2 * length {
                assert((y + dy) * (y + dy) >= (2 * length) * (2 * length));
            }
            if y + dy <= -(2 * length) {
                assert((y + dy) * (y + dy) >= (2 * length) * (2 * length));
            }
        }
        assert(-(4 * length) < x < 4 * length);
        assert(-(4 * length) < y < 4 * length);
        assert(x * x < (4 * length) * (4 * length));
        assert(y * y < (4 * length) * (4 * length));
        assert((4 * length) * (4 * length) + (4 * length) * (4 * length) <= (6 * length) * (6
            * length));
    }
}

/// Two lengths whose squares add up to less than the square of `limit` fall
/// short of a circle of radius `limit + 2` even when each grows by one.
pub proof fn lemma_just_short_of_circle(a: int, b: int, limit: int)
    by (nonlinear_arith)
    requires
        a >= 0,
        b >= 0,
        limit >= 0,
        a * a + b * b < limit * limit,
    ensures
        (a + 1) * (a + 1) + (b + 1) * (b + 1) < (limit + 2) * (limit + 2),
{
    assert((a + b) * (a + b) <= 2 * (a * a + b * b)) by {
        assert((a - b) * (a - b) >= 0);
    }
    assert(limit > 0);
    if a + b > 2 * limit {
        assert((a + b) * (a + b) > (2 * limit) * (2 * limit));
    }
    assert(a + b <= 2 * limit);
}

/// How long a vector is that was scaled and rounded: `(x, y)` is the
/// vector, scaled by `factor` over `divisor` and rounded toward zero.
/// Neither component gains, and neither loses as much as one.
pub proof fn lemma_scaled_length(x: int, y: int, factor: int, divisor: int)
    requires
        factor >= 0,
        divisor > 0,
    ensures
        ({
            let a = size(quot(x * factor, divisor));
            let b = size(quot(y * factor, divisor));
            &&& (divisor * divisor) * (a * a + b * b) <= (factor * factor) * (x * x + y * y)
            &&& (factor * factor) * (x * x + y * y) <= (divisor * divisor) * ((a + 1) * (a + 1)
                + (b + 1) * (b + 1))
        }),
{
    let a = size(quot(x * factor, divisor));
    let b = size(quot(y * factor, divisor));
    lemma_scaled_axis(x, factor, divisor);
    lemma_scaled_axis(y, factor, divisor);
    lemma_spread(divisor * divisor, a * a, b * b);
    lemma_spread(divisor * divisor, (a + 1) * (a + 1), (b + 1) * (b + 1));
    lemma_spread(factor * factor, x * x, y * y);
}

/// One component of `lemma_scaled_length`.
pub proof fn lemma_scaled_axis(x: int, factor: int, divisor: int)
    requires
        factor >= 0,
        divisor > 0,
    ensures
        ({
            let a = size(quot(x * factor, divisor));
            &&& (divisor * divisor) * (a * a) <= (factor * factor) * (x * x)
            &&& (factor * factor) * (x * x) <= (divisor * divisor) * ((a + 1) * (a + 1))
        }),
{
    let long = size(x) * factor;
    let a = size(quot(x * factor, divisor));
    assert(long >= 0 && size(x * factor) == long) by (nonlinear_arith)
        requires
            long == size(x) * factor,
            factor >= 0,
    ;
    lemma_quot_remainder(x * factor, divisor);
    lemma_quot_bounded(x * factor, divisor);
    // What is divided and what comes out have the same sign.
    assert(divisor * a <= long < divisor * a + divisor) by (nonlinear_arith)
        requires
            -divisor < x * factor - divisor * quot(x * factor, divisor) < divisor,
            x * factor >= 0 ==> 0 <= quot(x * factor, divisor),
            x * factor <= 0 ==> quot(x * factor, divisor) <= 0,
            a == size(quot(x * factor, divisor)),
            long == size(x * factor),
            divisor > 0,
    ;
    assert(divisor * (a + 1) == divisor * a + divisor && divisor * a >= 0) by (nonlinear_arith)
        requires
            divisor > 0,
            a >= 0,
    ;
    lemma_square_ordered(divisor * a, long);
    lemma_square_ordered(long, divisor * (a + 1));
    lemma_square_of_product(divisor, a);
    lemma_square_of_product(divisor, a + 1);
    lemma_square_of_product(size(x), factor);
    assert(size(x) * size(x) == x * x) by (nonlinear_arith);
    assert((x * x) * (factor * factor) == (factor * factor) * (x * x)) by (nonlinear_arith);
}

} // verus!
