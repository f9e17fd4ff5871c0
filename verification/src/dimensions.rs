//! The dimension calculator: the size of the grid that the frames of a video
//! are reduced to, from the native size of the video's first frame.
//!
//! For a native width `W` and height `H` the grid is
//! `aspect * W / scale` wide and `H / scale` high, each cut down to a whole
//! number, with `aspect = W / H` and `scale = sqrt(W * H / 999)`. Squared,
//! the two quotients are `999 * W^3 / H^3` and `999 * H / W`, so the grid's
//! sides are the whole parts of the square roots of these, which is how they
//! are computed here: in integers, with no rounding error.

use vstd::prelude::*;

verus! {

/// The number of pixels that the target grid is sized for.
pub const PIXEL_BUDGET: u64 = 999;

/// Whether `root` is the whole part of the square root of `n`.
pub open spec fn is_floor_sqrt(root: nat, n: nat) -> bool {
    root * root <= n < (root + 1) * (root + 1)
}

/// The whole part of the square root of `n`.
pub open spec fn floor_sqrt(n: nat) -> nat {
    choose|root: nat| is_floor_sqrt(root, n)
}

/// The cube of `n`.
pub open spec fn cube(n: nat) -> nat {
    n * n * n
}

/// The width of the target grid for a frame of `width` by `height` pixels:
/// the whole part of the square root of `999 * width^3 / height^3`.
pub open spec fn target_width(width: nat, height: nat) -> nat {
    floor_sqrt(PIXEL_BUDGET as nat * cube(width) / cube(height))
}

/// The height of the target grid for a frame of `width` by `height` pixels:
/// the whole part of the square root of `999 * height / width`.
pub open spec fn target_height(width: nat, height: nat) -> nat {
    floor_sqrt(PIXEL_BUDGET as nat * height / width)
}

/// Squaring keeps the order of two natural numbers.
proof fn lemma_square_ordered(a: nat, b: nat)
    requires
        a <= b,
    ensures
        a * a <= b * b,
{
    assert(a * a <= b * b) by (nonlinear_arith)
        requires
            a <= b,
    ;
}

/// Two natural numbers are ordered as their squares are.
proof fn lemma_square_reflects_order(a: nat, b: nat)
    requires
        a * a < b * b,
    ensures
        a < b,
{
    if b <= a {
        lemma_square_ordered(b, a);
    }
}

/// Every natural number has a whole square root.
pub proof fn lemma_floor_sqrt_exists(n: nat)
    ensures
        is_floor_sqrt(floor_sqrt(n), n),
    decreases n,
{
    if n == 0 {
        assert(0nat * 0nat == 0 && (0nat + 1) * (0nat + 1) == 1) by (nonlinear_arith);
        assert(is_floor_sqrt(0, 0));
    } else {
        lemma_floor_sqrt_exists((n - 1) as nat);
        let below = floor_sqrt((n - 1) as nat);
        if (below + 1) * (below + 1) <= n {
            assert((below + 2) * (below + 2) > (below + 1) * (below + 1)) by (nonlinear_arith);
            assert(is_floor_sqrt(below + 1, n));
        } else {
            assert(is_floor_sqrt(below, n));
        }
    }
}

/// A natural number has one whole square root only.
pub proof fn lemma_floor_sqrt_unique(root: nat, n: nat)
    requires
        is_floor_sqrt(root, n),
    ensures
        root == floor_sqrt(n),
{
    lemma_floor_sqrt_exists(n);
    let other = floor_sqrt(n);
    if root < other {
        lemma_square_ordered(root + 1, other);
    } else if other < root {
        lemma_square_ordered(other + 1, root);
    }
}

/// The target width is the largest whole number whose square, times the
/// cube of the height, stays within 999 times the cube of the width: the
/// whole part of `aspect * W / scale`.
pub proof fn lemma_target_width_bounds(width: nat, height: nat)
    requires
        0 < width,
        0 < height,
    ensures
        target_width(width, height) * target_width(width, height) * cube(height) <= 999 * cube(
            width,
        ),
        999 * cube(width) < (target_width(width, height) + 1) * (target_width(width, height) + 1)
            * cube(height),
{
    let cubed = cube(height);
    let total = 999 * cube(width);
    let quotient = total / cubed;
    let side = target_width(width, height);
    assert(0 < cubed) by (nonlinear_arith)
        requires
            0 < height,
            cubed == height * height * height,
    ;
    lemma_floor_sqrt_exists(quotient);
    vstd::arithmetic::div_mod::lemma_fundamental_div_mod(total as int, cubed as int);
    vstd::arithmetic::div_mod::lemma_mod_bound(total as int, cubed as int);
    assert(side * side * cubed <= quotient * cubed) by (nonlinear_arith)
        requires
            side * side <= quotient,
            0 < cubed,
    ;
    assert((quotient + 1) * cubed <= (side + 1) * (side + 1) * cubed) by (nonlinear_arith)
        requires
            quotient + 1 <= (side + 1) * (side + 1),
            0 < cubed,
    ;
    assert(cubed * quotient == quotient * cubed) by (nonlinear_arith);
    assert((quotient + 1) * cubed == quotient * cubed + cubed) by (nonlinear_arith);
}

/// The target height is the largest whole number whose square, times the
/// width, stays within 999 times the height: the whole part of `H / scale`.
pub proof fn lemma_target_height_bounds(width: nat, height: nat)
    requires
        0 < width,
        0 < height,
    ensures
        target_height(width, height) * target_height(width, height) * width <= 999 * height,
        999 * height < (target_height(width, height) + 1) * (target_height(width, height) + 1)
            * width,
{
    let total = 999 * height;
    let quotient = total / width;
    let side = target_height(width, height);
    lemma_floor_sqrt_exists(quotient);
    vstd::arithmetic::div_mod::lemma_fundamental_div_mod(total as int, width as int);
    vstd::arithmetic::div_mod::lemma_mod_bound(total as int, width as int);
    assert(side * side * width <= quotient * width) by (nonlinear_arith)
        requires
            side * side <= quotient,
            0 < width,
    ;
    assert((quotient + 1) * width <= (side + 1) * (side + 1) * width) by (nonlinear_arith)
        requires
            quotient + 1 <= (side + 1) * (side + 1),
            0 < width,
    ;
    assert(width * quotient == quotient * width) by (nonlinear_arith);
    assert((quotient + 1) * width == quotient * width + width) by (nonlinear_arith);
}

/// A side of the target grid is at least 1 exactly where the frame is not
/// too narrow for it: the width where `H^3 <= 999 * W^3`, the height where
/// `W <= 999 * H`.
pub proof fn lemma_target_sides_positive(width: nat, height: nat)
    requires
        0 < width,
        0 < height,
    ensures
        target_width(width, height) >= 1 <==> cube(height) <= 999 * cube(width),
        target_height(width, height) >= 1 <==> width <= 999 * height,
{
    let a = target_width(width, height);
    let b = target_height(width, height);
    lemma_target_width_bounds(width, height);
    lemma_target_height_bounds(width, height);
    if a >= 1 {
        assert(cube(height) <= a * a * cube(height)) by (nonlinear_arith)
            requires
                1 <= a,
        ;
    } else {
        assert((a + 1) * (a + 1) * cube(height) == cube(height)) by (nonlinear_arith)
            requires
                a == 0,
        ;
    }
    if b >= 1 {
        assert(width <= b * b * width) by (nonlinear_arith)
            requires
                1 <= b,
        ;
    } else {
        assert((b + 1) * (b + 1) * width == width) by (nonlinear_arith)
            requires
                b == 0,
        ;
    }
}

/// The pixel count of the target grid brackets 999 times the aspect ratio
/// of the frame: `tw * th <= 999 * W / H < (tw + 1) * (th + 1)`, written
/// without the division.
pub proof fn lemma_target_area_bounds(width: nat, height: nat)
    requires
        0 < width,
        0 < height,
    ensures
        target_width(width, height) * target_height(width, height) * height <= 999 * width,
        999 * width < (target_width(width, height) + 1) * (target_height(width, height) + 1)
            * height,
{
    let a = target_width(width, height);
    let b = target_height(width, height);
    let w = width;
    let h = height;
    lemma_target_width_bounds(w, h);
    lemma_target_height_bounds(w, h);
    let budget = 999 * w;
    let unit = h * w;
    assert(0 < unit) by (nonlinear_arith)
        requires
            0 < h,
            0 < w,
            unit == h * w,
    ;

    let inner = a * b * h;
    assert((a * a * cube(h)) * (b * b * w) <= (999 * cube(w)) * (999 * h)) by (nonlinear_arith)
        requires
            a * a * cube(h) <= 999 * cube(w),
            b * b * w <= 999 * h,
    ;
    assert((a * a * cube(h)) * (b * b * w) == (inner * inner) * unit) by (nonlinear_arith)
        requires
            cube(h) == h * h * h,
            inner == a * b * h,
            unit == h * w,
    ;
    assert((999 * cube(w)) * (999 * h) == (budget * budget) * unit) by (nonlinear_arith)
        requires
            cube(w) == w * w * w,
            budget == 999 * w,
            unit == h * w,
    ;
    assert(inner * inner <= budget * budget) by (nonlinear_arith)
        requires
            (inner * inner) * unit <= (budget * budget) * unit,
            0 < unit,
    ;
    if budget < inner {
        lemma_square_ordered(budget + 1, inner);
        assert((budget + 1) * (budget + 1) > budget * budget) by (nonlinear_arith);
    }

    let outer = (a + 1) * (b + 1) * h;
    assert((999 * cube(w)) * (999 * h) < ((a + 1) * (a + 1) * cube(h)) * ((b + 1) * (b + 1) * w))
        by (nonlinear_arith)
        requires
            999 * cube(w) < (a + 1) * (a + 1) * cube(h),
            999 * h < (b + 1) * (b + 1) * w,
            0 < w,
            0 < h,
    ;
    assert(((a + 1) * (a + 1) * cube(h)) * ((b + 1) * (b + 1) * w) == (outer * outer) * unit)
        by (nonlinear_arith)
        requires
            cube(h) == h * h * h,
            outer == (a + 1) * (b + 1) * h,
            unit == h * w,
    ;
    assert(budget * budget < outer * outer) by (nonlinear_arith)
        requires
            (budget * budget) * unit < (outer * outer) * unit,
            0 < unit,
    ;
    lemma_square_reflects_order(budget, outer);
}

/// The ratio of the target grid's sides brackets the square of the aspect
/// ratio of the frame: `tw / (th + 1) < (W / H)^2 < (tw + 1) / th`, written
/// without the divisions.
pub proof fn lemma_target_ratio_bounds(width: nat, height: nat)
    requires
        0 < width,
        0 < height,
    ensures
        target_width(width, height) * (height * height) < (target_height(width, height) + 1) * (
        width * width),
        target_height(width, height) * (width * width) < (target_width(width, height) + 1) * (
        height * height),
{
    let a = target_width(width, height);
    let b = target_height(width, height);
    let w = width;
    let h = height;
    lemma_target_width_bounds(w, h);
    lemma_target_height_bounds(w, h);
    let low = a * (h * h);
    let high = (b + 1) * (w * w);
    assert((a * a * cube(h)) * (999 * h) < (999 * cube(w)) * ((b + 1) * (b + 1) * w))
        by (nonlinear_arith)
        requires
            a * a * cube(h) <= 999 * cube(w),
            999 * h < (b + 1) * (b + 1) * w,
            0 < w,
            0 < h,
            cube(w) == w * w * w,
    ;
    assert((a * a * cube(h)) * (999 * h) == (low * low) * 999) by (nonlinear_arith)
        requires
            cube(h) == h * h * h,
            low == a * (h * h),
    ;
    assert((999 * cube(w)) * ((b + 1) * (b + 1) * w) == (high * high) * 999) by (nonlinear_arith)
        requires
            cube(w) == w * w * w,
            high == (b + 1) * (w * w),
    ;
    lemma_square_reflects_order(low, high);

    let under = b * (w * w);
    let over = (a + 1) * (h * h);
    assert((b * b * w) * (999 * cube(w)) < (999 * h) * ((a + 1) * (a + 1) * cube(h)))
        by (nonlinear_arith)
        requires
            b * b * w <= 999 * h,
            999 * cube(w) < (a + 1) * (a + 1) * cube(h),
            0 < w,
            0 < h,
            cube(h) == h * h * h,
    ;
    assert((b * b * w) * (999 * cube(w)) == (under * under) * 999) by (nonlinear_arith)
        requires
            cube(w) == w * w * w,
            under == b * (w * w),
    ;
    assert((999 * h) * ((a + 1) * (a + 1) * cube(h)) == (over * over) * 999) by (nonlinear_arith)
        requires
            cube(h) == h * h * h,
            over == (a + 1) * (h * h),
    ;
    lemma_square_reflects_order(under, over);
}

/// A square frame gets a grid of 31 by 31 pixels: 961 pixels, the largest
/// square that stays within 999, with the frame's aspect ratio.
pub proof fn lemma_square_frame_grid(side: nat)
    requires
        0 < side,
    ensures
        target_width(side, side) == 31,
        target_height(side, side) == 31,
{
    let cubed = cube(side);
    assert(0 < cubed) by (nonlinear_arith)
        requires
            0 < side,
            cubed == side * side * side,
    ;
    vstd::arithmetic::div_mod::lemma_div_multiples_vanish(999, cubed as int);
    vstd::arithmetic::div_mod::lemma_div_multiples_vanish(999, side as int);
    assert(999 * cubed == cubed * 999 && 999 * side == side * 999) by (nonlinear_arith);
    assert(31nat * 31nat == 961 && (31nat + 1) * (31nat + 1) == 1024) by (nonlinear_arith);
    lemma_floor_sqrt_unique(31, 999);
}

/// The whole part of the square root of `n`.
pub fn integer_sqrt(n: u128) -> (root: u64)
    ensures
        root == floor_sqrt(n as nat),
        is_floor_sqrt(root as nat, n as nat),
{
    let mut low: u128 = 0;
    let mut high: u128 = 0x1_0000_0000_0000_0000;
    assert(n < high * high) by (nonlinear_arith)
        requires
            n <= u128::MAX,
            high == 0x1_0000_0000_0000_0000,
    ;
    while high - low > 1
        invariant
            low < high <= 0x1_0000_0000_0000_0000,
            low * low <= n < high * high,
        decreases high - low,
    {
        let middle: u128 = low + (high - low) / 2;
        assert(middle * middle <= u128::MAX) by (nonlinear_arith)
            requires
                middle < 0x1_0000_0000_0000_0000,
        ;
        if middle * middle <= n {
            low = middle;
        } else {
            high = middle;
        }
    }
    proof {
        lemma_floor_sqrt_unique(low as nat, n as nat);
    }
    low as u64
}

/// The target grid for a video whose first frame is `width` by `height`
/// pixels: its width and its height.
pub fn target_dimensions(width: u32, height: u32) -> (grid: (u64, u64))
    requires
        width > 0,
        height > 0,
    ensures
        grid.0 == target_width(width as nat, height as nat),
        grid.1 == target_height(width as nat, height as nat),
{
    let w: u128 = width as u128;
    let h: u128 = height as u128;
    assert(w * w * w <= 0xffff_ffff * 0xffff_ffff * 0xffff_ffff && 0 < h * h * h <= 0xffff_ffff
        * 0xffff_ffff * 0xffff_ffff) by (nonlinear_arith)
        requires
            0 < w <= 0xffff_ffff,
            0 < h <= 0xffff_ffff,
    ;
    assert(w * w <= 0xffff_ffff * 0xffff_ffff && h * h <= 0xffff_ffff * 0xffff_ffff)
        by (nonlinear_arith)
        requires
            0 < w <= 0xffff_ffff,
            0 < h <= 0xffff_ffff,
    ;
    let across: u128 = (PIXEL_BUDGET as u128) * (w * w * w) / (h * h * h);
    let down: u128 = (PIXEL_BUDGET as u128) * h / w;
    (integer_sqrt(across), integer_sqrt(down))
}

} // verus!
