//! Colour quantization: the red, green and blue channels are rounded to the
//! nearest multiple of a step, the alpha channel is kept.

use vstd::prelude::*;

verus! {

/// A colour of four 8-bit channels: red, green, blue, alpha.
pub type QuantizedColor = [u8; 4];

/// The precision that the frame pipeline quantizes with.
pub const COLOR_PRECISION: u8 = 4;

/// The step that belongs to a precision: the bitwise exclusive-or of the
/// precision with 2. A precision of 4 gives a step of 6.
pub open spec fn step_of(bits: u8) -> u8 {
    bits ^ 2u8
}

/// The channel value `v` rounded to the nearest multiple of `step`, a value
/// halfway between two multiples going to the larger one, and the result
/// capped at 255. With a step of zero every value goes to 0.
pub open spec fn quantized(v: int, step: int) -> int {
    if step <= 0 {
        0
    } else {
        let nearest = ((2 * v + step) / (2 * step)) * step;
        if nearest > 255 {
            255
        } else {
            nearest
        }
    }
}

/// A colour with its red, green and blue channels quantized and its alpha
/// channel unchanged.
pub open spec fn quantized_color(color: QuantizedColor, step: int) -> QuantizedColor {
    [
        quantized(color[0] as int, step) as u8,
        quantized(color[1] as int, step) as u8,
        quantized(color[2] as int, step) as u8,
        color[3],
    ]
}

/// The multiple of `step` that `quantized` picks before it caps the result:
/// `m * step` with `m` the quotient of `2 * v + step` by `2 * step`.
proof fn lemma_nearest_multiple(v: int, step: int) -> (m: int)
    requires
        0 <= v,
        0 < step,
    ensures
        m == (2 * v + step) / (2 * step),
        0 <= m,
        2 * (m * step) <= 2 * v + step,
        2 * v < 2 * (m * step) + step,
{
    let m = (2 * v + step) / (2 * step);
    vstd::arithmetic::div_mod::lemma_fundamental_div_mod(2 * v + step, 2 * step);
    vstd::arithmetic::div_mod::lemma_mod_bound(2 * v + step, 2 * step);
    vstd::arithmetic::div_mod::lemma_div_pos_is_pos(2 * v + step, 2 * step);
    assert((2 * step) * m == 2 * (m * step)) by (nonlinear_arith);
    m
}

/// A multiple of the step is its own nearest multiple.
proof fn lemma_multiple_is_fixed(m: int, step: int)
    requires
        0 <= m,
        0 < step,
    ensures
        (2 * (m * step) + step) / (2 * step) == m,
{
    assert(2 * (m * step) + step == m * (2 * step) + step) by (nonlinear_arith);
    vstd::arithmetic::div_mod::lemma_fundamental_div_mod_converse(
        2 * (m * step) + step,
        2 * step,
        m,
        step,
    );
}

/// A quantized channel value is again a channel value.
pub proof fn lemma_quantized_in_range(v: int, step: int)
    requires
        0 <= v <= 255,
    ensures
        0 <= quantized(v, step) <= 255,
{
    if step > 0 {
        let m = lemma_nearest_multiple(v, step);
        assert(0 <= m * step) by (nonlinear_arith)
            requires
                0 <= m,
                0 < step,
        ;
    }
}

/// The quantized value lies at most half a step from the value, no more
/// than half a step above it and less than half a step below it, and it is a
/// multiple of the step unless it is the cap of 255.
pub proof fn lemma_quantized_is_nearest(v: int, step: int)
    requires
        0 <= v <= 255,
        0 < step,
    ensures
        2 * (quantized(v, step) - v) <= step,
        2 * (v - quantized(v, step)) < step,
        quantized(v, step) % step == 0 || quantized(v, step) == 255,
{
    let m = lemma_nearest_multiple(v, step);
    vstd::arithmetic::div_mod::lemma_mod_multiples_basic(m, step);
}

/// Quantizing a quantized value changes nothing.
pub proof fn lemma_quantized_idempotent(v: int, step: int)
    requires
        0 <= v <= 255,
    ensures
        quantized(quantized(v, step), step) == quantized(v, step),
{
    if step > 0 {
        let m = lemma_nearest_multiple(v, step);
        if m * step > 255 {
            // The value was capped, so 255 itself rounds to a multiple above 255.
            let top = lemma_nearest_multiple(255, step);
            if top < m {
                assert((top + 1) * step <= m * step) by (nonlinear_arith)
                    requires
                        top + 1 <= m,
                        0 < step,
                ;
                assert((top + 1) * step == top * step + step) by (nonlinear_arith);
            }
            assert(m * step <= top * step) by (nonlinear_arith)
                requires
                    m <= top,
                    0 < step,
            ;
        } else {
            lemma_multiple_is_fixed(m, step);
        }
    }
}

/// Quantization never inverts an order: a larger value is never quantized to
/// a smaller one.
pub proof fn lemma_quantized_monotonic(a: int, b: int, step: int)
    requires
        0 <= a <= b,
    ensures
        quantized(a, step) <= quantized(b, step),
{
    if step > 0 {
        let ma = lemma_nearest_multiple(a, step);
        let mb = lemma_nearest_multiple(b, step);
        if mb < ma {
            assert((mb + 1) * step <= ma * step) by (nonlinear_arith)
                requires
                    mb + 1 <= ma,
                    0 < step,
            ;
            assert((mb + 1) * step == mb * step + step) by (nonlinear_arith);
        }
        assert(ma * step <= mb * step) by (nonlinear_arith)
            requires
                ma <= mb,
                0 < step,
        ;
    }
}

/// The default precision gives a step of 6.
pub proof fn lemma_default_step()
    ensures
        step_of(COLOR_PRECISION) == 6,
{
    assert(4u8 ^ 2u8 == 6u8) by (bit_vector);
}

/// Quantizes one channel value with the step that belongs to `bits`.
pub fn flatten_int(number: u8, bits: u8) -> (flat: u8)
    ensures
        flat == quantized(number as int, step_of(bits) as int),
{
    let step: u8 = bits ^ 2;
    if step == 0 {
        return 0;
    }
    let doubled: u16 = 2 * (number as u16) + step as u16;
    let multiple: u16 = doubled / (2 * (step as u16));
    proof {
        let m = lemma_nearest_multiple(number as int, step as int);
        assert(0 <= m * step) by (nonlinear_arith)
            requires
                0 <= m,
                0 < step,
        ;
    }
    let nearest: u16 = multiple * (step as u16);
    if nearest > 255 {
        255
    } else {
        nearest as u8
    }
}

/// Quantizes the red, green and blue channels of a colour with the step that
/// belongs to `bits`; the alpha channel passes through.
pub fn flatten_color(color: &QuantizedColor, bits: u8) -> (flat: QuantizedColor)
    ensures
        flat == quantized_color(*color, step_of(bits) as int),
{
    let mut output: QuantizedColor = [color[3];4];
    output[0] = flatten_int(color[0], bits);
    output[1] = flatten_int(color[1], bits);
    output[2] = flatten_int(color[2], bits);
    assert(output =~= quantized_color(*color, step_of(bits) as int));
    output
}

} // verus!
