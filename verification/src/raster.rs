//! Decoded frames and the frame quantizer: a frame is resized to the target
//! grid with a nearest-neighbour filter, then every pixel is quantized.

use crate::quantize::{flatten_color, quantized_color, step_of, QuantizedColor};
use vstd::prelude::*;

verus! {

/// A decoded frame: `width * height` pixels in row-major order, each pixel
/// four bytes, red, green, blue and alpha.
pub struct Raster {
    pub width: u32,
    pub height: u32,
    pub pixels: Vec<u8>,
}

/// The pixel with linear index `index` in a sequence of RGBA bytes.
pub open spec fn pixel_at(bytes: Seq<u8>, index: int) -> QuantizedColor {
    [bytes[4 * index], bytes[4 * index + 1], bytes[4 * index + 2], bytes[4 * index + 3]]
}

/// The pixels of a sequence of RGBA bytes, each quantized with `step`. Bytes
/// after the last whole pixel are left out.
pub open spec fn quantized_pixels(bytes: Seq<u8>, step: int) -> Seq<QuantizedColor> {
    Seq::new((bytes.len() / 4) as nat, |index: int| quantized_color(pixel_at(bytes, index), step))
}

/// Whether `pixel` is one of the pixels of the RGBA bytes `source`.
pub open spec fn is_pixel_of(pixel: QuantizedColor, source: Seq<u8>) -> bool {
    exists|origin: int|
        0 <= origin < source.len() / 4 && #[trigger] pixel_at(source, origin) == pixel
}

/// Whether every pixel of the RGBA bytes `copy` is one of the pixels of the
/// RGBA bytes `source`.
pub open spec fn drawn_from(copy: Seq<u8>, source: Seq<u8>) -> bool {
    forall|index: int|
        0 <= index < copy.len() / 4 ==> is_pixel_of(#[trigger] pixel_at(copy, index), source)
}

/// Whether `color` is the quantization, with `step`, of one of the pixels
/// of the RGBA bytes `source`.
pub open spec fn is_quantized_pixel_of(color: QuantizedColor, source: Seq<u8>, step: int) -> bool {
    exists|pixel: QuantizedColor|
        is_pixel_of(pixel, source) && #[trigger] quantized_color(pixel, step) == color
}

/// Whether every colour of `colors` is the quantization, with `step`, of one
/// of the pixels of the RGBA bytes `source`.
pub open spec fn quantized_from(colors: Seq<QuantizedColor>, source: Seq<u8>, step: int) -> bool {
    forall|index: int|
        0 <= index < colors.len() ==> is_quantized_pixel_of(#[trigger] colors[index], source, step)
}

/// The RGBA bytes of the image that the nearest-neighbour resize of the
/// `image` crate makes of the `width` by `height` image with the bytes
/// `pixels`, when asked for `new_width` by `new_height` pixels.
pub uninterp spec fn nearest_resized(
    width: u32,
    height: u32,
    pixels: Seq<u8>,
    new_width: u32,
    new_height: u32,
) -> Seq<u8>;

/// Whether a resize to `new_width` by `new_height` stays within the
/// machine's limits. The length of a buffer is counted width first, so four
/// times the old width and four times the new width are values of `usize`,
/// whatever the heights are. And the buffers can be allocated: the result,
/// of four bytes a pixel, and the intermediate image that has the old width
/// and the new height, of sixteen bytes a pixel.
pub open spec fn resize_fits(width: u32, height: u32, new_width: u32, new_height: u32) -> bool {
    &&& 4 * width <= usize::MAX
    &&& 4 * new_width <= usize::MAX
    &&& 4 * new_width * new_height <= isize::MAX
    &&& 16 * width * new_height <= isize::MAX
}

/// Decides `resize_fits`.
pub fn check_resize_fits(width: u32, height: u32, new_width: u32, new_height: u32) -> (fits: bool)
    ensures
        fits == resize_fits(width, height, new_width, new_height),
{
    let word: u128 = usize::MAX as u128;
    if 4 * (width as u128) > word || 4 * (new_width as u128) > word {
        return false;
    }
    let limit: u128 = isize::MAX as u128;
    assert((new_width as u128) * (new_height as u128) <= 0xffff_ffff * 0xffff_ffff
        && (width as u128) * (new_height as u128) <= 0xffff_ffff * 0xffff_ffff)
        by (nonlinear_arith);
    let result: u128 = 4 * ((new_width as u128) * (new_height as u128));
    let between: u128 = 16 * ((width as u128) * (new_height as u128));
    assert(result == 4 * new_width * new_height && between == 16 * width * new_height)
        by (nonlinear_arith)
        requires
            result == 4 * ((new_width as u128) * (new_height as u128)),
            between == 16 * ((width as u128) * (new_height as u128)),
    ;
    result <= limit && between <= limit
}

/// Resizes an RGBA image with `image::DynamicImage::resize_exact` and the
/// filter `FilterType::Nearest`. Believed of that call, not proved: within
/// the limits of `resize_fits` it returns, on a machine of either word size;
/// the result is the named `nearest_resized` of the arguments; it holds four
/// bytes for each of `new_width * new_height` pixels; an image that is asked
/// for its own size comes back unchanged; and every pixel of the result is a
/// copy of one pixel of the image, where the image has any (of an image
/// without pixels the result is blank).
#[verifier::external_body]
fn resize_exact_nearest(
    width: u32,
    height: u32,
    pixels: &Vec<u8>,
    new_width: u32,
    new_height: u32,
) -> (resized: Vec<u8>)
    requires
        pixels.len() == 4 * width * height,
        resize_fits(width, height, new_width, new_height),
    ensures
        resized@ == nearest_resized(width, height, pixels@, new_width, new_height),
        resized.len() == 4 * new_width * new_height,
        new_width == width && new_height == height ==> resized@ == pixels@,
        width > 0 && height > 0 ==> drawn_from(resized@, pixels@),
{
    let source = image::RgbaImage::from_raw(width, height, pixels.clone()).unwrap();
    let filter = image::imageops::FilterType::Nearest;
    let source = image::DynamicImage::ImageRgba8(source);
    source.resize_exact(new_width, new_height, filter).into_rgba8().into_raw()
}

impl Raster {
    /// Whether the frame holds four bytes for each of its pixels.
    pub open spec fn wf(&self) -> bool {
        self.pixels.len() == 4 * self.width * self.height
    }

    /// Decides `wf`.
    pub fn is_well_formed(&self) -> (ok: bool)
        ensures
            ok == self.wf(),
    {
        assert((self.width as u128) * (self.height as u128) <= 0xffff_ffff * 0xffff_ffff)
            by (nonlinear_arith);
        let wanted: u128 = 4 * ((self.width as u128) * (self.height as u128));
        assert(wanted == 4 * self.width * self.height) by (nonlinear_arith)
            requires
                wanted == 4 * ((self.width as u128) * (self.height as u128)),
        ;
        self.pixels.len() as u128 == wanted
    }

    /// The frame resized to `width` by `height` pixels with the
    /// nearest-neighbour filter.
    pub fn resized(&self, width: u32, height: u32) -> (out: Raster)
        requires
            self.wf(),
            resize_fits(self.width, self.height, width, height),
        ensures
            out.wf(),
            out.width == width,
            out.height == height,
            out.pixels@ == nearest_resized(self.width, self.height, self.pixels@, width, height),
            width == self.width && height == self.height ==> out.pixels@ == self.pixels@,
            self.width > 0 && self.height > 0 ==> drawn_from(out.pixels@, self.pixels@),
    {
        let pixels = resize_exact_nearest(self.width, self.height, &self.pixels, width, height);
        Raster { width, height, pixels }
    }
}

/// Quantizes every pixel of a frame with the step that belongs to `bits`.
/// The result holds the quantized colours in the frame's own order.
pub fn quantize_pixels(frame: &Raster, bits: u8) -> (colors: Vec<QuantizedColor>)
    ensures
        colors@ == quantized_pixels(frame.pixels@, step_of(bits) as int),
        frame.wf() ==> colors.len() == frame.width * frame.height,
{
    let count: usize = frame.pixels.len() / 4;
    let mut colors: Vec<QuantizedColor> = Vec::new();
    for index in 0..count
        invariant
            count == frame.pixels.len() / 4,
            colors.len() == index,
            forall|done: int|
                0 <= done < index ==> #[trigger] colors[done] == quantized_color(
                    pixel_at(frame.pixels@, done),
                    step_of(bits) as int,
                ),
    {
        let pixel: QuantizedColor = [
            frame.pixels[4 * index],
            frame.pixels[4 * index + 1],
            frame.pixels[4 * index + 2],
            frame.pixels[4 * index + 3],
        ];
        assert(pixel =~= pixel_at(frame.pixels@, index as int));
        colors.push(flatten_color(&pixel, bits));
    }
    assert(colors@ =~= quantized_pixels(frame.pixels@, step_of(bits) as int));
    assert(4 * frame.width * frame.height == 4 * (frame.width * frame.height))
        by (nonlinear_arith);
    colors
}

/// The frame quantizer: resizes a frame to `width` by `height` pixels with
/// the nearest-neighbour filter and quantizes every pixel of the result with
/// the step that belongs to `bits`.
pub fn quantize_frame(frame: &Raster, width: u32, height: u32, bits: u8) -> (colors: Vec<
    QuantizedColor,
>)
    requires
        frame.wf(),
        resize_fits(frame.width, frame.height, width, height),
    ensures
        colors@ == quantized_pixels(
            nearest_resized(frame.width, frame.height, frame.pixels@, width, height),
            step_of(bits) as int,
        ),
        colors.len() == width * height,
        frame.width > 0 && frame.height > 0 ==> quantized_from(
            colors@,
            frame.pixels@,
            step_of(bits) as int,
        ),
{
    let resized = frame.resized(width, height);
    let colors = quantize_pixels(&resized, bits);
    proof {
        if frame.width > 0 && frame.height > 0 {
            assert forall|index: int| 0 <= index < colors@.len() implies is_quantized_pixel_of(
                #[trigger] colors@[index],
                frame.pixels@,
                step_of(bits) as int,
            ) by {
                let copied = pixel_at(resized.pixels@, index);
                assert(is_pixel_of(copied, frame.pixels@));
                assert(quantized_color(copied, step_of(bits) as int) == colors@[index]);
            }
        }
    }
    colors
}

} // verus!
