//! The pipeline for whole videos: the target grid from the first frame, the
//! frame quantizer on every frame, the delta encoder over the results.

use crate::change_map::{
    in_grid, index_of, lemma_index_round_trip, lemma_raster_is_grid, ChangeMap,
};
use crate::delta::{
    changes, delta_encode, encoded, frame_before, frame_views, lemma_keyframe_is_full,
    lemma_reconstruction, map_views, reconstructed, same_size,
};
use crate::dimensions::{target_dimensions, target_height, target_width};
use crate::quantize::{step_of, QuantizedColor, COLOR_PRECISION};
use crate::raster::{
    check_resize_fits, is_quantized_pixel_of, nearest_resized, quantize_frame, quantized_from,
    quantized_pixels, resize_fits, Raster,
};
use vstd::prelude::*;

verus! {

/// The width of the target grid of a video, from its first frame.
pub open spec fn grid_width(frames: Seq<Raster>) -> nat {
    target_width(frames[0].width as nat, frames[0].height as nat)
}

/// The height of the target grid of a video, from its first frame.
pub open spec fn grid_height(frames: Seq<Raster>) -> nat {
    target_height(frames[0].width as nat, frames[0].height as nat)
}

/// Whether a video can be processed: it has a first frame with a positive
/// width and height, the sides of its target grid are values of `u32`, and
/// every frame is well formed and can be resized to the grid.
pub open spec fn processable(frames: Seq<Raster>) -> bool {
    &&& frames.len() > 0
    &&& frames[0].width > 0
    &&& frames[0].height > 0
    &&& grid_width(frames) <= u32::MAX
    &&& grid_height(frames) <= u32::MAX
    &&& forall|index: int|
        0 <= index < frames.len() ==> (#[trigger] frames[index]).wf() && resize_fits(
            frames[index].width,
            frames[index].height,
            grid_width(frames) as u32,
            grid_height(frames) as u32,
        )
}

/// The quantized frames of a video: every frame resized to the video's
/// target grid and quantized with the step of the default precision.
pub open spec fn quantized_frames(frames: Seq<Raster>) -> Seq<Seq<QuantizedColor>> {
    Seq::new(
        frames.len(),
        |index: int|
            quantized_pixels(
                nearest_resized(
                    frames[index].width,
                    frames[index].height,
                    frames[index].pixels@,
                    grid_width(frames) as u32,
                    grid_height(frames) as u32,
                ),
                step_of(COLOR_PRECISION) as int,
            ),
    )
}

/// The encoded video: the delta encoding of the quantized frames, with
/// positions taken in a raster as wide as the target grid.
pub open spec fn processed(frames: Seq<Raster>) -> Seq<Map<(int, int), QuantizedColor>> {
    encoded(quantized_frames(frames), grid_width(frames) as int)
}

/// Whether `video` is the encoding of the decoded frames `frames`:
/// it has one map per frame, in frame order; map `i` holds what the delta
/// encoder keeps of quantized frame `i`; every quantized frame has a pixel
/// for every position of the target grid; every entry of every map lies in
/// the grid; the first map has an entry for every position of the grid,
/// and so as many entries as the grid has positions; and every colour in a
/// map is the quantization of a pixel of the frame that the map belongs to,
/// where that frame has pixels.
pub open spec fn encodes(video: Seq<ChangeMap>, frames: Seq<Raster>) -> bool {
    &&& video.len() == frames.len()
    &&& map_views(video) == processed(frames)
    &&& forall|index: int|
        0 <= index < frames.len() ==> (#[trigger] quantized_frames(frames)[index]).len()
            == grid_width(frames) * grid_height(frames)
    &&& forall|index: int, position: (int, int)|
        0 <= index < frames.len() && #[trigger] video[index]@.contains_key(position) ==> in_grid(
            position,
            grid_width(frames) as int,
            grid_height(frames) as int,
        )
    &&& forall|position: (int, int)|
        in_grid(position, grid_width(frames) as int, grid_height(frames) as int)
            ==> #[trigger] video[0]@.contains_key(position)
    &&& video[0]@.dom().finite()
    &&& video[0]@.dom().len() == grid_width(frames) * grid_height(frames)
    &&& forall|index: int, position: (int, int)|
        0 <= index < frames.len() && frames[index].width > 0 && frames[index].height > 0
            && #[trigger] video[index]@.contains_key(position) ==> is_quantized_pixel_of(
            video[index]@[position],
            frames[index].pixels@,
            step_of(COLOR_PRECISION) as int,
        )
}

/// Decides `processable`.
pub fn frames_processable(frames: &Vec<Raster>) -> (ok: bool)
    ensures
        ok == processable(frames@),
{
    if frames.len() == 0 || frames[0].width == 0 || frames[0].height == 0 {
        return false;
    }
    let (across, down) = target_dimensions(frames[0].width, frames[0].height);
    if across > u32::MAX as u64 || down > u32::MAX as u64 {
        return false;
    }
    for index in 0..frames.len()
        invariant
            frames.len() > 0,
            across == grid_width(frames@),
            down == grid_height(frames@),
            across <= u32::MAX,
            down <= u32::MAX,
            forall|done: int|
                0 <= done < index ==> (#[trigger] frames[done]).wf() && resize_fits(
                    frames[done].width,
                    frames[done].height,
                    across as u32,
                    down as u32,
                ),
    {
        let frame = &frames[index];
        if !frame.is_well_formed() || !check_resize_fits(
            frame.width,
            frame.height,
            across as u32,
            down as u32,
        ) {
            return false;
        }
    }
    true
}

/// Encodes one video from its decoded frames. The first frame fixes the
/// target grid; every frame is resized to it and quantized with the default
/// precision; frame 0 is kept whole and every later frame is reduced to the
/// pixels that differ from the quantized frame before it.
pub fn process_frames(frames: &Vec<Raster>) -> (video: Vec<ChangeMap>)
    requires
        processable(frames@),
    ensures
        encodes(video@, frames@),
{
    let (across, down) = target_dimensions(frames[0].width, frames[0].height);
    let width: u32 = across as u32;
    let height: u32 = down as u32;
    let mut quantized: Vec<Vec<QuantizedColor>> = Vec::new();
    for index in 0..frames.len()
        invariant
            processable(frames@),
            width == grid_width(frames@),
            height == grid_height(frames@),
            quantized.len() == index,
            forall|done: int|
                0 <= done < index ==> (#[trigger] quantized[done])@ == quantized_frames(
                    frames@,
                )[done] && quantized[done].len() == width * height && (frames[done].width > 0
                    && frames[done].height > 0 ==> quantized_from(
                    quantized[done]@,
                    frames[done].pixels@,
                    step_of(COLOR_PRECISION) as int,
                )),
    {
        let colors = quantize_frame(&frames[index], width, height, COLOR_PRECISION);
        quantized.push(colors);
    }
    assert(frame_views(quantized@) =~= quantized_frames(frames@));
    assert(same_size(frame_views(quantized@)));
    assert(quantized[0].len() > 0 ==> width > 0) by (nonlinear_arith)
        requires
            quantized[0].len() == width * height,
    ;
    let video = delta_encode(&quantized, width as usize);
    proof {
        assert(video.len() == map_views(video@).len());
        assert(video[0]@ == map_views(video@)[0]);
        let keyframe = changes(quantized[0]@, None, width as int);
        assert(video[0]@ == keyframe);
        assert forall|index: int, position: (int, int)|
            0 <= index < frames.len() && frames[index].width > 0 && frames[index].height > 0
                && #[trigger] video[index]@.contains_key(position) implies is_quantized_pixel_of(
            video[index]@[position],
            frames[index].pixels@,
            step_of(COLOR_PRECISION) as int,
        ) by {
            assert(video[index]@ == map_views(video@)[index]);
            assert(video[index]@ == changes(
                quantized[index]@,
                frame_before(frame_views(quantized@), index),
                width as int,
            ));
            lemma_index_round_trip(position, width as int);
            let pixel = index_of(position, width as int);
            assert(video[index]@[position] == quantized[index]@[pixel]);
        }
        assert forall|index: int, position: (int, int)|
            0 <= index < frames.len() implies (#[trigger] video[index]@.contains_key(position)
                ==> in_grid(position, width as int, height as int)) && (index == 0 && in_grid(
                position,
                width as int,
                height as int,
            ) ==> video[index]@.contains_key(position)) by {
            assert(video[index]@ == map_views(video@)[index]);
            lemma_raster_is_grid(position, width as int, height as int);
        }
        lemma_keyframe_is_full(quantized[0]@, width as int);
    }
    video
}

/// A map after the first has an entry for a position of the grid exactly
/// where the quantized frame differs there from the quantized frame before
/// it, and the entry holds the colour of the later frame.
pub proof fn lemma_video_change_iff_differs(
    video: Seq<ChangeMap>,
    frames: Seq<Raster>,
    index: int,
    position: (int, int),
)
    requires
        encodes(video, frames),
        0 < index < frames.len(),
        in_grid(position, grid_width(frames) as int, grid_height(frames) as int),
    ensures
        video[index]@.contains_key(position) <==> quantized_frames(frames)[index][index_of(
            position,
            grid_width(frames) as int,
        )] != quantized_frames(frames)[index - 1][index_of(position, grid_width(frames) as int)],
        video[index]@.contains_key(position) ==> video[index]@[position] == quantized_frames(
            frames,
        )[index][index_of(position, grid_width(frames) as int)],
{
    let quantized = quantized_frames(frames);
    assert(video[index]@ == map_views(video)[index]);
    assert(quantized[index].len() == grid_width(frames) * grid_height(frames));
    lemma_raster_is_grid(position, grid_width(frames) as int, grid_height(frames) as int);
}

/// Painting the maps `0..=index` of an encoded video in order over a canvas
/// of the grid's size gives back quantized frame `index`, whatever the
/// canvas held.
pub proof fn lemma_video_reconstruction(
    video: Seq<ChangeMap>,
    frames: Seq<Raster>,
    canvas: Seq<QuantizedColor>,
    index: int,
)
    requires
        encodes(video, frames),
        0 <= index < frames.len(),
        canvas.len() == grid_width(frames) * grid_height(frames),
    ensures
        reconstructed(map_views(video), grid_width(frames) as int, canvas, index)
            == quantized_frames(frames)[index],
{
    let quantized = quantized_frames(frames);
    let across = grid_width(frames);
    let down = grid_height(frames);
    assert(quantized[0].len() == across * down);
    assert(quantized[0].len() > 0 ==> 0 < across) by (nonlinear_arith)
        requires
            quantized[0].len() == across * down,
    ;
    assert(same_size(quantized)) by {
        assert forall|other: int|
            0 <= other < quantized.len() implies (#[trigger] quantized[other]).len()
            == quantized[0].len() by {
            assert(quantized[other].len() == across * down);
        }
    }
    lemma_reconstruction(quantized, across as int, canvas, index);
}

/// Encodes a list of videos, each from its decoded frames, in the order of
/// the list.
pub fn manage_process_frames(videos: &Vec<Vec<Raster>>) -> (batch: Vec<Vec<ChangeMap>>)
    requires
        forall|index: int| 0 <= index < videos.len() ==> processable((#[trigger] videos[index])@),
    ensures
        batch.len() == videos.len(),
        forall|index: int|
            0 <= index < videos.len() ==> encodes((#[trigger] batch[index])@, videos[index]@),
{
    let mut batch: Vec<Vec<ChangeMap>> = Vec::new();
    for current in 0..videos.len()
        invariant
            forall|index: int|
                0 <= index < videos.len() ==> processable((#[trigger] videos[index])@),
            batch.len() == current,
            forall|index: int|
                0 <= index < current ==> encodes((#[trigger] batch[index])@, videos[index]@),
    {
        batch.push(process_frames(&videos[current]));
    }
    batch
}

/// The share of `current` in `total`, in whole percent.
pub fn progress_percent(current: usize, total: usize) -> (percent: usize)
    requires
        total > 0,
        100 * current <= usize::MAX,
    ensures
        percent == 100 * current / total as int,
{
    100 * current / total
}

} // verus!
