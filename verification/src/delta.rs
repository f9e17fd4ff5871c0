//! The temporal delta encoder: the first frame of a video is kept whole, and
//! of every later frame only the pixels that differ from the frame before it.

use crate::change_map::{
    in_raster, index_of, index_to_position, lemma_index_round_trip, lemma_position_round_trip,
    position_of, ChangeMap,
};
use crate::quantize::QuantizedColor;
use vstd::prelude::*;

verus! {

/// What is kept of the first `cells` pixels of `current`, a row-major raster
/// that is `width` pixels wide: with no previous frame every position, with a
/// previous frame the positions whose colour differs from the one that the
/// previous frame has at the same linear index. A kept position maps to its
/// colour in `current`.
pub open spec fn changes_within(
    current: Seq<QuantizedColor>,
    previous: Option<Seq<QuantizedColor>>,
    width: int,
    cells: int,
) -> Map<(int, int), QuantizedColor> {
    Map::new(
        |position: (int, int)|
            in_raster(position, width, cells) && (previous matches Some(before)
                ==> current[index_of(position, width)] != before[index_of(position, width)]),
        |position: (int, int)| current[index_of(position, width)],
    )
}

/// What is kept of the frame `current` when it follows `previous`.
pub open spec fn changes(
    current: Seq<QuantizedColor>,
    previous: Option<Seq<QuantizedColor>>,
    width: int,
) -> Map<(int, int), QuantizedColor> {
    changes_within(current, previous, width, current.len() as int)
}

/// The frame that comes before frame `index` of a video, if there is one.
pub open spec fn frame_before(frames: Seq<Seq<QuantizedColor>>, index: int) -> Option<
    Seq<QuantizedColor>,
> {
    if index > 0 {
        Some(frames[index - 1])
    } else {
        None
    }
}

/// The encoded video: one map per frame, in frame order. The first frame is
/// a keyframe, every later frame is compared with the frame before it.
pub open spec fn encoded(frames: Seq<Seq<QuantizedColor>>, width: int) -> Seq<
    Map<(int, int), QuantizedColor>,
> {
    Seq::new(frames.len(), |index: int| changes(frames[index], frame_before(frames, index), width))
}

/// The pixel sequences of a list of frames.
pub open spec fn frame_views(frames: Seq<Vec<QuantizedColor>>) -> Seq<Seq<QuantizedColor>> {
    Seq::new(frames.len(), |index: int| frames[index]@)
}

/// The maps of a list of change maps.
pub open spec fn map_views(video: Seq<ChangeMap>) -> Seq<Map<(int, int), QuantizedColor>> {
    Seq::new(video.len(), |index: int| video[index]@)
}

/// Whether all frames hold equally many pixels.
pub open spec fn same_size(frames: Seq<Seq<QuantizedColor>>) -> bool {
    forall|index: int|
        0 <= index < frames.len() ==> (#[trigger] frames[index]).len() == frames[0].len()
}

/// `canvas` with the entries of `map` painted over it: a pixel whose position
/// has an entry takes the entry's colour, every other pixel stays.
pub open spec fn overlay(
    canvas: Seq<QuantizedColor>,
    map: Map<(int, int), QuantizedColor>,
    width: int,
) -> Seq<QuantizedColor> {
    Seq::new(
        canvas.len(),
        |index: int|
            if map.contains_key(position_of(index, width)) {
                map[position_of(index, width)]
            } else {
                canvas[index]
            },
    )
}

/// `canvas` with the maps `0..=last` of `video` painted over it in order, a
/// later map overwriting an earlier one where both have an entry.
pub open spec fn reconstructed(
    video: Seq<Map<(int, int), QuantizedColor>>,
    width: int,
    canvas: Seq<QuantizedColor>,
    last: int,
) -> Seq<QuantizedColor>
    decreases last + 1,
{
    if last < 0 {
        canvas
    } else {
        overlay(reconstructed(video, width, canvas, last - 1), video[last], width)
    }
}

/// A keyframe holds every pixel of its frame: it has as many entries as the
/// frame has pixels, and the position of every pixel maps to that pixel.
pub proof fn lemma_keyframe_is_full(frame: Seq<QuantizedColor>, width: int)
    requires
        frame.len() > 0 ==> 0 < width,
    ensures
        changes(frame, None, width).dom().finite(),
        changes(frame, None, width).dom().len() == frame.len(),
        forall|index: int|
            0 <= index < frame.len() ==> #[trigger] changes(frame, None, width).contains_pair(
                position_of(index, width),
                frame[index],
            ),
{
    let keyframe = changes(frame, None, width);
    let indices = vstd::set_lib::set_int_range(0, frame.len() as int);
    let locate = |index: int| position_of(index, width);
    vstd::set_lib::lemma_int_range(0, frame.len() as int);
    if frame.len() == 0 {
        assert forall|position: (int, int)| !keyframe.dom().contains(position) by {
            if 0 < width && in_raster(position, width, 0) {
                lemma_index_round_trip(position, width);
            }
        }
        assert(keyframe.dom() =~= Set::<(int, int)>::empty());
    } else {
        assert forall|index: int|
            0 <= index < frame.len() implies #[trigger] keyframe.contains_pair(
            position_of(index, width),
            frame[index],
        ) by {
            lemma_position_round_trip(index, width);
        }
        assert forall|position: (int, int)| keyframe.dom().contains(position) implies indices.map(
            locate,
        ).contains(position) by {
            lemma_index_round_trip(position, width);
            let index = index_of(position, width);
            assert(indices.contains(index) && locate(index) == position);
        }
        assert forall|position: (int, int)|
            indices.map(locate).contains(position) implies keyframe.dom().contains(position) by {
            let index = choose|index: int| indices.contains(index) && locate(index) == position;
            lemma_position_round_trip(index, width);
        }
        assert(indices.map(locate) =~= keyframe.dom());
        assert(vstd::relations::injective_on(locate, indices)) by {
            assert forall|a: int, b: int|
                indices.contains(a) && indices.contains(b) && #[trigger] locate(a)
                    == #[trigger] locate(b) implies a == b by {
                lemma_position_round_trip(a, width);
                lemma_position_round_trip(b, width);
            }
        }
        vstd::set_lib::lemma_map_size(indices, keyframe.dom(), locate);
    }
}

/// A frame that follows another keeps a position exactly where the two
/// frames differ, and keeps for it the colour of the later frame.
pub proof fn lemma_change_iff_differs(
    current: Seq<QuantizedColor>,
    previous: Seq<QuantizedColor>,
    width: int,
    position: (int, int),
)
    requires
        in_raster(position, width, current.len() as int),
    ensures
        changes(current, Some(previous), width).contains_key(position) <==> current[index_of(
            position,
            width,
        )] != previous[index_of(position, width)],
        changes(current, Some(previous), width).contains_key(position) ==> changes(
            current,
            Some(previous),
            width,
        )[position] == current[index_of(position, width)],
{
}

/// Every entry of an encoded frame lies inside the frame's raster.
pub proof fn lemma_changes_in_raster(
    current: Seq<QuantizedColor>,
    previous: Option<Seq<QuantizedColor>>,
    width: int,
    position: (int, int),
)
    requires
        changes(current, previous, width).contains_key(position),
    ensures
        in_raster(position, width, current.len() as int),
{
}

/// Painting the encoded frames `0..=index` in order over a canvas of the
/// frames' size gives back frame `index`, whatever the canvas held.
pub proof fn lemma_reconstruction(
    frames: Seq<Seq<QuantizedColor>>,
    width: int,
    canvas: Seq<QuantizedColor>,
    index: int,
)
    requires
        frames[0].len() > 0 ==> 0 < width,
        same_size(frames),
        0 <= index < frames.len(),
        canvas.len() == frames[0].len(),
    ensures
        reconstructed(encoded(frames, width), width, canvas, index) == frames[index],
    decreases index,
{
    let video = encoded(frames, width);
    let below = reconstructed(video, width, canvas, index - 1);
    let painted = overlay(below, video[index], width);
    if index > 0 {
        lemma_reconstruction(frames, width, canvas, index - 1);
    }
    assert(below.len() == frames[index].len());
    assert forall|pixel: int| 0 <= pixel < painted.len() implies painted[pixel]
        == frames[index][pixel] by {
        lemma_position_round_trip(pixel, width);
    }
    assert(painted =~= frames[index]);
}

/// Whether two colours agree in all four channels.
pub fn same_color(a: &QuantizedColor, b: &QuantizedColor) -> (same: bool)
    ensures
        same == (*a == *b),
{
    let same = a[0] == b[0] && a[1] == b[1] && a[2] == b[2] && a[3] == b[3];
    assert(same == (*a =~= *b));
    same
}

/// The pixel sequence behind an optional frame.
pub open spec fn optional_view(frame: Option<&Vec<QuantizedColor>>) -> Option<Seq<QuantizedColor>> {
    match frame {
        Some(pixels) => Some(pixels@),
        None => None,
    }
}

/// Encodes one frame: a keyframe where there is no previous frame, else the
/// pixels that differ from the previous frame.
pub fn frame_changes(
    current: &Vec<QuantizedColor>,
    previous: Option<&Vec<QuantizedColor>>,
    width: usize,
) -> (map: ChangeMap)
    requires
        current.len() > 0 ==> width > 0,
        previous matches Some(before) ==> before.len() == current.len(),
    ensures
        map@ == changes(current@, optional_view(previous), width as int),
{
    let mut map = ChangeMap::new();
    assert(map@ =~= changes_within(current@, optional_view(previous), width as int, 0));
    for index in 0..current.len()
        invariant
            current.len() > 0 ==> width > 0,
            previous matches Some(before) ==> before.len() == current.len(),
            map@ == changes_within(current@, optional_view(previous), width as int, index as int),
    {
        let unchanged = match previous {
            Some(before) => same_color(&current[index], &before[index]),
            None => false,
        };
        let ghost before_step = map@;
        if !unchanged {
            let (x, y) = index_to_position(index, width);
            map.insert(x, y, current[index]);
        }
        proof {
            let here = position_of(index as int, width as int);
            let after_step = changes_within(
                current@,
                optional_view(previous),
                width as int,
                index + 1,
            );
            lemma_position_round_trip(index as int, width as int);
            assert forall|position: (int, int)|
                in_raster(position, width as int, index + 1) && !in_raster(
                    position,
                    width as int,
                    index as int,
                ) implies position == here by {
                lemma_index_round_trip(position, width as int);
            }
            assert(map@ =~= after_step);
        }
    }
    map
}

/// Encodes a video: frame 0 as a keyframe, every later frame against the
/// frame before it. The result has one map per frame, in frame order.
pub fn delta_encode(frames: &Vec<Vec<QuantizedColor>>, width: usize) -> (video: Vec<ChangeMap>)
    requires
        same_size(frame_views(frames@)),
        frames.len() > 0 && frames[0].len() > 0 ==> width > 0,
    ensures
        map_views(video@) == encoded(frame_views(frames@), width as int),
{
    let mut video: Vec<ChangeMap> = Vec::new();
    for index in 0..frames.len()
        invariant
            same_size(frame_views(frames@)),
            frames.len() > 0 && frames[0].len() > 0 ==> width > 0,
            video.len() == index,
            forall|done: int|
                0 <= done < index ==> (#[trigger] video[done])@ == changes(
                    frames[done]@,
                    frame_before(frame_views(frames@), done),
                    width as int,
                ),
    {
        assert(frame_views(frames@)[index as int].len() == frame_views(frames@)[0].len());
        let map = if index > 0 {
            assert(frame_views(frames@)[index - 1].len() == frame_views(frames@)[0].len());
            frame_changes(&frames[index], Some(&frames[index - 1]), width)
        } else {
            frame_changes(&frames[index], None, width)
        };
        video.push(map);
    }
    assert(map_views(video@) =~= encoded(frame_views(frames@), width as int));
    video
}

} // verus!
