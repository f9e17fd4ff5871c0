use frame_delta::change_map::{index_to_position, ChangeMap};
use frame_delta::delta::{delta_encode, frame_changes, same_color};
use frame_delta::quantize::QuantizedColor;

const RED: QuantizedColor = [252, 0, 0, 255];
const GREEN: QuantizedColor = [0, 252, 0, 255];
const BLUE: QuantizedColor = [0, 0, 252, 255];
const CLEAR: QuantizedColor = [0, 0, 0, 0];

fn paint(canvas: &mut Vec<QuantizedColor>, map: &ChangeMap, width: usize) {
    for index in 0..canvas.len() {
        let (x, y) = index_to_position(index, width);
        if let Some(color) = map.get(x, y) {
            canvas[index] = color;
        }
    }
}

#[test]
fn index_to_position_is_row_major() {
    assert_eq!(index_to_position(0, 2), (0, 0));
    assert_eq!(index_to_position(1, 2), (1, 0));
    assert_eq!(index_to_position(2, 2), (0, 1));
    assert_eq!(index_to_position(3, 2), (1, 1));
    assert_eq!(index_to_position(17, 5), (2, 3));
    assert_eq!(index_to_position(9, 1), (0, 9));
}

#[test]
fn change_map_starts_empty() {
    let map = ChangeMap::new();
    assert_eq!(map.len(), 0);
    assert!(map.is_empty());
    assert_eq!(map.get(0, 0), None);
    assert!(!map.contains(0, 0));
}

#[test]
fn change_map_keeps_one_entry_per_position() {
    let mut map = ChangeMap::new();
    map.insert(1, 2, RED);
    map.insert(2, 1, GREEN);
    map.insert(1, 2, BLUE);
    assert_eq!(map.len(), 2);
    assert!(!map.is_empty());
    assert_eq!(map.get(1, 2), Some(BLUE));
    assert_eq!(map.get(2, 1), Some(GREEN));
    assert_eq!(map.get(2, 2), None);
    assert!(map.contains(2, 1));
    assert!(!map.contains(0, 0));
}

#[test]
fn change_map_tells_large_coordinates_apart() {
    let mut map = ChangeMap::new();
    map.insert(usize::MAX, 0, RED);
    map.insert(0, usize::MAX, GREEN);
    map.insert(usize::MAX, usize::MAX, BLUE);
    assert_eq!(map.len(), 3);
    assert_eq!(map.get(usize::MAX, 0), Some(RED));
    assert_eq!(map.get(0, usize::MAX), Some(GREEN));
    assert_eq!(map.get(usize::MAX, usize::MAX), Some(BLUE));
    assert_eq!(map.get(0, 0), None);
}

#[test]
fn same_color_compares_all_channels() {
    assert!(same_color(&[1, 2, 3, 4], &[1, 2, 3, 4]));
    assert!(!same_color(&[0, 2, 3, 4], &[1, 2, 3, 4]));
    assert!(!same_color(&[1, 0, 3, 4], &[1, 2, 3, 4]));
    assert!(!same_color(&[1, 2, 0, 4], &[1, 2, 3, 4]));
    assert!(!same_color(&[1, 2, 3, 0], &[1, 2, 3, 4]));
}

#[test]
fn keyframe_holds_every_pixel() {
    let frame = vec![RED, GREEN, BLUE, CLEAR, RED, GREEN];
    let map = frame_changes(&frame, None, 3);
    assert_eq!(map.len(), 6);
    assert_eq!(map.get(0, 0), Some(RED));
    assert_eq!(map.get(1, 0), Some(GREEN));
    assert_eq!(map.get(2, 0), Some(BLUE));
    assert_eq!(map.get(0, 1), Some(CLEAR));
    assert_eq!(map.get(1, 1), Some(RED));
    assert_eq!(map.get(2, 1), Some(GREEN));
    assert_eq!(map.get(3, 0), None);
    assert_eq!(map.get(0, 2), None);
}

#[test]
fn later_frame_holds_what_differs() {
    let before = vec![RED, GREEN, BLUE, CLEAR];
    let after = vec![RED, BLUE, BLUE, [0, 0, 0, 1]];
    let map = frame_changes(&after, Some(&before), 2);
    assert_eq!(map.len(), 2);
    assert_eq!(map.get(0, 0), None);
    assert_eq!(map.get(1, 0), Some(BLUE));
    assert_eq!(map.get(0, 1), None);
    assert_eq!(map.get(1, 1), Some([0, 0, 0, 1]));
}

#[test]
fn empty_frame_gives_empty_map() {
    let frame: Vec<QuantizedColor> = Vec::new();
    assert!(frame_changes(&frame, None, 0).is_empty());
    assert!(frame_changes(&frame, Some(&frame), 0).is_empty());
}

#[test]
fn no_frames_give_no_maps() {
    let frames: Vec<Vec<QuantizedColor>> = Vec::new();
    assert_eq!(delta_encode(&frames, 2).len(), 0);
}

#[test]
fn scenario_three_identical_frames() {
    let frame = vec![RED, GREEN, BLUE, CLEAR];
    let frames = vec![frame.clone(), frame.clone(), frame];
    let video = delta_encode(&frames, 2);
    assert_eq!(video.len(), 3);
    assert_eq!(video[0].len(), 4);
    assert!(video[1].is_empty());
    assert!(video[2].is_empty());
    assert_eq!(video[1].len(), 0);
    assert_eq!(video[2].len(), 0);
}

#[test]
fn scenario_one_pixel_differs() {
    let first = vec![RED, GREEN, BLUE, CLEAR];
    let second = vec![RED, GREEN, BLUE, RED];
    let video = delta_encode(&vec![first, second], 2);
    assert_eq!(video.len(), 2);
    assert_eq!(video[0].len(), 4);
    assert_eq!(video[1].len(), 1);
    assert_eq!(video[1].get(1, 1), Some(RED));
    assert_eq!(video[1].get(0, 0), None);
    assert_eq!(video[1].get(1, 0), None);
    assert_eq!(video[1].get(0, 1), None);
}

#[test]
fn position_is_kept_exactly_where_frames_differ() {
    let frames = vec![
        vec![RED, GREEN, BLUE, CLEAR, RED, GREEN],
        vec![RED, RED, BLUE, BLUE, RED, CLEAR],
        vec![GREEN, RED, BLUE, BLUE, RED, CLEAR],
    ];
    let width = 3;
    let video = delta_encode(&frames, width);
    for frame in 1..frames.len() {
        for index in 0..frames[frame].len() {
            let (x, y) = index_to_position(index, width);
            let differs = frames[frame][index] != frames[frame - 1][index];
            assert_eq!(video[frame].contains(x, y), differs);
            if differs {
                assert_eq!(video[frame].get(x, y), Some(frames[frame][index]));
            }
        }
    }
    assert_eq!(video[1].len(), 3);
    assert_eq!(video[2].len(), 1);
}

#[test]
fn painting_the_maps_in_order_gives_back_each_frame() {
    let frames = vec![
        vec![RED, GREEN, BLUE, CLEAR, RED, GREEN],
        vec![RED, RED, BLUE, BLUE, RED, CLEAR],
        vec![RED, RED, BLUE, BLUE, RED, CLEAR],
        vec![GREEN, RED, BLUE, CLEAR, RED, RED],
    ];
    let width = 2;
    let video = delta_encode(&frames, width);
    let mut canvas = vec![[9, 9, 9, 9]; 6];
    for frame in 0..frames.len() {
        paint(&mut canvas, &video[frame], width);
        assert_eq!(canvas, frames[frame]);
    }
}

#[test]
fn comparison_looks_back_only() {
    // Frame 1 equals frame 2 but not frame 0: it is kept although the frame
    // after it is the same.
    let frames = vec![vec![RED], vec![GREEN], vec![GREEN]];
    let video = delta_encode(&frames, 1);
    assert_eq!(video[1].get(0, 0), Some(GREEN));
    assert!(video[2].is_empty());
}

#[test]
fn entries_list_every_entry_once() {
    let mut map = ChangeMap::new();
    assert!(map.entries().is_empty());
    map.insert(1, 2, RED);
    map.insert(2, 1, GREEN);
    map.insert(1, 2, BLUE);
    map.insert(usize::MAX, usize::MAX, CLEAR);
    let mut entries = map.entries();
    entries.sort();
    assert_eq!(
        entries,
        vec![((1, 2), BLUE), ((2, 1), GREEN), ((usize::MAX, usize::MAX), CLEAR)]
    );
}

#[test]
fn entries_of_an_encoded_frame() {
    let before = vec![RED, GREEN, BLUE, CLEAR];
    let after = vec![RED, BLUE, BLUE, RED];
    let mut entries = frame_changes(&after, Some(&before), 2).entries();
    entries.sort();
    assert_eq!(entries, vec![((1, 0), BLUE), ((1, 1), RED)]);
}
