use frame_delta::dimensions::{integer_sqrt, target_dimensions, PIXEL_BUDGET};

#[test]
fn pixel_budget_is_999() {
    assert_eq!(PIXEL_BUDGET, 999);
}

#[test]
fn integer_sqrt_of_small_numbers() {
    assert_eq!(integer_sqrt(0), 0);
    assert_eq!(integer_sqrt(1), 1);
    assert_eq!(integer_sqrt(3), 1);
    assert_eq!(integer_sqrt(4), 2);
    assert_eq!(integer_sqrt(998), 31);
    assert_eq!(integer_sqrt(1023), 31);
    assert_eq!(integer_sqrt(1024), 32);
}

#[test]
fn integer_sqrt_of_large_numbers() {
    assert_eq!(integer_sqrt(u128::MAX), u64::MAX);
    assert_eq!(integer_sqrt(1u128 << 64), 1u64 << 32);
    assert_eq!(integer_sqrt((1u128 << 64) - 1), (1u64 << 32) - 1);
}

#[test]
fn integer_sqrt_brackets_its_argument() {
    for n in 0..5000u128 {
        let root = integer_sqrt(n) as u128;
        assert!(root * root <= n);
        assert!(n < (root + 1) * (root + 1));
    }
}

#[test]
fn scenario_native_1998_by_999() {
    // With a width of aspect * W / scale the grid holds about 999 * aspect
    // pixels: 2 * 1998 / sqrt(1998) = 89.39.., 999 / sqrt(1998) = 22.34..
    assert_eq!(target_dimensions(1998, 999), (89, 22));
}

#[test]
fn square_frames_get_31_by_31() {
    assert_eq!(target_dimensions(1, 1), (31, 31));
    assert_eq!(target_dimensions(2, 2), (31, 31));
    assert_eq!(target_dimensions(500, 500), (31, 31));
    assert_eq!(target_dimensions(u32::MAX, u32::MAX), (31, 31));
}

#[test]
fn common_video_sizes() {
    assert_eq!(target_dimensions(1920, 1080), (74, 23));
    assert_eq!(target_dimensions(3840, 2160), (74, 23));
    assert_eq!(target_dimensions(640, 480), (48, 27));
    assert_eq!(target_dimensions(1080, 1920), (13, 42));
}

#[test]
fn exact_square_roots_are_kept() {
    // 999 * 1024 / 1776 == 576 == 24 * 24
    assert_eq!(target_dimensions(1776, 1024), (72, 24));
}

#[test]
fn degenerate_frames_reach_zero() {
    assert_eq!(target_dimensions(1, 2000), (0, 1413));
    assert_eq!(target_dimensions(u32::MAX, 1), (8896568681040189, 0));
}

#[test]
fn grid_area_brackets_budget_times_aspect() {
    for (w, h) in [(1998u128, 999u128), (1920, 1080), (640, 480), (7, 5), (1080, 1920), (3, 3)] {
        let (across, down) = target_dimensions(w as u32, h as u32);
        let (across, down) = (across as u128, down as u128);
        assert!(across * down * h <= 999 * w);
        assert!(999 * w < (across + 1) * (down + 1) * h);
    }
}

#[test]
fn grid_ratio_brackets_squared_aspect() {
    for (w, h) in [(1998u128, 999u128), (1920, 1080), (640, 480), (7, 5), (1080, 1920), (3, 3)] {
        let (across, down) = target_dimensions(w as u32, h as u32);
        let (across, down) = (across as u128, down as u128);
        assert!(across * h * h < (down + 1) * w * w);
        assert!(down * w * w < (across + 1) * h * h);
    }
}

#[test]
fn grid_side_is_positive_where_the_frame_is_not_too_narrow() {
    // 999 * 10 >= 9990 but 999 * 10 < 9991
    assert_eq!(target_dimensions(9990, 10).1, 1);
    assert_eq!(target_dimensions(9991, 10).1, 0);
    // 999 * 100^3 >= 999^3 but 999 * 100^3 < 1000^3
    assert_eq!(target_dimensions(100, 999).0, 1);
    assert_eq!(target_dimensions(100, 1000).0, 0);
}
