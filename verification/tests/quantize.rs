use frame_delta::quantize::{flatten_color, flatten_int, COLOR_PRECISION};

#[test]
fn default_precision_is_four() {
    assert_eq!(COLOR_PRECISION, 4);
}

#[test]
fn flatten_int_rounds_to_multiples_of_six() {
    assert_eq!(flatten_int(0, 4), 0);
    assert_eq!(flatten_int(2, 4), 0);
    assert_eq!(flatten_int(8, 4), 6);
    assert_eq!(flatten_int(14, 4), 12);
    assert_eq!(flatten_int(250, 4), 252);
    assert_eq!(flatten_int(252, 4), 252);
    assert_eq!(flatten_int(254, 4), 252);
}

#[test]
fn flatten_int_rounds_halves_up() {
    assert_eq!(flatten_int(3, 4), 6);
    assert_eq!(flatten_int(9, 4), 12);
    assert_eq!(flatten_int(15, 4), 18);
}

#[test]
fn flatten_int_caps_at_255() {
    assert_eq!(flatten_int(255, 4), 255);
    assert_eq!(flatten_int(254, 1), 255);
    assert_eq!(flatten_int(255, 1), 255);
}

#[test]
fn flatten_int_step_is_xor_not_power() {
    // 1 ^ 2 == 3, 0 ^ 2 == 2, 3 ^ 2 == 1, 255 ^ 2 == 253
    assert_eq!(flatten_int(2, 1), 3);
    assert_eq!(flatten_int(4, 1), 3);
    assert_eq!(flatten_int(5, 1), 6);
    assert_eq!(flatten_int(1, 0), 2);
    assert_eq!(flatten_int(126, 3), 126);
    assert_eq!(flatten_int(126, 255), 0);
    assert_eq!(flatten_int(127, 255), 253);
    assert_eq!(flatten_int(255, 255), 253);
}

#[test]
fn flatten_int_with_step_zero_is_zero() {
    for v in 0..=255u8 {
        assert_eq!(flatten_int(v, 2), 0);
    }
}

#[test]
fn flatten_int_is_idempotent() {
    for bits in 0..=255u8 {
        for v in 0..=255u8 {
            let once = flatten_int(v, bits);
            assert_eq!(flatten_int(once, bits), once);
        }
    }
}

#[test]
fn flatten_int_is_monotonic() {
    for bits in 0..=255u8 {
        for v in 0..255u8 {
            assert!(flatten_int(v, bits) <= flatten_int(v + 1, bits));
        }
    }
}

#[test]
fn flatten_int_stays_within_half_a_step() {
    for v in 0..=255u8 {
        let flat = flatten_int(v, 4) as i32;
        let v = v as i32;
        assert!(2 * (flat - v) <= 6);
        assert!(2 * (v - flat) < 6);
        assert!(flat % 6 == 0 || flat == 255);
    }
}

#[test]
fn flatten_color_keeps_alpha() {
    assert_eq!(flatten_color(&[8, 9, 255, 77], 4), [6, 12, 255, 77]);
    assert_eq!(flatten_color(&[0, 3, 253, 0], 4), [0, 6, 252, 0]);
    assert_eq!(flatten_color(&[10, 20, 30, 255], 2), [0, 0, 0, 255]);
}
