use raycaster::fixed::SCALE;
use raycaster::shade::{quantize, shade};

#[test]
fn a_channel_is_colour_times_light_times_255_rounded_down() {
    // 0.5 * 0.2 * 255 = 25.5
    assert_eq!(quantize(500_000, 200_000), 25);
    // 1.0 * 0.7 * 255 = 178.5
    assert_eq!(quantize(SCALE, 700_000), 178);
    assert_eq!(quantize(SCALE, 1_000_000), 255);
    assert_eq!(quantize(SCALE, 999_999), 254);
    assert_eq!(quantize(SCALE, 3_921), 0);
    assert_eq!(quantize(SCALE, 3_922), 1);
    assert_eq!(quantize(SCALE, 0), 0);
    assert_eq!(quantize(0, 1_000_000), 0);
}

#[test]
fn too_much_light_stops_at_255() {
    assert_eq!(quantize(SCALE, 2_000_000), 255);
    assert_eq!(quantize(1, 999_999_999_999), 254);
    assert_eq!(quantize(1, 1_000_000_000_000), 255);
    assert_eq!(quantize(1, 1_000_000_000_001), 255);
    assert_eq!(quantize(1, i128::MAX), 255);
    assert_eq!(quantize(i32::MAX, i128::MAX), 255);
    assert_eq!(quantize(i32::MAX, 1_000_000_000_000), 255);
    assert_eq!(quantize(0, i128::MAX), 0);
}

#[test]
fn a_negative_product_stops_at_zero() {
    assert_eq!(quantize(SCALE, -1), 0);
    assert_eq!(quantize(-SCALE, 1_000_000), 0);
    assert_eq!(quantize(1, -1_000_000_000_001), 0);
    assert_eq!(quantize(-1, 1_000_000_000_001), 0);
    assert_eq!(quantize(1, i128::MIN), 0);
    assert_eq!(quantize(i32::MIN, i128::MAX), 0);
}

#[test]
fn two_negatives_give_light() {
    assert_eq!(quantize(-SCALE, -1_000_000), 255);
    assert_eq!(quantize(-1, -1_000_000_000_001), 255);
    assert_eq!(quantize(-1, i128::MIN), 255);
    assert_eq!(quantize(i32::MIN, -1_000_000_000_000), 255);
    assert_eq!(quantize(-500_000, -200_000), 25);
}

#[test]
fn a_pixel_is_three_channels_and_full_opacity() {
    assert_eq!(shade(&[SCALE, SCALE / 2, SCALE / 5, SCALE], 700_000), [178, 89, 35, 255]);
    assert_eq!(shade(&[SCALE, SCALE / 2, SCALE / 5, 0], 200_000), [51, 25, 10, 255]);
    assert_eq!(shade(&[SCALE, SCALE / 2, SCALE / 5, -SCALE], 0), [0, 0, 0, 255]);
    assert_eq!(shade(&[SCALE, SCALE / 2, SCALE / 5, 123], 5_000_000), [255, 255, 255, 255]);
}
