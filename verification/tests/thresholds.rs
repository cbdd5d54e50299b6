use edge_detect::order_key::{key_bits, order_key, INFINITY_KEY};
use edge_detect::threshold::{auto_threshold, hysteresis_threshold, FALLBACK_THRESHOLD_KEY};

#[test]
fn equal_thresholds_binarise() {
    let image = vec![1, 9, 3, 10, 12, 0, 10, 2, 11];
    let out = hysteresis_threshold(&image, 3, 3, 10, 10);
    assert_eq!(out, vec![0, 0, 0, 255, 255, 0, 255, 0, 255]);
}

#[test]
fn hysteresis_propagates_along_a_chain() {
    // One strong pixel at the left end of a chain of weak pixels.
    let image = vec![
        20, 6, 0, 0, 0, //
        0, 0, 6, 0, 0, //
        0, 0, 0, 6, 6, //
        0, 0, 0, 0, 0, //
    ];
    let out = hysteresis_threshold(&image, 5, 4, 5, 15);
    assert_eq!(
        out,
        vec![
            255, 255, 0, 0, 0, //
            0, 0, 255, 0, 0, //
            0, 0, 0, 255, 255, //
            0, 0, 0, 0, 0, //
        ]
    );
}

#[test]
fn isolated_weak_pixel_is_suppressed() {
    let image = vec![
        20, 0, 0, 0, //
        0, 0, 0, 0, //
        0, 0, 0, 7, //
    ];
    let out = hysteresis_threshold(&image, 4, 3, 5, 15);
    assert_eq!(out, vec![255, 0, 0, 0, 0, 0, 0, 0, 0, 0, 0, 0]);
}

#[test]
fn propagation_does_not_wrap_around_rows() {
    // The last pixel of row 0 and the first of row 1 are adjacent in the
    // buffer but not in the image.
    let image = vec![0, 0, 20, 7, 0, 0];
    let out = hysteresis_threshold(&image, 3, 2, 5, 15);
    assert_eq!(out, vec![0, 0, 255, 0, 0, 0]);
}

#[test]
fn auto_threshold_picks_the_85th_percentile_of_positive_pixels() {
    let mut image: Vec<i32> = (1..=20).rev().collect();
    image.extend([0, -5, 0]);
    // 20 positive values; index (20 * 0.85) as usize = 17.
    assert_eq!(auto_threshold(&image), 18);
}

#[test]
fn auto_threshold_falls_back_to_ten() {
    let t = auto_threshold(&[0, 0, -3]);
    assert_eq!(t, FALLBACK_THRESHOLD_KEY);
    assert_eq!(f32::from_bits(key_bits(t)), 10.0);
}

#[test]
fn auto_threshold_rounds_like_f32() {
    // For this many values the index computed in f32 differs from the
    // exact 85% of the count.
    let n: usize = 786_447;
    let image: Vec<i32> = (1..=n as i32).collect();
    let idx = ((n as f32) * 0.85) as usize;
    assert_ne!(idx, n * 85 / 100);
    assert_eq!(auto_threshold(&image), idx as i32 + 1);
}

#[test]
fn auto_threshold_of_float_magnitudes() {
    let values = [0.0f32, 3.5, 1.25, 0.0, 8.0, 2.0];
    let keys: Vec<i32> = values.iter().map(|v| order_key(v.to_bits())).collect();
    // Positive values sorted: 1.25, 2.0, 3.5, 8.0; index (4 * 0.85) = 3.
    assert_eq!(f32::from_bits(key_bits(auto_threshold(&keys))), 8.0);
}

#[test]
fn nan_pixels_are_never_edges() {
    let nan = order_key(f32::NAN.to_bits());
    let image = vec![20, nan, 6, 0];
    let out = hysteresis_threshold(&image, 4, 1, 5, 15);
    // The NaN neither is an edge nor carries the flood to the weak pixel.
    assert_eq!(out, vec![255, 0, 0, 0]);
    let out = hysteresis_threshold(&[nan, 7, 20], 3, 1, 5, 15);
    assert_eq!(out, vec![0, 255, 255]);
}

#[test]
fn image_without_rows_keeps_only_its_strong_pixels() {
    let out = hysteresis_threshold(&[20, 7, 0], 3, 0, 5, 15);
    assert_eq!(out, vec![255, 0, 0]);
}

#[test]
fn lower_thresholds_keep_every_edge() {
    let image = vec![
        20, 6, 0, 0, 0, //
        0, 0, 4, 0, 0, //
        0, 0, 0, 12, 3, //
    ];
    let strict = hysteresis_threshold(&image, 5, 3, 5, 15);
    let loose = hysteresis_threshold(&image, 5, 3, 3, 12);
    for i in 0..image.len() {
        assert!(strict[i] == 0 || loose[i] == 255);
    }
    assert_eq!(strict, vec![255, 255, 0, 0, 0, 0, 0, 0, 0, 0, 0, 0, 0, 0, 0]);
    assert_eq!(loose, vec![255, 255, 0, 0, 0, 0, 0, 255, 0, 0, 0, 0, 0, 255, 255]);
}

#[test]
fn brighter_image_keeps_every_edge() {
    let image = vec![20, 6, 0, 9, 0, 0, 0, 0];
    let brighter = vec![20, 6, 5, 9, 0, 1, 0, 0];
    let a = hysteresis_threshold(&image, 4, 2, 5, 15);
    let b = hysteresis_threshold(&brighter, 4, 2, 5, 15);
    assert_eq!(a, vec![255, 255, 0, 0, 0, 0, 0, 0]);
    assert_eq!(b, vec![255, 255, 255, 255, 0, 0, 0, 0]);
}

#[test]
fn thresholding_an_edge_map_gives_it_back() {
    let v = order_key(255.0f32.to_bits());
    let map = vec![255u8, 0, 0, 255, 255, 0, 0, 0, 255, 0, 255, 0];
    let image: Vec<i32> = map.iter().map(|&p| if p == 255 { v } else { 0 }).collect();
    let low = order_key(10.0f32.to_bits());
    let high = order_key(100.0f32.to_bits());
    assert_eq!(hysteresis_threshold(&image, 4, 3, low, high), map);
}

#[test]
fn auto_threshold_ignores_nan_and_infinity_counts() {
    let nan = order_key(f32::NAN.to_bits());
    assert_eq!(auto_threshold(&[nan, 0, nan]), FALLBACK_THRESHOLD_KEY);
    let mut image: Vec<i32> = (1..=20).collect();
    let plain = auto_threshold(&image);
    image.extend([nan, 0, -7, nan]);
    assert_eq!(auto_threshold(&image), plain);
    assert_eq!(auto_threshold(&[INFINITY_KEY, 3]), INFINITY_KEY);
}

#[test]
fn auto_threshold_ignores_pixel_order() {
    let image: Vec<i32> = (0..40).map(|v| (v * 17) % 23 - 3).collect();
    let mut shuffled = image.clone();
    shuffled.reverse();
    shuffled.rotate_left(7);
    assert_eq!(auto_threshold(&image), auto_threshold(&shuffled));
}
