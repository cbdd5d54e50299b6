use edge_detect::convolution::{convolve2d, convolve_pixel};
use edge_detect::nms::{non_maximum_suppression, GradientAxis};
use edge_detect::order_key::order_key;
use edge_detect::sobel::{sobel_gradients, SOBEL_GX, SOBEL_GY};

#[test]
fn identity_kernel_returns_the_image() {
    let image: Vec<i32> = (0..20).map(|v| v * 7 - 30).collect();
    let kernel = [0, 0, 0, 0, 1, 0, 0, 0, 0];
    let out = convolve2d(&image, 5, 4, &kernel, 3, 3);
    let expected: Vec<i128> = image.iter().map(|&v| v as i128).collect();
    assert_eq!(out, expected);
}

#[test]
fn zero_kernel_gives_zeros() {
    let image: Vec<i32> = (0..12).collect();
    let out = convolve2d(&image, 4, 3, &[0; 9], 3, 3);
    assert_eq!(out, vec![0i128; 12]);
}

#[test]
fn box_blur_pads_with_zeros() {
    let image = vec![1i32; 9];
    let out = convolve2d(&image, 3, 3, &[1; 9], 3, 3);
    assert_eq!(out, vec![4, 6, 4, 6, 9, 6, 4, 6, 4]);
}

#[test]
fn five_by_five_kernel() {
    // A single bright pixel in the middle of a 5x5 image spreads the
    // flipped kernel around it.
    let mut image = vec![0i32; 25];
    image[12] = 1;
    let kernel: Vec<i32> = (1..=25).collect();
    let out = convolve2d(&image, 5, 5, &kernel, 5, 5);
    let expected: Vec<i128> = (1..=25).rev().collect();
    assert_eq!(out, expected);
}

#[test]
fn one_pixel_by_pixel() {
    let image = vec![3i32, -4, 5, 6];
    let kernel = [1, 2, 3, 4, 5, 6, 7, 8, 9];
    // Pixel (0, 0) sees samples (0,0), (1,0), (0,1), (1,1) under kernel
    // entries 5, 6, 8, 9.
    assert_eq!(convolve_pixel(&image, 2, 2, &kernel, 3, 3, 0), 3 * 5 - 4 * 6 + 5 * 8 + 6 * 9);
    let out = convolve2d(&image, 2, 2, &kernel, 3, 3);
    assert_eq!(out[0], 3 * 5 - 4 * 6 + 5 * 8 + 6 * 9);
    assert_eq!(out[3], 3 * 1 - 4 * 2 + 5 * 4 + 6 * 5);
}

#[test]
fn values_past_i64_are_exact() {
    let image = vec![i32::MIN; 9];
    let kernel = [i32::MIN; 9];
    let out = convolve2d(&image, 3, 3, &kernel, 3, 3);
    let tap = (i32::MIN as i128) * (i32::MIN as i128);
    assert_eq!(out[4], 9 * tap);
    assert_eq!(out[0], 4 * tap);
}

#[test]
fn flat_image_has_no_gradient_inside() {
    let image = vec![77i32; 6 * 5];
    let g = sobel_gradients(&image, 6, 5);
    for y in 1..4 {
        for x in 1..5 {
            assert_eq!(g.gx[y * 6 + x], 0);
            assert_eq!(g.gy[y * 6 + x], 0);
        }
    }
    // At the border zero padding makes a gradient.
    assert_eq!(g.gx[0], 77 * (2 + 1));
}

#[test]
fn vertical_edge_gives_a_strong_horizontal_gradient() {
    // Left half 0, right half 255.
    let (w, h) = (6usize, 4usize);
    let image: Vec<i32> = (0..w * h).map(|i| if i % w >= 3 { 255 } else { 0 }).collect();
    let g = sobel_gradients(&image, w, h);
    let y = 1;
    assert_eq!(g.gx[y * w + 2], 255 * 4);
    assert_eq!(g.gx[y * w + 3], 255 * 4);
    assert_eq!(g.gx[y * w + 1], 0);
    assert_eq!(g.gy[y * w + 2], 0);
    assert_eq!(SOBEL_GX.iter().sum::<i32>(), 0);
    assert_eq!(SOBEL_GY.iter().sum::<i32>(), 0);
}

#[test]
fn single_peak_survives_suppression() {
    let mut mag = vec![0i32; 25];
    mag[12] = 100;
    mag[11] = 40;
    mag[13] = 60;
    for axis in [
        GradientAxis::Horizontal,
        GradientAxis::MainDiagonal,
        GradientAxis::Vertical,
        GradientAxis::AntiDiagonal,
    ] {
        let axes = vec![axis; 25];
        let out = non_maximum_suppression(&mag, &axes, 5, 5);
        assert_eq!(out[12], 100);
        if axis == GradientAxis::Horizontal {
            assert_eq!(out[13], 0);
            assert_eq!(out[11], 0);
        } else {
            assert_eq!(out[13], 60);
        }
    }
}

#[test]
fn zero_field_stays_zero() {
    let out = non_maximum_suppression(&[0; 16], &[GradientAxis::Vertical; 16], 4, 4);
    assert_eq!(out, vec![0; 16]);
}

#[test]
fn border_is_cleared_and_ties_are_suppressed() {
    let mag = vec![5i32; 9];
    let out = non_maximum_suppression(&mag, &[GradientAxis::AntiDiagonal; 9], 3, 3);
    assert_eq!(out, vec![0; 9]);
    let out = non_maximum_suppression(&[1, 2], &[GradientAxis::Vertical; 2], 2, 1);
    assert_eq!(out, vec![0, 0]);
}

#[test]
fn a_pixel_that_only_ties_its_neighbour_is_suppressed() {
    let mag = [0, 0, 0, 5, 5, 0, 0, 0, 0];
    let out = non_maximum_suppression(&mag, &[GradientAxis::Horizontal; 9], 3, 3);
    assert_eq!(out, vec![0; 9]);
    let mag = [0, 0, 0, 4, 5, 0, 0, 0, 0];
    let out = non_maximum_suppression(&mag, &[GradientAxis::Horizontal; 9], 3, 3);
    assert_eq!(out, vec![0, 0, 0, 0, 5, 0, 0, 0, 0]);
}

#[test]
fn a_45_degree_gradient_compares_the_main_diagonal() {
    // A 45° gradient points to the lower right, (x + 1, y + 1).
    let mag = [0, 0, 0, 0, 5, 0, 0, 0, 9];
    let out = non_maximum_suppression(&mag, &[GradientAxis::MainDiagonal; 9], 3, 3);
    assert_eq!(out, vec![0; 9]);
    let out = non_maximum_suppression(&mag, &[GradientAxis::AntiDiagonal; 9], 3, 3);
    assert_eq!(out, vec![0, 0, 0, 0, 5, 0, 0, 0, 0]);
    // A 135° gradient points to the lower left, (x - 1, y + 1).
    let mag = [0, 0, 0, 0, 5, 0, 9, 0, 0];
    let out = non_maximum_suppression(&mag, &[GradientAxis::AntiDiagonal; 9], 3, 3);
    assert_eq!(out, vec![0; 9]);
    let out = non_maximum_suppression(&mag, &[GradientAxis::MainDiagonal; 9], 3, 3);
    assert_eq!(out, vec![0, 0, 0, 0, 5, 0, 0, 0, 0]);
}

#[test]
fn nan_magnitudes_are_never_kept() {
    let nan = order_key(f32::NAN.to_bits());
    let inf = order_key(f32::INFINITY.to_bits());
    // A NaN centre is suppressed, and so is a centre next to a NaN.
    let out = non_maximum_suppression(&[0, 0, 0, 0, nan, 0, 0, 0, 0], &[GradientAxis::Vertical; 9], 3, 3);
    assert_eq!(out, vec![0; 9]);
    let out = non_maximum_suppression(&[0, nan, 0, 0, 7, 0, 0, 0, 0], &[GradientAxis::Vertical; 9], 3, 3);
    assert_eq!(out, vec![0; 9]);
    // Infinity is an ordinary, largest value.
    let out = non_maximum_suppression(&[0, 0, 0, 0, inf, 0, 0, 0, 0], &[GradientAxis::Vertical; 9], 3, 3);
    assert_eq!(out[4], inf);
}

#[test]
fn hard_vertical_edge_gives_the_sobel_value() {
    let image = [0, 0, 255, 0, 0, 255, 0, 0, 255];
    let g = sobel_gradients(&image, 3, 3);
    assert_eq!(g.gx[4], 1020);
    assert_eq!(g.gy[4], 0);
}

#[test]
fn brightening_leaves_interior_gradients_unchanged() {
    let image: Vec<i32> = (0..30).map(|v| (v * 37) % 101).collect();
    let brighter: Vec<i32> = image.iter().map(|v| v + 55).collect();
    let a = sobel_gradients(&image, 6, 5);
    let b = sobel_gradients(&brighter, 6, 5);
    for y in 1..4 {
        for x in 1..5 {
            assert_eq!(a.gx[y * 6 + x], b.gx[y * 6 + x]);
            assert_eq!(a.gy[y * 6 + x], b.gy[y * 6 + x]);
        }
    }
    // On the border zero padding makes them differ.
    assert_ne!(a.gx[0], b.gx[0]);
}
