use edge_detect::compare::{compare_with_gt, place_side_by_side};
use edge_detect::gray::GrayBuffer;

fn filled(w: u32, h: u32, v: u8) -> GrayBuffer {
    GrayBuffer::from_raw(w, h, vec![v; (w * h) as usize]).unwrap()
}

fn at(raw: &[u8], w: u32, x: u32, y: u32) -> u8 {
    raw[(y * w + x) as usize]
}

#[test]
fn raw_buffers_round_trip() {
    let data: Vec<u8> = (0..12).collect();
    let img = GrayBuffer::from_raw(4, 3, data.clone()).unwrap();
    assert_eq!(img.dimensions(), (4, 3));
    assert_eq!(img.into_raw(), data);
    assert!(GrayBuffer::from_raw(4, 3, vec![0; 11]).is_none());
}

#[test]
fn panel_layout() {
    let left = filled(60, 40, 50);
    let right = filled(50, 30, 200);
    let out = place_side_by_side(&left, &right, "GT", 8);
    assert_eq!(out.dimensions(), (118, 40));
    let raw = out.into_raw();
    assert_eq!(raw.len(), 118 * 40);
    let w = 118;
    // Left image.
    assert_eq!(at(&raw, w, 0, 0), 50);
    assert_eq!(at(&raw, w, 59, 39), 50);
    // Grey gap.
    assert_eq!(at(&raw, w, 60, 0), 128);
    assert_eq!(at(&raw, w, 67, 39), 128);
    // Black label box at the top-left of the right image.
    assert_eq!(at(&raw, w, 68, 0), 0);
    assert_eq!(at(&raw, w, 72, 4), 0);
    // 'G' row 0 is .###. : columns 1..4 lit, each 3 pixels wide.
    assert_eq!(at(&raw, w, 75, 4), 255);
    assert_eq!(at(&raw, w, 83, 6), 255);
    assert_eq!(at(&raw, w, 84, 4), 0);
    // 'T' starts 18 pixels later with a full bar.
    assert_eq!(at(&raw, w, 90, 4), 255);
    // Right image outside the box.
    assert_eq!(at(&raw, w, 109, 0), 200);
    assert_eq!(at(&raw, w, 68, 29), 200);
    assert_eq!(at(&raw, w, 117, 29), 200);
    // Below the shorter right image.
    assert_eq!(at(&raw, w, 100, 35), 0);
}

#[test]
fn compare_with_gt_labels_the_right_panel() {
    let predicted = filled(10, 5, 1);
    let gt = filled(70, 50, 9);
    let a = compare_with_gt(&predicted, &gt).into_raw();
    let b = place_side_by_side(&predicted, &gt, "GT", 8).into_raw();
    assert_eq!(a, b);
    assert_eq!(a.len(), 88 * 50);
    assert_eq!(at(&a, 88, 18, 0), 0);
    assert_eq!(at(&a, 88, 5, 2), 1);
    assert_eq!(at(&a, 88, 10, 40), 128);
    assert_eq!(at(&a, 88, 18 + 4 + 18, 4), 255);
}

#[test]
fn label_is_clipped_to_the_image() {
    let left = filled(2, 2, 7);
    let right = filled(5, 5, 9);
    let out = place_side_by_side(&left, &right, "ab", 1);
    assert_eq!(out.dimensions(), (8, 5));
    let raw = out.into_raw();
    // The right image is entirely under the label box.
    for y in 0..5 {
        for x in 3..8 {
            let v = at(&raw, 8, x, y);
            assert!(v == 0 || v == 255);
        }
    }
    assert_eq!(at(&raw, 8, 0, 0), 7);
    assert_eq!(at(&raw, 8, 2, 4), 128);
}

#[test]
fn tiny_panel_raw_buffer() {
    let left = GrayBuffer::from_raw(1, 1, vec![7]).unwrap();
    let right = GrayBuffer::from_raw(1, 1, vec![9]).unwrap();
    let out = place_side_by_side(&left, &right, "T", 1);
    assert_eq!(out.dimensions(), (3, 1));
    assert_eq!(out.into_raw(), vec![7, 128, 0]);
}

#[test]
fn compare_with_gt_raw_buffer() {
    let predicted = GrayBuffer::from_raw(2, 2, vec![1, 2, 3, 4]).unwrap();
    let gt = GrayBuffer::from_raw(1, 3, vec![5, 6, 7]).unwrap();
    let out = compare_with_gt(&predicted, &gt);
    assert_eq!(out.dimensions(), (11, 3));
    let mut expected = Vec::new();
    for row in [[1u8, 2], [3, 4], [0, 0]] {
        expected.extend(row);
        expected.extend([128u8; 8]);
        expected.push(0);
    }
    assert_eq!(out.into_raw(), expected);
}
