use edge_detect::font::char_bitmap;
use edge_detect::order_key::{key_bits, order_key, INFINITY_KEY};

#[test]
fn bitmap_of_t_is_a_bar_and_a_stem() {
    assert_eq!(char_bitmap('T'), [0x1F, 0x04, 0x04, 0x04, 0x04, 0x04, 0x04]);
}

#[test]
fn bitmap_ignores_case() {
    assert_eq!(char_bitmap('g'), char_bitmap('G'));
    assert_eq!(char_bitmap('z'), char_bitmap('Z'));
    assert_eq!(char_bitmap('g'), [0x0E, 0x10, 0x10, 0x17, 0x11, 0x11, 0x0E]);
}

#[test]
fn unknown_characters_show_a_question_mark() {
    let question = [0x0E, 0x11, 0x01, 0x06, 0x04, 0x00, 0x04];
    assert_eq!(char_bitmap('#'), question);
    assert_eq!(char_bitmap('é'), question);
    assert_eq!(char_bitmap(' '), [0u8; 7]);
}

#[test]
fn glyph_rows_fit_in_five_bits() {
    for c in "ABCDEFGHIJKLMNOPQRSTUVWXYZ0123456789 :-_?".chars() {
        for row in char_bitmap(c) {
            assert!(row < 32);
        }
    }
}

#[test]
fn order_keys_compare_as_floats() {
    let values = [-1.0e30f32, -2.5, -1.0, -0.0, 0.0, 1.0e-40, 0.5, 1.0, 1.5, 1.0e30, f32::INFINITY];
    for a in values {
        for b in values {
            let ka = order_key(a.to_bits());
            let kb = order_key(b.to_bits());
            assert_eq!(a < b, ka < kb, "{} {}", a, b);
            assert_eq!(a == b, ka == kb, "{} {}", a, b);
        }
    }
    assert_eq!(order_key(f32::NEG_INFINITY.to_bits()) < order_key((-1.0e30f32).to_bits()), true);
}

#[test]
fn order_keys_round_trip() {
    for v in [-3.25f32, -1.0, 0.0, 2.0, 10.0, 1234.5] {
        assert_eq!(f32::from_bits(key_bits(order_key(v.to_bits()))), v);
    }
    assert_eq!(order_key((-0.0f32).to_bits()), 0);
    assert_eq!(key_bits(0), 0);
    assert_eq!(order_key(10.0f32.to_bits()), 0x4120_0000);
    assert_eq!(order_key((-2.0f32).to_bits()), -0x4000_0000);
}

#[test]
fn glyphs_are_distinct() {
    let chars: Vec<char> = "ABCDEFGHIJKLMNOPQRSTUVWXYZ0123456789 :-_".chars().collect();
    for (i, &a) in chars.iter().enumerate() {
        assert_ne!(char_bitmap(a), char_bitmap('?'), "{}", a);
        for &b in &chars[i + 1..] {
            assert_ne!(char_bitmap(a), char_bitmap(b), "{} {}", a, b);
        }
    }
}

#[test]
fn nan_keys_lie_beyond_the_infinities() {
    assert_eq!(order_key(f32::INFINITY.to_bits()), INFINITY_KEY);
    assert_eq!(order_key(f32::NEG_INFINITY.to_bits()), -INFINITY_KEY);
    assert!(order_key(f32::NAN.to_bits()) > INFINITY_KEY);
    assert!(order_key((-f32::NAN).to_bits()) < -INFINITY_KEY);
}
