//! A 5×7 bitmap font for labels: upper-case letters, digits and a few
//! punctuation marks.
use vstd::prelude::*;

verus! {

/// Width of a glyph in font pixels.
pub const FONT_COLS: u32 = 5;

/// Height of a glyph in font pixels.
pub const FONT_ROWS: u32 = 7;

/// `char::to_ascii_uppercase`: `a`..=`z` map to `A`..=`Z`, every other
/// character is unchanged.
pub open spec fn ascii_upper(c: char) -> char {
    if 'a' <= c && c <= 'z' {
        ((c as u32) - 32) as char
    } else {
        c
    }
}

/// The glyph of an upper-case character: seven rows of five pixels, each row
/// in the low five bits of a byte, bit 4 (0x10) the leftmost column.
/// Characters without a glyph show a question mark.
pub open spec fn font_glyph(c: char) -> [u8; 7] {
    match c {
        'A' => [0x0E, 0x11, 0x11, 0x1F, 0x11, 0x11, 0x11],
        'B' => [0x1E, 0x11, 0x11, 0x1E, 0x11, 0x11, 0x1E],
        'C' => [0x0E, 0x11, 0x10, 0x10, 0x10, 0x11, 0x0E],
        'D' => [0x1E, 0x11, 0x11, 0x11, 0x11, 0x11, 0x1E],
        'E' => [0x1F, 0x10, 0x10, 0x1E, 0x10, 0x10, 0x1F],
        'F' => [0x1F, 0x10, 0x10, 0x1E, 0x10, 0x10, 0x10],
        'G' => [0x0E, 0x10, 0x10, 0x17, 0x11, 0x11, 0x0E],
        'H' => [0x11, 0x11, 0x11, 0x1F, 0x11, 0x11, 0x11],
        'I' => [0x0E, 0x04, 0x04, 0x04, 0x04, 0x04, 0x0E],
        'J' => [0x07, 0x02, 0x02, 0x02, 0x02, 0x12, 0x0C],
        'K' => [0x11, 0x12, 0x14, 0x18, 0x14, 0x12, 0x11],
        'L' => [0x10, 0x10, 0x10, 0x10, 0x10, 0x10, 0x1F],
        'M' => [0x11, 0x1B, 0x15, 0x11, 0x11, 0x11, 0x11],
        'N' => [0x11, 0x19, 0x15, 0x13, 0x11, 0x11, 0x11],
        'O' => [0x0E, 0x11, 0x11, 0x11, 0x11, 0x11, 0x0E],
        'P' => [0x1E, 0x11, 0x11, 0x1E, 0x10, 0x10, 0x10],
        'Q' => [0x0E, 0x11, 0x11, 0x11, 0x15, 0x12, 0x0D],
        'R' => [0x1E, 0x11, 0x11, 0x1E, 0x14, 0x12, 0x11],
        'S' => [0x0E, 0x11, 0x10, 0x0E, 0x01, 0x11, 0x0E],
        'T' => [0x1F, 0x04, 0x04, 0x04, 0x04, 0x04, 0x04],
        'U' => [0x11, 0x11, 0x11, 0x11, 0x11, 0x11, 0x0E],
        'V' => [0x11, 0x11, 0x11, 0x11, 0x11, 0x0A, 0x04],
        'W' => [0x11, 0x11, 0x11, 0x15, 0x15, 0x1B, 0x11],
        'X' => [0x11, 0x11, 0x0A, 0x04, 0x0A, 0x11, 0x11],
        'Y' => [0x11, 0x11, 0x0A, 0x04, 0x04, 0x04, 0x04],
        'Z' => [0x1F, 0x01, 0x02, 0x04, 0x08, 0x10, 0x1F],
        '0' => [0x0E, 0x11, 0x13, 0x15, 0x19, 0x11, 0x0E],
        '1' => [0x04, 0x0C, 0x04, 0x04, 0x04, 0x04, 0x0E],
        '2' => [0x0E, 0x11, 0x01, 0x06, 0x08, 0x10, 0x1F],
        '3' => [0x1F, 0x02, 0x04, 0x06, 0x01, 0x11, 0x0E],
        '4' => [0x02, 0x06, 0x0A, 0x12, 0x1F, 0x02, 0x02],
        '5' => [0x1F, 0x10, 0x1E, 0x01, 0x01, 0x11, 0x0E],
        '6' => [0x06, 0x08, 0x10, 0x1E, 0x11, 0x11, 0x0E],
        '7' => [0x1F, 0x01, 0x02, 0x04, 0x08, 0x08, 0x08],
        '8' => [0x0E, 0x11, 0x11, 0x0E, 0x11, 0x11, 0x0E],
        '9' => [0x0E, 0x11, 0x11, 0x0F, 0x01, 0x02, 0x0C],
        ' ' => [0x00, 0x00, 0x00, 0x00, 0x00, 0x00, 0x00],
        ':' => [0x00, 0x04, 0x00, 0x00, 0x04, 0x00, 0x00],
        '-' => [0x00, 0x00, 0x00, 0x1F, 0x00, 0x00, 0x00],
        '_' => [0x00, 0x00, 0x00, 0x00, 0x00, 0x00, 0x1F],
        _ => [0x0E, 0x11, 0x01, 0x06, 0x04, 0x00, 0x04],
    }
}

/// Whether font column `col` (0 = leftmost) of a glyph row is lit.
pub open spec fn glyph_bit(bits: u8, col: u32) -> bool {
    (bits >> ((FONT_COLS - 1 - col) as u32)) & 1u8 == 1u8
}

/// The 5×7 bitmap of a character; lower-case letters are drawn as their
/// upper-case forms and unknown characters as a question mark.
pub fn char_bitmap(c: char) -> (bitmap: [u8; 7])
    ensures
        bitmap == font_glyph(ascii_upper(c)),
{
    match c {
        'A' | 'a' => [0x0E, 0x11, 0x11, 0x1F, 0x11, 0x11, 0x11],
        'B' | 'b' => [0x1E, 0x11, 0x11, 0x1E, 0x11, 0x11, 0x1E],
        'C' | 'c' => [0x0E, 0x11, 0x10, 0x10, 0x10, 0x11, 0x0E],
        'D' | 'd' => [0x1E, 0x11, 0x11, 0x11, 0x11, 0x11, 0x1E],
        'E' | 'e' => [0x1F, 0x10, 0x10, 0x1E, 0x10, 0x10, 0x1F],
        'F' | 'f' => [0x1F, 0x10, 0x10, 0x1E, 0x10, 0x10, 0x10],
        'G' | 'g' => [0x0E, 0x10, 0x10, 0x17, 0x11, 0x11, 0x0E],
        'H' | 'h' => [0x11, 0x11, 0x11, 0x1F, 0x11, 0x11, 0x11],
        'I' | 'i' => [0x0E, 0x04, 0x04, 0x04, 0x04, 0x04, 0x0E],
        'J' | 'j' => [0x07, 0x02, 0x02, 0x02, 0x02, 0x12, 0x0C],
        'K' | 'k' => [0x11, 0x12, 0x14, 0x18, 0x14, 0x12, 0x11],
        'L' | 'l' => [0x10, 0x10, 0x10, 0x10, 0x10, 0x10, 0x1F],
        'M' | 'm' => [0x11, 0x1B, 0x15, 0x11, 0x11, 0x11, 0x11],
        'N' | 'n' => [0x11, 0x19, 0x15, 0x13, 0x11, 0x11, 0x11],
        'O' | 'o' => [0x0E, 0x11, 0x11, 0x11, 0x11, 0x11, 0x0E],
        'P' | 'p' => [0x1E, 0x11, 0x11, 0x1E, 0x10, 0x10, 0x10],
        'Q' | 'q' => [0x0E, 0x11, 0x11, 0x11, 0x15, 0x12, 0x0D],
        'R' | 'r' => [0x1E, 0x11, 0x11, 0x1E, 0x14, 0x12, 0x11],
        'S' | 's' => [0x0E, 0x11, 0x10, 0x0E, 0x01, 0x11, 0x0E],
        'T' | 't' => [0x1F, 0x04, 0x04, 0x04, 0x04, 0x04, 0x04],
        'U' | 'u' => [0x11, 0x11, 0x11, 0x11, 0x11, 0x11, 0x0E],
        'V' | 'v' => [0x11, 0x11, 0x11, 0x11, 0x11, 0x0A, 0x04],
        'W' | 'w' => [0x11, 0x11, 0x11, 0x15, 0x15, 0x1B, 0x11],
        'X' | 'x' => [0x11, 0x11, 0x0A, 0x04, 0x0A, 0x11, 0x11],
        'Y' | 'y' => [0x11, 0x11, 0x0A, 0x04, 0x04, 0x04, 0x04],
        'Z' | 'z' => [0x1F, 0x01, 0x02, 0x04, 0x08, 0x10, 0x1F],
        '0' => [0x0E, 0x11, 0x13, 0x15, 0x19, 0x11, 0x0E],
        '1' => [0x04, 0x0C, 0x04, 0x04, 0x04, 0x04, 0x0E],
        '2' => [0x0E, 0x11, 0x01, 0x06, 0x08, 0x10, 0x1F],
        '3' => [0x1F, 0x02, 0x04, 0x06, 0x01, 0x11, 0x0E],
        '4' => [0x02, 0x06, 0x0A, 0x12, 0x1F, 0x02, 0x02],
        '5' => [0x1F, 0x10, 0x1E, 0x01, 0x01, 0x11, 0x0E],
        '6' => [0x06, 0x08, 0x10, 0x1E, 0x11, 0x11, 0x0E],
        '7' => [0x1F, 0x01, 0x02, 0x04, 0x08, 0x08, 0x08],
        '8' => [0x0E, 0x11, 0x11, 0x0E, 0x11, 0x11, 0x0E],
        '9' => [0x0E, 0x11, 0x11, 0x0F, 0x01, 0x02, 0x0C],
        ' ' => [0x00, 0x00, 0x00, 0x00, 0x00, 0x00, 0x00],
        ':' => [0x00, 0x04, 0x00, 0x00, 0x04, 0x00, 0x00],
        '-' => [0x00, 0x00, 0x00, 0x1F, 0x00, 0x00, 0x00],
        '_' => [0x00, 0x00, 0x00, 0x00, 0x00, 0x00, 0x1F],
        _ => [0x0E, 0x11, 0x01, 0x06, 0x04, 0x00, 0x04],
    }
}

/// Letters are drawn the same in either case: the bitmap of a character is
/// the bitmap of its upper-case form.
pub proof fn lemma_bitmap_ignores_case(c: char)
    ensures
        font_glyph(ascii_upper(c)) == font_glyph(ascii_upper(ascii_upper(c))),
{
    if 'a' <= c && c <= 'z' {
        let u = ascii_upper(c);
        assert('A' <= u && u <= 'Z');
    }
}

/// Every glyph row uses only the low five bits, one per font column.
pub proof fn lemma_glyph_rows_fit(c: char)
    ensures
        forall|r: int| 0 <= r < FONT_ROWS ==> #[trigger] font_glyph(c)[r] < 32,
{
}

/// The characters that have a glyph of their own: upper-case letters,
/// digits, space, colon, hyphen and underscore.
pub open spec fn has_glyph(c: char) -> bool {
    ('A' <= c && c <= 'Z') || ('0' <= c && c <= '9') || c == ' ' || c == ':' || c == '-' || c == '_'
}

/// No two characters of the font look alike: a character with a glyph of
/// its own shares it with no other character, neither with another
/// character of the font nor with the question mark shown for characters
/// without one.
pub proof fn lemma_glyphs_distinct(a: char, b: char)
    requires
        has_glyph(a),
        a != b,
    ensures
        font_glyph(a) != font_glyph(b),
{
}

/// Font column 0 is the leftmost and is bit 4 (0x10) of a glyph row; column
/// 4 is the rightmost and is bit 0.
pub proof fn lemma_glyph_columns(b: u8)
    ensures
        glyph_bit(b, 0) <==> (b / 16) % 2 == 1,
        glyph_bit(b, 1) <==> (b / 8) % 2 == 1,
        glyph_bit(b, 2) <==> (b / 4) % 2 == 1,
        glyph_bit(b, 3) <==> (b / 2) % 2 == 1,
        glyph_bit(b, 4) <==> b % 2 == 1,
{
    assert(((b >> 4u32) & 1u8 == 1u8) <==> (b / 16) % 2 == 1) by (bit_vector);
    assert(((b >> 3u32) & 1u8 == 1u8) <==> (b / 8) % 2 == 1) by (bit_vector);
    assert(((b >> 2u32) & 1u8 == 1u8) <==> (b / 4) % 2 == 1) by (bit_vector);
    assert(((b >> 1u32) & 1u8 == 1u8) <==> (b / 2) % 2 == 1) by (bit_vector);
    assert(((b >> 0u32) & 1u8 == 1u8) <==> b % 2 == 1) by (bit_vector);
}

/// The font, row by row (each row's low five bits, the leftmost column in
/// bit 4): letters, digits, space, colon, hyphen, underscore, and the
/// question mark drawn for every other character.
pub proof fn lemma_font_table()
    ensures
        font_glyph('A') == [0x0Eu8, 0x11, 0x11, 0x1F, 0x11, 0x11, 0x11],
        font_glyph('B') == [0x1Eu8, 0x11, 0x11, 0x1E, 0x11, 0x11, 0x1E],
        font_glyph('C') == [0x0Eu8, 0x11, 0x10, 0x10, 0x10, 0x11, 0x0E],
        font_glyph('D') == [0x1Eu8, 0x11, 0x11, 0x11, 0x11, 0x11, 0x1E],
        font_glyph('E') == [0x1Fu8, 0x10, 0x10, 0x1E, 0x10, 0x10, 0x1F],
        font_glyph('F') == [0x1Fu8, 0x10, 0x10, 0x1E, 0x10, 0x10, 0x10],
        font_glyph('G') == [0x0Eu8, 0x10, 0x10, 0x17, 0x11, 0x11, 0x0E],
        font_glyph('H') == [0x11u8, 0x11, 0x11, 0x1F, 0x11, 0x11, 0x11],
        font_glyph('I') == [0x0Eu8, 0x04, 0x04, 0x04, 0x04, 0x04, 0x0E],
        font_glyph('J') == [0x07u8, 0x02, 0x02, 0x02, 0x02, 0x12, 0x0C],
        font_glyph('K') == [0x11u8, 0x12, 0x14, 0x18, 0x14, 0x12, 0x11],
        font_glyph('L') == [0x10u8, 0x10, 0x10, 0x10, 0x10, 0x10, 0x1F],
        font_glyph('M') == [0x11u8, 0x1B, 0x15, 0x11, 0x11, 0x11, 0x11],
        font_glyph('N') == [0x11u8, 0x19, 0x15, 0x13, 0x11, 0x11, 0x11],
        font_glyph('O') == [0x0Eu8, 0x11, 0x11, 0x11, 0x11, 0x11, 0x0E],
        font_glyph('P') == [0x1Eu8, 0x11, 0x11, 0x1E, 0x10, 0x10, 0x10],
        font_glyph('Q') == [0x0Eu8, 0x11, 0x11, 0x11, 0x15, 0x12, 0x0D],
        font_glyph('R') == [0x1Eu8, 0x11, 0x11, 0x1E, 0x14, 0x12, 0x11],
        font_glyph('S') == [0x0Eu8, 0x11, 0x10, 0x0E, 0x01, 0x11, 0x0E],
        font_glyph('T') == [0x1Fu8, 0x04, 0x04, 0x04, 0x04, 0x04, 0x04],
        font_glyph('U') == [0x11u8, 0x11, 0x11, 0x11, 0x11, 0x11, 0x0E],
        font_glyph('V') == [0x11u8, 0x11, 0x11, 0x11, 0x11, 0x0A, 0x04],
        font_glyph('W') == [0x11u8, 0x11, 0x11, 0x15, 0x15, 0x1B, 0x11],
        font_glyph('X') == [0x11u8, 0x11, 0x0A, 0x04, 0x0A, 0x11, 0x11],
        font_glyph('Y') == [0x11u8, 0x11, 0x0A, 0x04, 0x04, 0x04, 0x04],
        font_glyph('Z') == [0x1Fu8, 0x01, 0x02, 0x04, 0x08, 0x10, 0x1F],
        font_glyph('0') == [0x0Eu8, 0x11, 0x13, 0x15, 0x19, 0x11, 0x0E],
        font_glyph('1') == [0x04u8, 0x0C, 0x04, 0x04, 0x04, 0x04, 0x0E],
        font_glyph('2') == [0x0Eu8, 0x11, 0x01, 0x06, 0x08, 0x10, 0x1F],
        font_glyph('3') == [0x1Fu8, 0x02, 0x04, 0x06, 0x01, 0x11, 0x0E],
        font_glyph('4') == [0x02u8, 0x06, 0x0A, 0x12, 0x1F, 0x02, 0x02],
        font_glyph('5') == [0x1Fu8, 0x10, 0x1E, 0x01, 0x01, 0x11, 0x0E],
        font_glyph('6') == [0x06u8, 0x08, 0x10, 0x1E, 0x11, 0x11, 0x0E],
        font_glyph('7') == [0x1Fu8, 0x01, 0x02, 0x04, 0x08, 0x08, 0x08],
        font_glyph('8') == [0x0Eu8, 0x11, 0x11, 0x0E, 0x11, 0x11, 0x0E],
        font_glyph('9') == [0x0Eu8, 0x11, 0x11, 0x0F, 0x01, 0x02, 0x0C],
        font_glyph(' ') == [0x00u8, 0x00, 0x00, 0x00, 0x00, 0x00, 0x00],
        font_glyph(':') == [0x00u8, 0x04, 0x00, 0x00, 0x04, 0x00, 0x00],
        font_glyph('-') == [0x00u8, 0x00, 0x00, 0x1F, 0x00, 0x00, 0x00],
        font_glyph('_') == [0x00u8, 0x00, 0x00, 0x00, 0x00, 0x00, 0x1F],
        forall|c: char| !has_glyph(c) ==> #[trigger] font_glyph(c) == [0x0Eu8, 0x11, 0x01, 0x06, 0x04, 0x00, 0x04],
{
}

} // verus!
