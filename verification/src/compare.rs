//! Side-by-side comparison panels: two greyscale images next to each other,
//! a grey separator strip between them, and a text label drawn on the right
//! panel.
use crate::font::{ascii_upper, char_bitmap, font_glyph, glyph_bit, FONT_COLS, FONT_ROWS};
use crate::gray::{gray_dims, gray_grid, height_of, pixel_of, width_of, GrayBuffer};
use vstd::prelude::*;

verus! {

/// Scale of the label glyphs: each font pixel becomes a 3×3 block.
pub const LABEL_SCALE: u32 = 3;

/// Margin, in pixels, between the label text and its backing box.
pub const LABEL_PADDING: u32 = 4;

/// Value of the separator strip between the two panels.
pub const GAP_GREY: u8 = 128;

/// The glyph drawn for a character of a label.
pub open spec fn char_glyph(c: char) -> [u8; 7] {
    font_glyph(ascii_upper(c))
}

/// `(x, y)` lies in the rectangle `[rx, rx + rw) × [ry, ry + rh)`.
pub open spec fn in_rect(x: u32, y: u32, rx: int, ry: int, rw: int, rh: int) -> bool {
    rx <= x < rx + rw && ry <= y < ry + rh
}

/// `grid` with every pixel of `region` set to `colour`.
pub open spec fn paint(
    grid: Map<(u32, u32), u8>,
    region: spec_fn(u32, u32) -> bool,
    colour: u8,
) -> Map<(u32, u32), u8> {
    Map::new(
        |p: (u32, u32)| grid.dom().contains(p),
        |p: (u32, u32)|
            if region(p.0, p.1) {
                colour
            } else {
                grid[p]
            },
    )
}

/// Font cell `(row, col)` of `bitmap`, drawn at `(x0, y0)` with each font
/// pixel a `scale × scale` block, is lit and its block holds `(x, y)`.
pub open spec fn cell_lit_at(
    bitmap: [u8; 7],
    x0: int,
    y0: int,
    scale: int,
    row: int,
    col: int,
    x: u32,
    y: u32,
) -> bool {
    &&& 0 <= row < FONT_ROWS
    &&& 0 <= col < FONT_COLS
    &&& glyph_bit(bitmap[row], col as u32)
    &&& in_rect(x, y, x0 + col * scale, y0 + row * scale, scale, scale)
}

/// The glyph `bitmap` drawn at `(x0, y0)` with the given scale lights `(x, y)`.
pub open spec fn glyph_covers(bitmap: [u8; 7], x0: int, y0: int, scale: int, x: u32, y: u32) -> bool {
    exists|row: int, col: int| #[trigger] cell_lit_at(bitmap, x0, y0, scale, row, col, x, y)
}

/// Horizontal advance from one character to the next: a glyph and a
/// one-column gap.
pub open spec fn char_advance(scale: int) -> int {
    (FONT_COLS + 1) * scale
}

/// Character `i` of `text`, drawn at its place in a line starting at
/// `(x0, y0)`, lights `(x, y)`.
pub open spec fn char_covers(text: Seq<char>, i: int, x0: int, y0: int, scale: int, x: u32, y: u32) -> bool {
    &&& 0 <= i < text.len()
    &&& glyph_covers(char_glyph(text[i]), x0 + i * char_advance(scale), y0, scale, x, y)
}

/// The line `text` drawn from `(x0, y0)` lights `(x, y)`.
pub open spec fn text_covers(text: Seq<char>, x0: int, y0: int, scale: int, x: u32, y: u32) -> bool {
    exists|i: int| #[trigger] char_covers(text, i, x0, y0, scale, x, y)
}

/// Width of the black box behind a label of `n` characters: the glyphs
/// without the gap after the last one, plus padding on both sides.
pub open spec fn label_box_width(n: int) -> int {
    n * char_advance(LABEL_SCALE as int) - LABEL_SCALE + 2 * LABEL_PADDING
}

/// Height of the black box behind a label.
pub open spec fn label_box_height() -> int {
    FONT_ROWS * LABEL_SCALE + 2 * LABEL_PADDING
}

/// `grid` with `src` laid over it, its top-left corner at `(ox, 0)`.
pub open spec fn overlay(grid: Map<(u32, u32), u8>, src: GrayBuffer, ox: int) -> Map<(u32, u32), u8> {
    Map::new(
        |p: (u32, u32)| grid.dom().contains(p),
        |p: (u32, u32)|
            if ox <= p.0 < ox + width_of(src) && p.1 < height_of(src) {
                pixel_of(src, (p.0 - ox) as u32, p.1)
            } else {
                grid[p]
            },
    )
}

/// Width of the panel made of `left`, a `gap`-wide strip and `right`.
pub open spec fn panel_width(left: GrayBuffer, right: GrayBuffer, gap: u32) -> int {
    width_of(left) + gap + width_of(right)
}

/// Height of the panel: that of the taller image.
pub open spec fn panel_height(left: GrayBuffer, right: GrayBuffer) -> int {
    if height_of(left) >= height_of(right) {
        height_of(left) as int
    } else {
        height_of(right) as int
    }
}

/// The value of pixel `(x, y)` of the panel: the label text in white over a
/// black box in the top-left corner of the right image, then the right
/// image, the left image, the grey strip between them, and black below the
/// shorter image.
pub open spec fn panel_pixel(left: GrayBuffer, right: GrayBuffer, label: Seq<char>, gap: u32, x: u32, y: u32) -> u8 {
    let rx = width_of(left) + gap;
    if text_covers(label, rx + LABEL_PADDING, LABEL_PADDING as int, LABEL_SCALE as int, x, y) {
        255
    } else if in_rect(x, y, rx, 0, label_box_width(label.len() as int), label_box_height()) {
        0
    } else if rx <= x < rx + width_of(right) && y < height_of(right) {
        pixel_of(right, (x - rx) as u32, y)
    } else if x < width_of(left) && y < height_of(left) {
        pixel_of(left, x, y)
    } else if width_of(left) <= x < rx {
        GAP_GREY
    } else {
        0
    }
}

/// Sets every pixel of `[x, x + w) × [y, y + h)` that lies in the image to
/// `colour`.
fn fill_rect(img: &mut GrayBuffer, x: u32, y: u32, w: u32, h: u32, colour: u8)
    requires
        x + w <= u32::MAX,
        y + h <= u32::MAX,
    ensures
        gray_dims(*final(img)) == gray_dims(*old(img)),
        gray_grid(*final(img)) == paint(
            gray_grid(*old(img)),
            |px: u32, py: u32| in_rect(px, py, x as int, y as int, w as int, h as int),
            colour,
        ),
{
    let ghost g0 = gray_grid(*img);
    let ghost dims = gray_dims(*img);
    let (iw, ih) = img.dimensions();
    let y_end: u32 = if y + h < ih { y + h } else { ih };
    let mut py: u32 = y;
    while py < y_end
        invariant
            y <= py,
            py <= y_end || py == y,
            y_end <= y + h,
            y_end <= ih,
            x + w <= u32::MAX,
            gray_dims(*img) == dims,
            (iw, ih) == (dims.0, dims.1),
            g0.dom() == Set::new(|p: (u32, u32)| p.0 < iw && p.1 < ih),
            gray_grid(*img) == paint(
                g0,
                |px: u32, py2: u32| in_rect(px, py2, x as int, y as int, w as int, py - y),
                colour,
            ),
        decreases y_end - py,
    {
        let x_end: u32 = if x + w < iw { x + w } else { iw };
        let mut px: u32 = x;
        while px < x_end
            invariant
                y <= py < y_end,
                y_end <= ih,
                x <= px,
                px <= x_end || px == x,
                x_end <= x + w,
                x_end <= iw,
                gray_dims(*img) == dims,
                (iw, ih) == (dims.0, dims.1),
                g0.dom() == Set::new(|p: (u32, u32)| p.0 < iw && p.1 < ih),
                gray_grid(*img) == paint(
                    g0,
                    |qx: u32, qy: u32|
                        in_rect(qx, qy, x as int, y as int, w as int, py - y) || (qy == py && x <= qx
                            < px),
                    colour,
                ),
            decreases x_end - px,
        {
            let ghost before = gray_grid(*img);
            img.put_pixel(px, py, colour);
            proof {
                let r2 = |qx: u32, qy: u32|
                    in_rect(qx, qy, x as int, y as int, w as int, py - y) || (qy == py && x <= qx < px
                        + 1);
                assert(gray_grid(*img) =~= paint(g0, r2, colour));
            }
            px = px + 1;
        }
        proof {
            let r1 = |qx: u32, qy: u32|
                in_rect(qx, qy, x as int, y as int, w as int, py - y) || (qy == py && x <= qx < px);
            let r2 = |px2: u32, py2: u32| in_rect(px2, py2, x as int, y as int, w as int, py + 1 - y);
            assert(paint(g0, r1, colour) =~= paint(g0, r2, colour));
        }
        py = py + 1;
    }
    proof {
        let r1 = |px2: u32, py2: u32| in_rect(px2, py2, x as int, y as int, w as int, py - y);
        let r2 = |px2: u32, py2: u32| in_rect(px2, py2, x as int, y as int, w as int, h as int);
        assert(paint(g0, r1, colour) =~= paint(g0, r2, colour));
    }
}


/// The cells of `bitmap` before `(row, col)` in row-major order that are lit
/// and hold `(x, y)`.
spec fn lit_before(bitmap: [u8; 7], x0: int, y0: int, scale: int, row: int, col: int, x: u32, y: u32) -> bool {
    exists|r: int, c: int|
        (r < row || (r == row && c < col)) && #[trigger] cell_lit_at(bitmap, x0, y0, scale, r, c, x, y)
}

proof fn lemma_lit_step(bitmap: [u8; 7], x0: int, y0: int, scale: int, row: int, col: int, x: u32, y: u32)
    requires
        0 <= row < FONT_ROWS,
        0 <= col < FONT_COLS,
    ensures
        lit_before(bitmap, x0, y0, scale, row, col + 1, x, y) == (lit_before(bitmap, x0, y0, scale, row, col, x, y)
            || (glyph_bit(bitmap[row], col as u32) && in_rect(x, y, x0 + col * scale, y0 + row * scale, scale, scale))),
{
    if lit_before(bitmap, x0, y0, scale, row, col + 1, x, y) {
        let (r, c) = choose|r: int, c: int|
            (r < row || (r == row && c < col + 1)) && #[trigger] cell_lit_at(bitmap, x0, y0, scale, r, c, x, y);
        if !(r == row && c == col) {
            assert(lit_before(bitmap, x0, y0, scale, row, col, x, y));
        }
    }
    if glyph_bit(bitmap[row], col as u32) && in_rect(x, y, x0 + col * scale, y0 + row * scale, scale, scale) {
        assert(cell_lit_at(bitmap, x0, y0, scale, row, col, x, y));
    }
    if lit_before(bitmap, x0, y0, scale, row, col, x, y) {
        let (r, c) = choose|r: int, c: int|
            (r < row || (r == row && c < col)) && #[trigger] cell_lit_at(bitmap, x0, y0, scale, r, c, x, y);
        assert(cell_lit_at(bitmap, x0, y0, scale, r, c, x, y));
    }
}

proof fn lemma_lit_next_row(bitmap: [u8; 7], x0: int, y0: int, scale: int, row: int, x: u32, y: u32)
    ensures
        lit_before(bitmap, x0, y0, scale, row, FONT_COLS as int, x, y) == lit_before(
            bitmap, x0, y0, scale, row + 1, 0, x, y),
{
    if lit_before(bitmap, x0, y0, scale, row, FONT_COLS as int, x, y) {
        let (r, c) = choose|r: int, c: int|
            (r < row || (r == row && c < FONT_COLS)) && #[trigger] cell_lit_at(bitmap, x0, y0, scale, r, c, x, y);
        assert(cell_lit_at(bitmap, x0, y0, scale, r, c, x, y));
    }
    if lit_before(bitmap, x0, y0, scale, row + 1, 0, x, y) {
        let (r, c) = choose|r: int, c: int|
            (r < row + 1 || (r == row + 1 && c < 0)) && #[trigger] cell_lit_at(bitmap, x0, y0, scale, r, c, x, y);
        assert(cell_lit_at(bitmap, x0, y0, scale, r, c, x, y));
    }
}

proof fn lemma_lit_all(bitmap: [u8; 7], x0: int, y0: int, scale: int, x: u32, y: u32)
    ensures
        lit_before(bitmap, x0, y0, scale, FONT_ROWS as int, 0, x, y) == glyph_covers(bitmap, x0, y0, scale, x, y),
{
    if glyph_covers(bitmap, x0, y0, scale, x, y) {
        let (r, c) = choose|r: int, c: int| #[trigger] cell_lit_at(bitmap, x0, y0, scale, r, c, x, y);
        assert(cell_lit_at(bitmap, x0, y0, scale, r, c, x, y));
    }
    if lit_before(bitmap, x0, y0, scale, FONT_ROWS as int, 0, x, y) {
        let (r, c) = choose|r: int, c: int|
            (r < FONT_ROWS || (r == FONT_ROWS && c < 0)) && #[trigger] cell_lit_at(bitmap, x0, y0, scale, r, c, x, y);
        assert(cell_lit_at(bitmap, x0, y0, scale, r, c, x, y));
    }
}

/// Draws character `c` with its top-left corner at `(x0, y0)`, each font
/// pixel a `scale × scale` block of `colour`, clipped to the image.
fn draw_char(img: &mut GrayBuffer, x0: u32, y0: u32, c: char, scale: u32, colour: u8)
    requires
        x0 + FONT_COLS * scale <= u32::MAX,
        y0 + FONT_ROWS * scale <= u32::MAX,
    ensures
        gray_dims(*final(img)) == gray_dims(*old(img)),
        gray_grid(*final(img)) == paint(
            gray_grid(*old(img)),
            |x: u32, y: u32| glyph_covers(char_glyph(c), x0 as int, y0 as int, scale as int, x, y),
            colour,
        ),
{
    let ghost g0 = gray_grid(*img);
    let ghost dims = gray_dims(*img);
    let bitmap = char_bitmap(c);
    let ghost s = scale as int;
    let ghost gx = x0 as int;
    let ghost gy = y0 as int;
    let mut row: usize = 0;
    while row < 7
        invariant
            0 <= row <= 7,
            bitmap == char_glyph(c),
            x0 + FONT_COLS * scale <= u32::MAX,
            y0 + FONT_ROWS * scale <= u32::MAX,
            s == scale,
            gx == x0,
            gy == y0,
            gray_dims(*img) == dims,
            gray_grid(*img) == paint(
                g0,
                |x: u32, y: u32| lit_before(bitmap, gx, gy, s, row as int, 0, x, y),
                colour,
            ),
        decreases 7 - row,
    {
        let bits: u8 = bitmap[row];
        let mut col: u32 = 0;
        while col < FONT_COLS
            invariant
                0 <= row < 7,
                0 <= col <= FONT_COLS,
                bits == bitmap[row as int],
                x0 + FONT_COLS * scale <= u32::MAX,
                y0 + FONT_ROWS * scale <= u32::MAX,
                s == scale,
                gx == x0,
                gy == y0,
                gray_dims(*img) == dims,
                gray_grid(*img) == paint(
                    g0,
                    |x: u32, y: u32| lit_before(bitmap, gx, gy, s, row as int, col as int, x, y),
                    colour,
                ),
            decreases FONT_COLS - col,
        {
            let on = (bits >> (FONT_COLS - 1 - col)) & 1 == 1;
            assert(on == glyph_bit(bitmap[row as int], col));
            let ghost bx = gx + col * s;
            let ghost by = gy + row * s;
            assert(col * scale <= 4 * scale) by (nonlinear_arith)
                requires
                    col < 5,
            ;
            assert(row * scale <= 6 * scale) by (nonlinear_arith)
                requires
                    row < 7,
            ;
            if on {
                let mut dy: u32 = 0;
                while dy < scale
                    invariant
                        0 <= row < 7,
                        0 <= col < FONT_COLS,
                        dy <= scale,
                        x0 + FONT_COLS * scale <= u32::MAX,
                        y0 + FONT_ROWS * scale <= u32::MAX,
                        col * scale <= 4 * scale,
                        row * scale <= 6 * scale,
                        s == scale,
                        gx == x0,
                        gy == y0,
                        bx == gx + col * s,
                        by == gy + row * s,
                        gray_dims(*img) == dims,
                        gray_grid(*img) == paint(
                            g0,
                            |x: u32, y: u32|
                                lit_before(bitmap, gx, gy, s, row as int, col as int, x, y) || in_rect(
                                    x,
                                    y,
                                    bx,
                                    by,
                                    s,
                                    dy as int,
                                ),
                            colour,
                        ),
                    decreases scale - dy,
                {
                    let mut dx: u32 = 0;
                    while dx < scale
                        invariant
                            0 <= row < 7,
                            0 <= col < FONT_COLS,
                            dy < scale,
                            dx <= scale,
                            x0 + FONT_COLS * scale <= u32::MAX,
                            y0 + FONT_ROWS * scale <= u32::MAX,
                            col * scale <= 4 * scale,
                            row * scale <= 6 * scale,
                            s == scale,
                            gx == x0,
                            gy == y0,
                            bx == gx + col * s,
                            by == gy + row * s,
                            gray_dims(*img) == dims,
                            gray_grid(*img) == paint(
                                g0,
                                |x: u32, y: u32|
                                    lit_before(bitmap, gx, gy, s, row as int, col as int, x, y) || in_rect(
                                        x,
                                        y,
                                        bx,
                                        by,
                                        s,
                                        dy as int,
                                    ) || in_rect(x, y, bx, by + dy, dx as int, 1),
                                colour,
                            ),
                        decreases scale - dx,
                    {
                        let px: u32 = x0 + col * scale + dx;
                        let py: u32 = y0 + row as u32 * scale + dy;
                        let (iw, ih) = img.dimensions();
                        if px < iw && py < ih {
                            img.put_pixel(px, py, colour);
                        }
                        proof {
                            let r2 = |x: u32, y: u32|
                                lit_before(bitmap, gx, gy, s, row as int, col as int, x, y) || in_rect(
                                    x,
                                    y,
                                    bx,
                                    by,
                                    s,
                                    dy as int,
                                ) || in_rect(x, y, bx, by + dy, dx + 1, 1);
                            assert(gray_grid(*img) =~= paint(g0, r2, colour));
                        }
                        dx = dx + 1;
                    }
                    proof {
                        let r1 = |x: u32, y: u32|
                            lit_before(bitmap, gx, gy, s, row as int, col as int, x, y) || in_rect(
                                x,
                                y,
                                bx,
                                by,
                                s,
                                dy as int,
                            ) || in_rect(x, y, bx, by + dy, dx as int, 1);
                        let r2 = |x: u32, y: u32|
                            lit_before(bitmap, gx, gy, s, row as int, col as int, x, y) || in_rect(
                                x,
                                y,
                                bx,
                                by,
                                s,
                                dy + 1,
                            );
                        assert(paint(g0, r1, colour) =~= paint(g0, r2, colour));
                    }
                    dy = dy + 1;
                }
            }
            proof {
                let r2 = |x: u32, y: u32| lit_before(bitmap, gx, gy, s, row as int, col + 1, x, y);
                assert forall|x: u32, y: u32|
                    #![trigger lit_before(bitmap, gx, gy, s, row as int, col + 1, x, y)]
                    lit_before(bitmap, gx, gy, s, row as int, col + 1, x, y) == (lit_before(
                        bitmap,
                        gx,
                        gy,
                        s,
                        row as int,
                        col as int,
                        x,
                        y,
                    ) || (on && in_rect(x, y, bx, by, s, s))) by {
                    lemma_lit_step(bitmap, gx, gy, s, row as int, col as int, x, y);
                }
                assert(gray_grid(*img) =~= paint(g0, r2, colour));
            }
            col = col + 1;
        }
        proof {
            let r2 = |x: u32, y: u32| lit_before(bitmap, gx, gy, s, row + 1, 0, x, y);
            assert forall|x: u32, y: u32|
                #![trigger lit_before(bitmap, gx, gy, s, row + 1, 0, x, y)]
                lit_before(bitmap, gx, gy, s, row as int, FONT_COLS as int, x, y) == lit_before(
                    bitmap,
                    gx,
                    gy,
                    s,
                    row + 1,
                    0,
                    x,
                    y,
                ) by {
                lemma_lit_next_row(bitmap, gx, gy, s, row as int, x, y);
            }
            assert(gray_grid(*img) =~= paint(g0, r2, colour));
        }
        row = row + 1;
    }
    proof {
        let r2 = |x: u32, y: u32| glyph_covers(char_glyph(c), gx, gy, s, x, y);
        assert forall|x: u32, y: u32|
            #![trigger glyph_covers(char_glyph(c), gx, gy, s, x, y)]
            lit_before(bitmap, gx, gy, s, 7, 0, x, y) == glyph_covers(char_glyph(c), gx, gy, s, x, y) by {
            lemma_lit_all(bitmap, gx, gy, s, x, y);
        }
        assert(gray_grid(*img) =~= paint(g0, r2, colour));
    }
}


/// Some character before index `i` of `text` lights `(x, y)`.
spec fn chars_before(text: Seq<char>, i: int, x0: int, y0: int, scale: int, x: u32, y: u32) -> bool {
    exists|j: int| j < i && #[trigger] char_covers(text, j, x0, y0, scale, x, y)
}

/// Draws `text` on one line from `(x0, y0)`, each glyph followed by a
/// one-column gap, clipped to the image.
fn draw_text(img: &mut GrayBuffer, x0: u32, y0: u32, text: &str, scale: u32, colour: u8)
    requires
        0 < scale,
        x0 + text@.len() * char_advance(scale as int) <= u32::MAX,
        (FONT_COLS + 1) * scale <= u32::MAX,
        y0 + FONT_ROWS * scale <= u32::MAX,
    ensures
        gray_dims(*final(img)) == gray_dims(*old(img)),
        gray_grid(*final(img)) == paint(
            gray_grid(*old(img)),
            |x: u32, y: u32| text_covers(text@, x0 as int, y0 as int, scale as int, x, y),
            colour,
        ),
{
    let ghost g0 = gray_grid(*img);
    let ghost dims = gray_dims(*img);
    let ghost t = text@;
    let ghost s = scale as int;
    let ghost gx = x0 as int;
    let ghost gy = y0 as int;
    let char_stride: u32 = (FONT_COLS + 1) * scale;
    let n: usize = text.unicode_len();
    let mut i: usize = 0;
    while i < n
        invariant
            0 < scale,
            n == t.len(),
            t == text@,
            i <= n,
            s == scale,
            gx == x0,
            gy == y0,
            char_stride == char_advance(s),
            x0 + n * char_advance(s) <= u32::MAX,
            y0 + FONT_ROWS * scale <= u32::MAX,
            gray_dims(*img) == dims,
            gray_grid(*img) == paint(
                g0,
                |x: u32, y: u32| chars_before(t, i as int, gx, gy, s, x, y),
                colour,
            ),
        decreases n - i,
    {
        let c = text.get_char(i);
        assert(i * char_stride + FONT_COLS * scale <= n * char_stride) by (nonlinear_arith)
            requires
                i < n,
                char_stride == 6 * scale,
                0 < scale,
        ;
        assert(n <= n * char_stride) by (nonlinear_arith)
            requires
                char_stride >= 1,
        ;
        assert((i as u32) as int == i as int);
        let cx: u32 = x0 + i as u32 * char_stride;
        draw_char(img, cx, y0, c, scale, colour);
        proof {
            let r2 = |x: u32, y: u32| chars_before(t, i + 1, gx, gy, s, x, y);
            assert forall|x: u32, y: u32|
                #![trigger chars_before(t, i + 1, gx, gy, s, x, y)]
                chars_before(t, i + 1, gx, gy, s, x, y) == (chars_before(t, i as int, gx, gy, s, x, y)
                    || glyph_covers(char_glyph(c), cx as int, gy, s, x, y)) by {
                if chars_before(t, i + 1, gx, gy, s, x, y) {
                    let j = choose|j: int| j < i + 1 && #[trigger] char_covers(t, j, gx, gy, s, x, y);
                    if j < i {
                        assert(chars_before(t, i as int, gx, gy, s, x, y));
                    }
                }
                if glyph_covers(char_glyph(c), cx as int, gy, s, x, y) {
                    assert(char_covers(t, i as int, gx, gy, s, x, y));
                }
            }
            assert(gray_grid(*img) =~= paint(g0, r2, colour));
        }
        i = i + 1;
    }
    proof {
        let r2 = |x: u32, y: u32| text_covers(t, gx, gy, s, x, y);
        assert forall|x: u32, y: u32|
            #![trigger text_covers(t, gx, gy, s, x, y)]
            chars_before(t, i as int, gx, gy, s, x, y) == text_covers(t, gx, gy, s, x, y) by {
            if text_covers(t, gx, gy, s, x, y) {
                let j = choose|j: int| #[trigger] char_covers(t, j, gx, gy, s, x, y);
                assert(chars_before(t, i as int, gx, gy, s, x, y));
            }
        }
        assert(gray_grid(*img) =~= paint(g0, r2, colour));
    }
}


/// `grid` with the rows before `y`, and the first `x` pixels of row `y`, of
/// `src` laid over it at `(ox, 0)`.
spec fn overlay_prefix(grid: Map<(u32, u32), u8>, src: GrayBuffer, ox: int, y: int, x: int) -> Map<(u32, u32), u8> {
    Map::new(
        |p: (u32, u32)| grid.dom().contains(p),
        |p: (u32, u32)|
            if ox <= p.0 < ox + width_of(src) && (p.1 < y || (p.1 == y && p.0 < ox + x)) {
                pixel_of(src, (p.0 - ox) as u32, p.1)
            } else {
                grid[p]
            },
    )
}

/// Copies every pixel of `src` into `out`, `src`'s top-left corner at `(ox, 0)`.
fn copy_panel(out: &mut GrayBuffer, src: &GrayBuffer, ox: u32)
    requires
        ox + width_of(*src) <= width_of(*old(out)),
        height_of(*src) <= height_of(*old(out)),
    ensures
        gray_dims(*final(out)) == gray_dims(*old(out)),
        gray_grid(*final(out)) == overlay(gray_grid(*old(out)), *src, ox as int),
{
    let ghost g0 = gray_grid(*out);
    let ghost dims = gray_dims(*out);
    let (sw, sh) = src.dimensions();
    let (ow, oh) = out.dimensions();
    let mut y: u32 = 0;
    while y < sh
        invariant
            y <= sh,
            (sw, sh) == (width_of(*src), height_of(*src)),
            (ow, oh) == (dims.0, dims.1),
            ox + sw <= ow,
            sh <= oh,
            gray_dims(*out) == dims,
            g0.dom() == Set::new(|p: (u32, u32)| p.0 < ow && p.1 < oh),
            gray_grid(*out) == overlay_prefix(g0, *src, ox as int, y as int, 0),
        decreases sh - y,
    {
        let mut x: u32 = 0;
        while x < sw
            invariant
                y < sh,
                x <= sw,
                (sw, sh) == (width_of(*src), height_of(*src)),
                (ow, oh) == (dims.0, dims.1),
                ox + sw <= ow,
                sh <= oh,
                gray_dims(*out) == dims,
                g0.dom() == Set::new(|p: (u32, u32)| p.0 < ow && p.1 < oh),
                gray_grid(*out) == overlay_prefix(g0, *src, ox as int, y as int, x as int),
            decreases sw - x,
        {
            let v: u8 = src.get_pixel(x, y);
            out.put_pixel(ox + x, y, v);
            assert(gray_grid(*out) =~= overlay_prefix(g0, *src, ox as int, y as int, x + 1));
            x = x + 1;
        }
        assert(overlay_prefix(g0, *src, ox as int, y as int, x as int) =~= overlay_prefix(
            g0,
            *src,
            ox as int,
            y + 1,
            0,
        ));
        y = y + 1;
    }
    assert(overlay_prefix(g0, *src, ox as int, y as int, 0) =~= overlay(g0, *src, ox as int));
}

/// Places `left` and `right` side by side, `gap` pixels apart, and labels
/// the right image.
///
/// The result is `left.width + gap + right.width` wide and as tall as the
/// taller image.  Both images are top-aligned; the strip between them is
/// mid-grey (128) and the area below the shorter image is black.  `label` is
/// drawn in white at 3× scale in the top-left corner of the right image,
/// over a black box that reaches 4 pixels past the text on every side.
pub fn place_side_by_side(left: &GrayBuffer, right: &GrayBuffer, label: &str, gap: u32) -> (out: GrayBuffer)
    requires
        1 <= label@.len(),
        panel_width(*left, *right, gap) <= u32::MAX,
        width_of(*left) + gap + label@.len() * char_advance(LABEL_SCALE as int) + 2 * LABEL_PADDING
            - LABEL_SCALE <= u32::MAX,
        panel_width(*left, *right, gap) * panel_height(*left, *right) <= usize::MAX,
    ensures
        gray_dims(out) == (
            panel_width(*left, *right, gap) as u32,
            panel_height(*left, *right) as u32,
            (panel_width(*left, *right, gap) * panel_height(*left, *right)) as nat,
        ),
        gray_grid(out) == Map::new(
            |p: (u32, u32)| p.0 < panel_width(*left, *right, gap) && p.1 < panel_height(*left, *right),
            |p: (u32, u32)| panel_pixel(*left, *right, label@, gap, p.0, p.1),
        ),
{
    let (lw, lh) = left.dimensions();
    let (rw, rh) = right.dimensions();

    let out_w: u32 = lw + gap + rw;
    let out_h: u32 = if lh >= rh { lh } else { rh };

    let mut out = GrayBuffer::new(out_w, out_h);

    // Separator strip.
    fill_rect(&mut out, lw, 0, gap, out_h, GAP_GREY);

    // Left panel, then right panel.
    copy_panel(&mut out, left, 0);
    let rx: u32 = lw + gap;
    copy_panel(&mut out, right, rx);

    // Label: black backing box, then white text.
    let n: usize = label.unicode_len();
    assert(FONT_COLS == 5 && LABEL_SCALE == 3);
    assert(char_advance(LABEL_SCALE as int) == 18);
    assert(label@.len() * char_advance(LABEL_SCALE as int) == label@.len() * 18);
    assert(n * 18 <= u32::MAX);
    let n_chars: u32 = n as u32;
    let char_stride: u32 = (FONT_COLS + 1) * LABEL_SCALE;
    assert(n_chars == n && char_stride == 18);
    assert(n_chars * char_stride >= 18) by (nonlinear_arith)
        requires
            n_chars >= 1,
            char_stride == 18,
    ;
    let text_w: u32 = n_chars * char_stride - LABEL_SCALE;
    let text_h: u32 = FONT_ROWS * LABEL_SCALE;
    let box_x: u32 = rx;
    let box_y: u32 = 0;
    let box_w: u32 = text_w + LABEL_PADDING * 2;
    let box_h: u32 = text_h + LABEL_PADDING * 2;
    fill_rect(&mut out, box_x, box_y, box_w, box_h, 0);
    draw_text(&mut out, box_x + LABEL_PADDING, box_y + LABEL_PADDING, label, LABEL_SCALE, 255);
    proof {
        let target = Map::new(
            |p: (u32, u32)| p.0 < panel_width(*left, *right, gap) && p.1 < panel_height(*left, *right),
            |p: (u32, u32)| panel_pixel(*left, *right, label@, gap, p.0, p.1),
        );
        assert(gray_grid(out) =~= target);
    }
    out
}

/// Places `predicted` on the left and the ground truth `gt` on the right,
/// 8 pixels apart, with the right image labelled "GT".
pub fn compare_with_gt(predicted: &GrayBuffer, gt: &GrayBuffer) -> (out: GrayBuffer)
    requires
        panel_width(*predicted, *gt, 8) <= u32::MAX,
        width_of(*predicted) + 8 + 2 * char_advance(LABEL_SCALE as int) + 2 * LABEL_PADDING - LABEL_SCALE
            <= u32::MAX,
        panel_width(*predicted, *gt, 8) * panel_height(*predicted, *gt) <= usize::MAX,
    ensures
        gray_dims(out) == (
            panel_width(*predicted, *gt, 8) as u32,
            panel_height(*predicted, *gt) as u32,
            (panel_width(*predicted, *gt, 8) * panel_height(*predicted, *gt)) as nat,
        ),
        gray_grid(out) == Map::new(
            |p: (u32, u32)| p.0 < panel_width(*predicted, *gt, 8) && p.1 < panel_height(*predicted, *gt),
            |p: (u32, u32)| panel_pixel(*predicted, *gt, seq!['G', 'T'], 8, p.0, p.1),
        ),
{
    proof {
        reveal_strlit("GT");
        assert("GT"@ =~= seq!['G', 'T']);
    }
    place_side_by_side(predicted, gt, "GT", 8)
}


/// The label lights no pixel left of `x0`.
proof fn lemma_text_right_of(text: Seq<char>, x0: int, y0: int, scale: int, x: u32, y: u32)
    requires
        0 <= scale,
        x < x0,
    ensures
        !text_covers(text, x0, y0, scale, x, y),
{
    if text_covers(text, x0, y0, scale, x, y) {
        let i = choose|i: int| #[trigger] char_covers(text, i, x0, y0, scale, x, y);
        let g = char_glyph(text[i]);
        let (r, c) = choose|r: int, c: int| #[trigger] cell_lit_at(g, x0 + i * char_advance(scale), y0, scale, r, c, x, y);
        assert(0 <= i * char_advance(scale)) by (nonlinear_arith)
            requires
                0 <= i,
                0 <= scale,
        ;
        assert(0 <= c * scale) by (nonlinear_arith)
            requires
                0 <= c,
                0 <= scale,
        ;
    }
}

/// The label lights only pixels inside its black backing box.
proof fn lemma_text_inside_box(label: Seq<char>, rx: int, x: u32, y: u32)
    requires
        text_covers(label, rx + LABEL_PADDING, LABEL_PADDING as int, LABEL_SCALE as int, x, y),
    ensures
        in_rect(x, y, rx, 0, label_box_width(label.len() as int), label_box_height()),
{
    let s = LABEL_SCALE as int;
    let x0 = rx + LABEL_PADDING;
    let y0 = LABEL_PADDING as int;
    let i = choose|i: int| #[trigger] char_covers(label, i, x0, y0, s, x, y);
    let g = char_glyph(label[i]);
    let (r, c) = choose|r: int, c: int| #[trigger] cell_lit_at(g, x0 + i * char_advance(s), y0, s, r, c, x, y);
    assert(i * 18 + 18 <= label.len() * 18) by (nonlinear_arith)
        requires
            0 <= i < label.len(),
    ;
}

/// Every pixel of the left image keeps its value in the panel.
pub proof fn lemma_left_image_kept(left: GrayBuffer, right: GrayBuffer, label: Seq<char>, gap: u32, x: u32, y: u32)
    requires
        x < width_of(left),
        y < height_of(left),
    ensures
        panel_pixel(left, right, label, gap, x, y) == pixel_of(left, x, y),
{
    lemma_text_right_of(label, width_of(left) + gap + LABEL_PADDING, LABEL_PADDING as int, LABEL_SCALE as int, x, y);
}

/// The strip between the two images is mid-grey from top to bottom.
pub proof fn lemma_gap_is_grey(left: GrayBuffer, right: GrayBuffer, label: Seq<char>, gap: u32, x: u32, y: u32)
    requires
        width_of(left) <= x < width_of(left) + gap,
    ensures
        panel_pixel(left, right, label, gap, x, y) == GAP_GREY,
{
    lemma_text_right_of(label, width_of(left) + gap + LABEL_PADDING, LABEL_PADDING as int, LABEL_SCALE as int, x, y);
}

/// Every pixel of the right image outside the label box keeps its value in
/// the panel, shifted right by the left image and the gap.
pub proof fn lemma_right_image_kept(left: GrayBuffer, right: GrayBuffer, label: Seq<char>, gap: u32, x: u32, y: u32)
    requires
        x < width_of(right),
        y < height_of(right),
        !in_rect(x, y, 0, 0, label_box_width(label.len() as int), label_box_height()),
        width_of(left) + gap + x <= u32::MAX,
    ensures
        panel_pixel(left, right, label, gap, (width_of(left) + gap + x) as u32, y) == pixel_of(right, x, y),
{
    let rx = width_of(left) + gap;
    let px = (rx + x) as u32;
    if text_covers(label, rx + LABEL_PADDING, LABEL_PADDING as int, LABEL_SCALE as int, px, y) {
        lemma_text_inside_box(label, rx, px, y);
    }
}

/// Below the shorter image the panel is black, outside the label.
pub proof fn lemma_below_left_is_black(left: GrayBuffer, right: GrayBuffer, label: Seq<char>, gap: u32, x: u32, y: u32)
    requires
        x < width_of(left),
        height_of(left) <= y,
    ensures
        panel_pixel(left, right, label, gap, x, y) == 0,
{
    lemma_text_right_of(label, width_of(left) + gap + LABEL_PADDING, LABEL_PADDING as int, LABEL_SCALE as int, x, y);
}


/// Below the shorter image the panel is black, outside the label.
pub proof fn lemma_below_right_is_black(left: GrayBuffer, right: GrayBuffer, label: Seq<char>, gap: u32, x: u32, y: u32)
    requires
        x < width_of(right),
        height_of(right) <= y,
        !in_rect(x, y, 0, 0, label_box_width(label.len() as int), label_box_height()),
        width_of(left) + gap + x <= u32::MAX,
    ensures
        panel_pixel(left, right, label, gap, (width_of(left) + gap + x) as u32, y) == 0,
{
    let rx = width_of(left) + gap;
    let px = (rx + x) as u32;
    if text_covers(label, rx + LABEL_PADDING, LABEL_PADDING as int, LABEL_SCALE as int, px, y) {
        lemma_text_inside_box(label, rx, px, y);
    }
}

/// Every character of the label is drawn: each lit cell `(row, col)` of the
/// glyph of character `i` is a white 3×3 block of the panel, at
/// `(rx + 4 + 18 i + 3 col, 4 + 3 row)` where `rx` is the left edge of the
/// right image.
pub proof fn lemma_every_label_character_is_drawn(
    left: GrayBuffer,
    right: GrayBuffer,
    label: Seq<char>,
    gap: u32,
    i: int,
    row: int,
    col: int,
    dx: int,
    dy: int,
)
    requires
        0 <= i < label.len(),
        0 <= row < 7,
        0 <= col < 5,
        glyph_bit(char_glyph(label[i])[row], col as u32),
        0 <= dx < 3,
        0 <= dy < 3,
        width_of(left) + gap + 4 + 18 * i + 3 * col + dx <= u32::MAX,
    ensures
        panel_pixel(
            left,
            right,
            label,
            gap,
            (width_of(left) + gap + 4 + 18 * i + 3 * col + dx) as u32,
            (4 + 3 * row + dy) as u32,
        ) == 255,
{
    let x = (width_of(left) + gap + 4 + 18 * i + 3 * col + dx) as u32;
    let y = (4 + 3 * row + dy) as u32;
    let x0 = width_of(left) + gap + LABEL_PADDING;
    assert(char_advance(LABEL_SCALE as int) == 18);
    assert(cell_lit_at(char_glyph(label[i]), x0 + i * 18, LABEL_PADDING as int, LABEL_SCALE as int, row, col, x, y));
    assert(glyph_covers(char_glyph(label[i]), x0 + i * char_advance(LABEL_SCALE as int), LABEL_PADDING as int, LABEL_SCALE as int, x, y));
    assert(char_covers(label, i, x0, LABEL_PADDING as int, LABEL_SCALE as int, x, y));
}

} // verus!
