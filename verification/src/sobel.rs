//! Image gradients with the standard 3×3 Sobel kernels.
use crate::convolution::{conv_at, conv_image, conv_row_sum, conv_rows_sum, conv_tap, convolve2d};
use vstd::prelude::*;

verus! {

/// The Sobel kernel for the horizontal derivative, row-major.
pub const SOBEL_GX: [i32; 9] = [-1, 0, 1, -2, 0, 2, -1, 0, 1];

/// The Sobel kernel for the vertical derivative, row-major.
pub const SOBEL_GY: [i32; 9] = [-1, -2, -1, 0, 0, 0, 1, 2, 1];

/// The horizontal and vertical derivatives of an image, row-major.
pub struct SobelOutput {
    /// The horizontal derivative `Gx`.
    pub gx: Vec<i128>,
    /// The vertical derivative `Gy`.
    pub gy: Vec<i128>,
}

/// The derivatives of a row-major `width × height` image: its convolutions
/// with the two Sobel kernels, with zero padding at the borders.
pub fn sobel_gradients(image: &[i32], width: usize, height: usize) -> (out: SobelOutput)
    requires
        image@.len() == width * height,
    ensures
        out.gx@ == conv_image(image@, width as int, height as int, SOBEL_GX@, 3, 3),
        out.gy@ == conv_image(image@, width as int, height as int, SOBEL_GY@, 3, 3),
{
    let kx = SOBEL_GX;
    let ky = SOBEL_GY;
    let gx = convolve2d(image, width, height, kx.as_slice(), 3, 3);
    let gy = convolve2d(image, width, height, ky.as_slice(), 3, 3);
    SobelOutput { gx, gy }
}


/// Both Sobel kernels see no gradient inside a flat image: at every pixel
/// off the one-pixel border of an image of constant value, both derivatives
/// are 0.
pub proof fn lemma_flat_image_has_no_gradient(image: Seq<i32>, width: int, height: int, c: i32, y: int, x: int)
    requires
        image.len() == width * height,
        forall|k: int| 0 <= k < image.len() ==> #[trigger] image[k] == c,
        1 <= y < height - 1,
        1 <= x < width - 1,
    ensures
        conv_at(image, width, height, SOBEL_GX@, 3, 3, y, x) == 0,
        conv_at(image, width, height, SOBEL_GY@, 3, 3, y, x) == 0,
{
    assert forall|ky: int, kx: int| 0 <= ky < 3 && 0 <= kx < 3 implies conv_tap(
        image,
        width,
        height,
        SOBEL_GX@,
        3,
        3,
        y,
        x,
        ky,
        kx,
    ) == c * SOBEL_GX@[ky * 3 + kx] && conv_tap(image, width, height, SOBEL_GY@, 3, 3, y, x, ky, kx) == c
        * SOBEL_GY@[ky * 3 + kx] by {
        crate::grid::lemma_grid_index(width, height, y + ky - 1, x + kx - 1);
    }
    reveal_with_fuel(conv_rows_sum, 4);
    reveal_with_fuel(conv_row_sum, 4);
    assert(SOBEL_GX@ =~= seq![-1i32, 0i32, 1i32, -2i32, 0i32, 2i32, -1i32, 0i32, 1i32]);
    assert(SOBEL_GY@ =~= seq![-1i32, -2i32, -1i32, 0i32, 0i32, 0i32, 1i32, 2i32, 1i32]);
    let gx = SOBEL_GX@;
    assert(conv_row_sum(image, width, height, gx, 3, 3, y, x, 0, 3) == c * -1 + c * 1);
    assert(conv_row_sum(image, width, height, gx, 3, 3, y, x, 1, 3) == c * -2 + c * 2);
    assert(conv_row_sum(image, width, height, gx, 3, 3, y, x, 2, 3) == c * -1 + c * 1);
    assert(conv_rows_sum(image, width, height, gx, 3, 3, y, x, 3) == 0);
}

/// The derivatives see changes, not levels: adding a constant `c` to every
/// pixel leaves both of them unchanged at every pixel off the one-pixel
/// border, since the weights of each Sobel kernel sum to 0.
pub proof fn lemma_gradient_ignores_brightness(
    image: Seq<i32>,
    brighter: Seq<i32>,
    width: int,
    height: int,
    c: int,
    y: int,
    x: int,
)
    requires
        image.len() == width * height,
        brighter.len() == image.len(),
        forall|k: int| 0 <= k < image.len() ==> #[trigger] brighter[k] == image[k] + c,
        1 <= y < height - 1,
        1 <= x < width - 1,
    ensures
        conv_at(brighter, width, height, SOBEL_GX@, 3, 3, y, x) == conv_at(image, width, height, SOBEL_GX@, 3, 3, y, x),
        conv_at(brighter, width, height, SOBEL_GY@, 3, 3, y, x) == conv_at(image, width, height, SOBEL_GY@, 3, 3, y, x),
{
    assert forall|kernel: Seq<i32>, ky: int, kx: int|
        0 <= ky < 3 && 0 <= kx < 3 && kernel.len() == 9 implies #[trigger] conv_tap(
        brighter,
        width,
        height,
        kernel,
        3,
        3,
        y,
        x,
        ky,
        kx,
    ) == conv_tap(image, width, height, kernel, 3, 3, y, x, ky, kx) + c * kernel[ky * 3 + kx] by {
        crate::grid::lemma_grid_index(width, height, y + ky - 1, x + kx - 1);
        let i = (y + ky - 1) * width + (x + kx - 1);
        let a = image[i] as int;
        let k = kernel[ky * 3 + kx] as int;
        assert((a + c) * k == a * k + c * k) by (nonlinear_arith);
    }
    reveal_with_fuel(conv_rows_sum, 4);
    reveal_with_fuel(conv_row_sum, 4);
    assert(SOBEL_GX@ =~= seq![-1i32, 0i32, 1i32, -2i32, 0i32, 2i32, -1i32, 0i32, 1i32]);
    assert(SOBEL_GY@ =~= seq![-1i32, -2i32, -1i32, 0i32, 0i32, 0i32, 1i32, 2i32, 1i32]);
    let gx = SOBEL_GX@;
    let gy = SOBEL_GY@;
    assert forall|ky: int| 0 <= ky < 3 implies conv_row_sum(brighter, width, height, gx, 3, 3, y, x, ky, 3)
        == conv_row_sum(image, width, height, gx, 3, 3, y, x, ky, 3) + c * (gx[ky * 3] + gx[ky * 3 + 1] + gx[ky
        * 3 + 2]) && conv_row_sum(brighter, width, height, gy, 3, 3, y, x, ky, 3) == conv_row_sum(
        image,
        width,
        height,
        gy,
        3,
        3,
        y,
        x,
        ky,
        3,
    ) + c * (gy[ky * 3] + gy[ky * 3 + 1] + gy[ky * 3 + 2]) by {
        assert(conv_tap(brighter, width, height, gx, 3, 3, y, x, ky, 0) == conv_tap(image, width, height, gx, 3, 3, y, x, ky, 0) + c * gx[ky * 3 + 0]);
        assert(conv_tap(brighter, width, height, gx, 3, 3, y, x, ky, 1) == conv_tap(image, width, height, gx, 3, 3, y, x, ky, 1) + c * gx[ky * 3 + 1]);
        assert(conv_tap(brighter, width, height, gx, 3, 3, y, x, ky, 2) == conv_tap(image, width, height, gx, 3, 3, y, x, ky, 2) + c * gx[ky * 3 + 2]);
        assert(conv_tap(brighter, width, height, gy, 3, 3, y, x, ky, 0) == conv_tap(image, width, height, gy, 3, 3, y, x, ky, 0) + c * gy[ky * 3 + 0]);
        assert(conv_tap(brighter, width, height, gy, 3, 3, y, x, ky, 1) == conv_tap(image, width, height, gy, 3, 3, y, x, ky, 1) + c * gy[ky * 3 + 1]);
        assert(conv_tap(brighter, width, height, gy, 3, 3, y, x, ky, 2) == conv_tap(image, width, height, gy, 3, 3, y, x, ky, 2) + c * gy[ky * 3 + 2]);
        assert(c * (gx[ky * 3] + gx[ky * 3 + 1] + gx[ky * 3 + 2]) == c * gx[ky * 3] + c * gx[ky * 3 + 1] + c * gx[ky * 3 + 2]) by (nonlinear_arith);
        assert(c * (gy[ky * 3] + gy[ky * 3 + 1] + gy[ky * 3 + 2]) == c * gy[ky * 3] + c * gy[ky * 3 + 1] + c * gy[ky * 3 + 2]) by (nonlinear_arith);
    }
    assert(conv_row_sum(brighter, width, height, gx, 3, 3, y, x, 0, 3) == conv_row_sum(image, width, height, gx, 3, 3, y, x, 0, 3));
    assert(conv_row_sum(brighter, width, height, gx, 3, 3, y, x, 1, 3) == conv_row_sum(image, width, height, gx, 3, 3, y, x, 1, 3));
    assert(conv_row_sum(brighter, width, height, gx, 3, 3, y, x, 2, 3) == conv_row_sum(image, width, height, gx, 3, 3, y, x, 2, 3));
    assert(conv_row_sum(brighter, width, height, gy, 3, 3, y, x, 0, 3) == conv_row_sum(image, width, height, gy, 3, 3, y, x, 0, 3) + c * -4);
    assert(conv_row_sum(brighter, width, height, gy, 3, 3, y, x, 1, 3) == conv_row_sum(image, width, height, gy, 3, 3, y, x, 1, 3));
    assert(conv_row_sum(brighter, width, height, gy, 3, 3, y, x, 2, 3) == conv_row_sum(image, width, height, gy, 3, 3, y, x, 2, 3) + c * 4);
}

} // verus!
