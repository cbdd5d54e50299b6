//! Two-dimensional discrete convolution of a single-channel image, with
//! zero padding around the borders.
//!
//! Samples and kernel weights are integers and sums are exact: the result at
//! every pixel is the mathematical sum of its taps.
use rayon::iter::{IndexedParallelIterator, IntoParallelRefMutIterator, ParallelIterator};
use vstd::prelude::*;

verus! {

/// Tap `(ky, kx)` of the kernel centred on pixel `(x, y)`: the kernel weight
/// times the image sample under it, or 0 where the kernel reaches past the
/// image border.
pub open spec fn conv_tap(
    image: Seq<i32>,
    width: int,
    height: int,
    kernel: Seq<i32>,
    kw: int,
    kh: int,
    y: int,
    x: int,
    ky: int,
    kx: int,
) -> int {
    let iy = y + ky - kh / 2;
    let ix = x + kx - kw / 2;
    if 0 <= iy < height && 0 <= ix < width {
        image[iy * width + ix] * kernel[ky * kw + kx]
    } else {
        0
    }
}

/// The sum of the first `n` taps of kernel row `ky`.
pub open spec fn conv_row_sum(
    image: Seq<i32>,
    width: int,
    height: int,
    kernel: Seq<i32>,
    kw: int,
    kh: int,
    y: int,
    x: int,
    ky: int,
    n: int,
) -> int
    decreases n,
{
    if n <= 0 {
        0
    } else {
        conv_row_sum(image, width, height, kernel, kw, kh, y, x, ky, n - 1) + conv_tap(
            image,
            width,
            height,
            kernel,
            kw,
            kh,
            y,
            x,
            ky,
            n - 1,
        )
    }
}

/// The sum of all taps of the first `m` kernel rows.
pub open spec fn conv_rows_sum(
    image: Seq<i32>,
    width: int,
    height: int,
    kernel: Seq<i32>,
    kw: int,
    kh: int,
    y: int,
    x: int,
    m: int,
) -> int
    decreases m,
{
    if m <= 0 {
        0
    } else {
        conv_rows_sum(image, width, height, kernel, kw, kh, y, x, m - 1) + conv_row_sum(
            image,
            width,
            height,
            kernel,
            kw,
            kh,
            y,
            x,
            m - 1,
            kw,
        )
    }
}

/// The convolution at pixel `(x, y)`: the sum of all its taps.
pub open spec fn conv_at(
    image: Seq<i32>,
    width: int,
    height: int,
    kernel: Seq<i32>,
    kw: int,
    kh: int,
    y: int,
    x: int,
) -> int {
    conv_rows_sum(image, width, height, kernel, kw, kh, y, x, kh)
}

/// The convolved image, in row-major order.
pub open spec fn conv_image(image: Seq<i32>, width: int, height: int, kernel: Seq<i32>, kw: int, kh: int) -> Seq<i128> {
    Seq::new(
        (width * height) as nat,
        |i: int| conv_at(image, width, height, kernel, kw, kh, i / width, i % width) as i128,
    )
}

/// No tap is larger in magnitude than `2^62`.
proof fn lemma_tap_bound(
    image: Seq<i32>,
    width: int,
    height: int,
    kernel: Seq<i32>,
    kw: int,
    kh: int,
    y: int,
    x: int,
    ky: int,
    kx: int,
)
    ensures
        -0x4000_0000_0000_0000 <= conv_tap(image, width, height, kernel, kw, kh, y, x, ky, kx)
            <= 0x4000_0000_0000_0000,
{
    let iy = y + ky - kh / 2;
    let ix = x + kx - kw / 2;
    if 0 <= iy < height && 0 <= ix < width {
        let a = image[iy * width + ix] as int;
        let b = kernel[ky * kw + kx] as int;
        assert(-0x4000_0000_0000_0000 <= a * b <= 0x4000_0000_0000_0000) by (nonlinear_arith)
            requires
                -0x8000_0000 <= a <= 0x7fff_ffff,
                -0x8000_0000 <= b <= 0x7fff_ffff,
        ;
    }
}

/// The convolution at pixel number `pixel_idx` of the row-major image.
pub fn convolve_pixel(
    image: &[i32],
    width: usize,
    height: usize,
    kernel: &[i32],
    kw: usize,
    kh: usize,
    pixel_idx: usize,
) -> (v: i128)
    requires
        image@.len() == width * height,
        kernel@.len() == kw * kh,
        pixel_idx < width * height,
    ensures
        v == conv_at(
            image@,
            width as int,
            height as int,
            kernel@,
            kw as int,
            kh as int,
            pixel_idx as int / width as int,
            pixel_idx as int % width as int,
        ),
{
    let ghost img = image@;
    let ghost ker = kernel@;
    let ghost w = width as int;
    let ghost h = height as int;
    let image_len: usize = image.len();
    let kernel_len: usize = kernel.len();
    let half_kw: usize = kw / 2;
    let half_kh: usize = kh / 2;
    let y: usize = pixel_idx / width;
    let x: usize = pixel_idx % width;
    proof {
        crate::grid::lemma_index_in_grid(w, h, pixel_idx as int);
    }
    let mut acc: i128 = 0;
    let mut ky: usize = 0;
    while ky < kh
        invariant
            img == image@,
            ker == kernel@,
            w == width,
            h == height,
            img.len() == w * h,
            ker.len() == kw * kh,
            img.len() == image_len,
            ker.len() == kernel_len,
            half_kw == kw / 2,
            half_kh == kh / 2,
            y < height,
            x < width,
            y == pixel_idx / width,
            x == pixel_idx % width,
            ky <= kh,
            acc == conv_rows_sum(img, w, h, ker, kw as int, kh as int, y as int, x as int, ky as int),
            -(ky * kw) * 0x4000_0000_0000_0000 <= acc <= (ky * kw) * 0x4000_0000_0000_0000,
        decreases kh - ky,
    {
        let mut kx: usize = 0;
        while kx < kw
            invariant
                img == image@,
                ker == kernel@,
                w == width,
                h == height,
                img.len() == w * h,
                ker.len() == kw * kh,
                img.len() == image_len,
                ker.len() == kernel_len,
                half_kw == kw / 2,
                half_kh == kh / 2,
                y < height,
                x < width,
                ky < kh,
                kx <= kw,
                acc == conv_rows_sum(img, w, h, ker, kw as int, kh as int, y as int, x as int, ky as int)
                    + conv_row_sum(img, w, h, ker, kw as int, kh as int, y as int, x as int, ky as int, kx as int),
                -(ky * kw + kx) * 0x4000_0000_0000_0000 <= acc <= (ky * kw + kx) * 0x4000_0000_0000_0000,
            decreases kw - kx,
        {
            proof {
                lemma_tap_bound(img, w, h, ker, kw as int, kh as int, y as int, x as int, ky as int, kx as int);
                assert(ky * kw + kx < kw * kh) by (nonlinear_arith)
                    requires
                        ky < kh,
                        kx < kw,
                ;
                assert((ky * kw + kx + 1) * 0x4000_0000_0000_0000 <= 0x4000_0000_0000_0000_0000_0000_0000_0000) by (nonlinear_arith)
                    requires
                        ky * kw + kx < kw * kh,
                        kw * kh == ker.len(),
                        ker.len() <= usize::MAX,
                ;
            }
            // The sample row `y + ky - half_kh` and column `x + kx - half_kw`,
            // when they lie inside the image.
            let mut inside: bool = false;
            let mut iy: usize = 0;
            let mut ix: usize = 0;
            if ky >= half_kh {
                let d: usize = ky - half_kh;
                if d < height - y {
                    iy = y + d;
                    inside = true;
                }
            } else {
                let d: usize = half_kh - ky;
                if y >= d {
                    iy = y - d;
                    inside = true;
                }
            }
            if inside {
                inside = false;
                if kx >= half_kw {
                    let d: usize = kx - half_kw;
                    if d < width - x {
                        ix = x + d;
                        inside = true;
                    }
                } else {
                    let d: usize = half_kw - kx;
                    if x >= d {
                        ix = x - d;
                        inside = true;
                    }
                }
            }
            let ghost tap = conv_tap(img, w, h, ker, kw as int, kh as int, y as int, x as int, ky as int, kx as int);
            if inside {
                proof {
                    crate::grid::lemma_grid_index(w, h, iy as int, ix as int);
                    crate::grid::lemma_grid_index(kw as int, kh as int, ky as int, kx as int);
                }
                let sample: i32 = image[iy * width + ix];
                let weight: i32 = kernel[ky * kw + kx];
                assert(tap == sample as int * weight as int);
                acc = acc + (sample as i128) * (weight as i128);
            } else {
                assert(tap == 0);
            }
            kx = kx + 1;
        }
        ky = ky + 1;
        assert((ky - 1) * kw + kw == ky * kw) by (nonlinear_arith);
    }
    acc
}

/// Rayon's `par_iter_mut().enumerate().for_each(..)`: sets every element of
/// `out`, in parallel, to `f` applied to its index.
#[verifier::external_body]
fn par_fill<T: Send, F: Fn(usize) -> T + Sync + Send>(out: &mut Vec<T>, f: F)
    requires
        forall|i: usize| i < old(out).len() ==> f.requires((i,)),
    ensures
        final(out).len() == old(out).len(),
        forall|i: usize| i < final(out).len() ==> f.ensures((i,), #[trigger] final(out)@[i as int]),
{
    out.par_iter_mut().enumerate().for_each(|(i, p)| *p = f(i));
}

/// Convolves a row-major `width × height` image with a `kw × kh` kernel
/// (row-major, odd width and height), centring the kernel on each pixel and
/// treating samples outside the image as 0.  The pixels are computed in
/// parallel.
pub fn convolve2d(
    image: &[i32],
    width: usize,
    height: usize,
    kernel: &[i32],
    kw: usize,
    kh: usize,
) -> (output: Vec<i128>)
    requires
        kw % 2 == 1,
        kh % 2 == 1,
        kernel@.len() == kw * kh,
        image@.len() == width * height,
    ensures
        output@ == conv_image(image@, width as int, height as int, kernel@, kw as int, kh as int),
{
    let n: usize = image.len();
    let mut output: Vec<i128> = Vec::with_capacity(n);
    let mut i: usize = 0;
    while i < n
        invariant
            i <= n,
            output.len() == i,
        decreases n - i,
    {
        output.push(0);
        i = i + 1;
    }
    let pixel_value = |pixel_idx: usize| -> (v: i128)
        requires
            pixel_idx < width * height,
        ensures
            v == conv_at(
                image@,
                width as int,
                height as int,
                kernel@,
                kw as int,
                kh as int,
                pixel_idx as int / width as int,
                pixel_idx as int % width as int,
            ),
        { convolve_pixel(image, width, height, kernel, kw, kh, pixel_idx) };
    par_fill(&mut output, pixel_value);
    assert(output@ =~= conv_image(image@, width as int, height as int, kernel@, kw as int, kh as int));
    output
}


proof fn lemma_zero_kernel_row(
    image: Seq<i32>,
    width: int,
    height: int,
    kernel: Seq<i32>,
    kw: int,
    kh: int,
    y: int,
    x: int,
    ky: int,
    n: int,
)
    requires
        kernel.len() == kw * kh,
        forall|k: int| 0 <= k < kernel.len() ==> kernel[k] == 0,
        0 <= ky < kh,
        n <= kw,
    ensures
        conv_row_sum(image, width, height, kernel, kw, kh, y, x, ky, n) == 0,
    decreases n,
{
    if n > 0 {
        lemma_zero_kernel_row(image, width, height, kernel, kw, kh, y, x, ky, n - 1);
        crate::grid::lemma_grid_index(kw, kh, ky, n - 1);
    }
}

proof fn lemma_zero_kernel_rows(
    image: Seq<i32>,
    width: int,
    height: int,
    kernel: Seq<i32>,
    kw: int,
    kh: int,
    y: int,
    x: int,
    m: int,
)
    requires
        kernel.len() == kw * kh,
        forall|k: int| 0 <= k < kernel.len() ==> kernel[k] == 0,
        m <= kh,
    ensures
        conv_rows_sum(image, width, height, kernel, kw, kh, y, x, m) == 0,
    decreases m,
{
    if m > 0 {
        lemma_zero_kernel_rows(image, width, height, kernel, kw, kh, y, x, m - 1);
        lemma_zero_kernel_row(image, width, height, kernel, kw, kh, y, x, m - 1, kw);
    }
}

/// A kernel of zeros convolves every image to zeros.
pub proof fn lemma_zero_kernel(
    image: Seq<i32>,
    width: int,
    height: int,
    kernel: Seq<i32>,
    kw: int,
    kh: int,
    y: int,
    x: int,
)
    requires
        kernel.len() == kw * kh,
        forall|k: int| 0 <= k < kernel.len() ==> kernel[k] == 0,
    ensures
        conv_at(image, width, height, kernel, kw, kh, y, x) == 0,
{
    lemma_zero_kernel_rows(image, width, height, kernel, kw, kh, y, x, kh);
}

/// The identity kernel: 1 at the centre, 0 everywhere else.
pub open spec fn is_identity_kernel(kernel: Seq<i32>, kw: int, kh: int) -> bool {
    &&& kernel.len() == kw * kh
    &&& forall|k: int|
        0 <= k < kernel.len() ==> kernel[k] == if k == (kh / 2) * kw + kw / 2 {
            1i32
        } else {
            0i32
        }
}

proof fn lemma_identity_row(
    image: Seq<i32>,
    width: int,
    height: int,
    kernel: Seq<i32>,
    kw: int,
    kh: int,
    y: int,
    x: int,
    ky: int,
    n: int,
)
    requires
        kw % 2 == 1,
        kh % 2 == 1,
        kw > 0,
        kh > 0,
        is_identity_kernel(kernel, kw, kh),
        0 <= y < height,
        0 <= x < width,
        0 <= ky < kh,
        n <= kw,
    ensures
        conv_row_sum(image, width, height, kernel, kw, kh, y, x, ky, n) == if ky == kh / 2 && n > kw / 2 {
            image[y * width + x] as int
        } else {
            0
        },
    decreases n,
{
    if n > 0 {
        lemma_identity_row(image, width, height, kernel, kw, kh, y, x, ky, n - 1);
        crate::grid::lemma_grid_index(kw, kh, ky, n - 1);
        crate::grid::lemma_grid_index(kw, kh, kh / 2, kw / 2);
        let k = ky * kw + (n - 1);
        assert(0 <= k < kernel.len());
        if k == (kh / 2) * kw + kw / 2 {
            crate::grid::lemma_grid_div_mod(kw, ky, n - 1);
            crate::grid::lemma_grid_div_mod(kw, kh / 2, kw / 2);
            assert(ky == kh / 2 && n - 1 == kw / 2);
            assert(kernel[k] == 1);
            assert(conv_tap(image, width, height, kernel, kw, kh, y, x, ky, n - 1) == image[y * width + x]);
        } else {
            assert(kernel[k] == 0);
            assert(conv_tap(image, width, height, kernel, kw, kh, y, x, ky, n - 1) == 0);
        }
    }
}

proof fn lemma_identity_rows(
    image: Seq<i32>,
    width: int,
    height: int,
    kernel: Seq<i32>,
    kw: int,
    kh: int,
    y: int,
    x: int,
    m: int,
)
    requires
        kw % 2 == 1,
        kh % 2 == 1,
        kw > 0,
        kh > 0,
        is_identity_kernel(kernel, kw, kh),
        0 <= y < height,
        0 <= x < width,
        m <= kh,
    ensures
        conv_rows_sum(image, width, height, kernel, kw, kh, y, x, m) == if m > kh / 2 {
            image[y * width + x] as int
        } else {
            0
        },
    decreases m,
{
    if m > 0 {
        lemma_identity_rows(image, width, height, kernel, kw, kh, y, x, m - 1);
        lemma_identity_row(image, width, height, kernel, kw, kh, y, x, m - 1, kw);
    }
}

/// Convolving with the identity kernel gives the image back.
pub proof fn lemma_identity_kernel(
    image: Seq<i32>,
    width: int,
    height: int,
    kernel: Seq<i32>,
    kw: int,
    kh: int,
    y: int,
    x: int,
)
    requires
        0 < kw,
        0 < kh,
        kw % 2 == 1,
        kh % 2 == 1,
        is_identity_kernel(kernel, kw, kh),
        image.len() == width * height,
        0 <= y < height,
        0 <= x < width,
    ensures
        conv_at(image, width, height, kernel, kw, kh, y, x) == image[y * width + x],
{
    lemma_identity_rows(image, width, height, kernel, kw, kh, y, x, kh);
}

} // verus!
