//! Non-maximum suppression on a gradient-magnitude image.
//!
//! Magnitudes are order keys (see `order_key`); the gradient direction of
//! each pixel comes quantised to one of four axes.  Rows grow downwards, so
//! a gradient at 45° points to the lower right.
use crate::grid::lemma_index_in_grid;
use crate::order_key::{is_nan_key, INFINITY_KEY};
use vstd::prelude::*;

verus! {

/// The axis, among four, nearest to a pixel's gradient direction.
#[derive(Clone, Copy, PartialEq, Eq, Structural, Debug)]
pub enum GradientAxis {
    /// Near 0° or 180°: compare with the left and right neighbours.
    Horizontal,
    /// Near 45°: compare with the upper-left and lower-right neighbours.
    MainDiagonal,
    /// Near 90°: compare with the upper and lower neighbours.
    Vertical,
    /// Near 135°: compare with the upper-right and lower-left neighbours.
    AntiDiagonal,
}

/// The two neighbours of interior pixel `(x, y)` along `axis`.
pub open spec fn axis_neighbours(mag: Seq<i32>, w: int, axis: GradientAxis, y: int, x: int) -> (i32, i32) {
    match axis {
        GradientAxis::Horizontal => (mag[y * w + x - 1], mag[y * w + x + 1]),
        GradientAxis::MainDiagonal => (mag[(y - 1) * w + (x - 1)], mag[(y + 1) * w + (x + 1)]),
        GradientAxis::Vertical => (mag[(y - 1) * w + x], mag[(y + 1) * w + x]),
        GradientAxis::AntiDiagonal => (mag[(y - 1) * w + (x + 1)], mag[(y + 1) * w + (x - 1)]),
    }
}

/// `a > b` as the `f32` values of the keys compare: false when either is a
/// NaN.
pub open spec fn exceeds(a: i32, b: i32) -> bool {
    !is_nan_key(a as int) && !is_nan_key(b as int) && a > b
}

/// The suppressed value of pixel `(x, y)`: its magnitude when it is an
/// interior pixel that exceeds both neighbours along its axis, 0 otherwise
/// (and 0 on the one-pixel border).
pub open spec fn suppressed_at(mag: Seq<i32>, axes: Seq<GradientAxis>, w: int, h: int, y: int, x: int) -> i32 {
    if 1 <= y < h - 1 && 1 <= x < w - 1 {
        let (n1, n2) = axis_neighbours(mag, w, axes[y * w + x], y, x);
        if exceeds(mag[y * w + x], n1) && exceeds(mag[y * w + x], n2) {
            mag[y * w + x]
        } else {
            0
        }
    } else {
        0
    }
}

/// The suppressed image, row-major.
pub open spec fn suppressed_image(mag: Seq<i32>, axes: Seq<GradientAxis>, w: int, h: int) -> Seq<i32> {
    Seq::new((w * h) as nat, |i: int| suppressed_at(mag, axes, w, h, i / w, i % w))
}

/// Keeps each interior pixel whose magnitude exceeds that of both its
/// neighbours along its gradient axis, and sets every other pixel to 0.
pub fn non_maximum_suppression(
    magnitude: &[i32],
    direction: &[GradientAxis],
    width: usize,
    height: usize,
) -> (output: Vec<i32>)
    requires
        magnitude@.len() == width * height,
        direction@.len() == width * height,
        height >= 1,
        height >= 3 ==> width >= 1,
    ensures
        output@ == suppressed_image(magnitude@, direction@, width as int, height as int),
{
    let ghost mag = magnitude@;
    let ghost axes = direction@;
    let ghost w = width as int;
    let ghost h = height as int;
    let n: usize = magnitude.len();
    let mut output: Vec<i32> = Vec::with_capacity(n);
    let mut i: usize = 0;
    while i < n
        invariant
            i <= n,
            output.len() == i,
            forall|k: int| 0 <= k < i ==> output@[k] == 0,
        decreases n - i,
    {
        output.push(0);
        i = i + 1;
    }

    // Skip the boundary pixels.
    let mut y: usize = 1;
    while y < height - 1
        invariant
            mag == magnitude@,
            axes == direction@,
            w == width,
            h == height,
            n == mag.len(),
            mag.len() == w * h,
            axes.len() == w * h,
            height >= 1,
            height >= 3 ==> width >= 1,
            1 <= y,
            y <= height - 1 || height < 2,
            output.len() == n,
            forall|k: int|
                0 <= k < n ==> #[trigger] output@[k] == if k / w < y {
                    suppressed_at(mag, axes, w, h, k / w, k % w)
                } else {
                    0
                },
        decreases height - y,
    {
        assert(width >= 1);
        let mut x: usize = 1;
        while x < width - 1
            invariant
                mag == magnitude@,
                axes == direction@,
                w == width,
                h == height,
                n == mag.len(),
                mag.len() == w * h,
                axes.len() == w * h,
                1 <= y < height - 1,
                width >= 1,
                1 <= x,
                x <= width - 1 || width < 2,
                output.len() == n,
                forall|k: int|
                    0 <= k < n ==> #[trigger] output@[k] == if k / w < y || (k / w == y && k % w < x) {
                        suppressed_at(mag, axes, w, h, k / w, k % w)
                    } else {
                        0
                    },
            decreases width - x,
        {
            proof {
                crate::grid::lemma_grid_index(w, h, y as int, x as int);
                crate::grid::lemma_grid_index(w, h, y - 1, x - 1);
                crate::grid::lemma_grid_index(w, h, y + 1, x + 1);
                crate::grid::lemma_grid_index(w, h, y - 1, x + 1);
                crate::grid::lemma_grid_index(w, h, y + 1, x - 1);
                assert((y - 1) * w == y * w - w) by (nonlinear_arith);
                assert((y + 1) * w == y * w + w) by (nonlinear_arith);
            }
            let idx: usize = y * width + x;
            let mag_here: i32 = magnitude[idx];

            // The two neighbours along the quantised gradient axis.
            let (n1, n2) = match direction[idx] {
                GradientAxis::Horizontal => (magnitude[idx - 1], magnitude[idx + 1]),
                GradientAxis::MainDiagonal => (
                    magnitude[(y - 1) * width + (x - 1)],
                    magnitude[(y + 1) * width + (x + 1)],
                ),
                GradientAxis::Vertical => (magnitude[(y - 1) * width + x], magnitude[(y + 1) * width + x]),
                GradientAxis::AntiDiagonal => (
                    magnitude[(y - 1) * width + (x + 1)],
                    magnitude[(y + 1) * width + (x - 1)],
                ),
            };
            proof {
                crate::grid::lemma_grid_div_mod(w, y as int, x as int);
            }
            assert((n1, n2) == axis_neighbours(mag, w, axes[idx as int], y as int, x as int));

            // Keep the pixel only if it is a strict local maximum; a NaN
            // compares false with everything.
            let finite_here = -INFINITY_KEY <= mag_here && mag_here <= INFINITY_KEY;
            let finite_n1 = -INFINITY_KEY <= n1 && n1 <= INFINITY_KEY;
            let finite_n2 = -INFINITY_KEY <= n2 && n2 <= INFINITY_KEY;
            if finite_here && finite_n1 && finite_n2 && mag_here > n1 && mag_here > n2 {
                output.set(idx, mag_here);
            }
            proof {
                assert forall|k: int|
                    0 <= k < n implies #[trigger] output@[k] == if k / w < y || (k / w == y && k % w < x + 1) {
                        suppressed_at(mag, axes, w, h, k / w, k % w)
                    } else {
                        0
                    } by {
                    if k != idx {
                        lemma_index_in_grid(w, h, k);
                        crate::grid::lemma_grid_div_mod(w, k / w, k % w);
                        crate::grid::lemma_grid_div_mod(w, y as int, x as int);
                        if k / w == y && k % w == x {
                            vstd::arithmetic::div_mod::lemma_fundamental_div_mod(k, w);
                            assert(k == y * w + x) by (nonlinear_arith)
                                requires
                                    k == w * (k / w) + k % w,
                                    k / w == y,
                                    k % w == x,
                            ;
                        }
                    }
                }
            }
            x = x + 1;
        }
        proof {
            assert forall|k: int|
                0 <= k < n implies #[trigger] output@[k] == if k / w < y + 1 {
                    suppressed_at(mag, axes, w, h, k / w, k % w)
                } else {
                    0
                } by {
                lemma_index_in_grid(w, h, k);
                if k / w == y && k % w >= x {
                    assert(k % w >= w - 1);
                }
            }
        }
        y = y + 1;
    }
    proof {
        assert forall|k: int| 0 <= k < n implies #[trigger] output@[k] == suppressed_image(mag, axes, w, h)[k] by {
            lemma_index_in_grid(w, h, k);
        }
    }
    assert(output@ =~= suppressed_image(mag, axes, w, h));
    output
}


/// Suppression never makes up a value: each output pixel is 0 or the
/// magnitude of that pixel.  (In particular, a field of zeros stays zero.)
pub proof fn lemma_suppressed_is_zero_or_kept(mag: Seq<i32>, axes: Seq<GradientAxis>, w: int, h: int, y: int, x: int)
    ensures
        suppressed_at(mag, axes, w, h, y, x) == 0 || suppressed_at(mag, axes, w, h, y, x) == mag[y * w + x],
{
}

/// An interior pixel that exceeds all eight of its neighbours survives,
/// whatever its gradient axis.
pub proof fn lemma_local_maximum_survives(mag: Seq<i32>, axes: Seq<GradientAxis>, w: int, h: int, y: int, x: int)
    requires
        1 <= y < h - 1,
        1 <= x < w - 1,
        forall|axis: GradientAxis|
            exceeds(mag[y * w + x], #[trigger] axis_neighbours(mag, w, axis, y, x).0) && exceeds(
                mag[y * w + x],
                axis_neighbours(mag, w, axis, y, x).1,
            ),
    ensures
        suppressed_at(mag, axes, w, h, y, x) == mag[y * w + x],
{
    let axis = axes[y * w + x];
    assert(exceeds(mag[y * w + x], axis_neighbours(mag, w, axis, y, x).0));
}

/// Only a strict maximum survives: an interior pixel that some neighbour
/// along its axis matches or exceeds is suppressed.
pub proof fn lemma_non_maximum_is_suppressed(mag: Seq<i32>, axes: Seq<GradientAxis>, w: int, h: int, y: int, x: int)
    requires
        1 <= y < h - 1,
        1 <= x < w - 1,
        axis_neighbours(mag, w, axes[y * w + x], y, x).0 >= mag[y * w + x] || axis_neighbours(
            mag,
            w,
            axes[y * w + x],
            y,
            x,
        ).1 >= mag[y * w + x],
    ensures
        suppressed_at(mag, axes, w, h, y, x) == 0,
{
}

/// Each axis compares a pixel with its two neighbours in that direction,
/// rows growing downwards: left and right for `Horizontal`, upper-left and
/// lower-right for `MainDiagonal`, above and below for `Vertical`, upper-right
/// and lower-left for `AntiDiagonal`.  An interior pixel keeps its magnitude
/// exactly when it is larger than both of those neighbours and none of the
/// three is a NaN; otherwise it becomes 0.
pub proof fn lemma_axis_compares_along_its_direction(
    mag: Seq<i32>,
    axes: Seq<GradientAxis>,
    w: int,
    h: int,
    y: int,
    x: int,
)
    requires
        1 <= y < h - 1,
        1 <= x < w - 1,
    ensures
        ({
            let m = mag[y * w + x];
            let (a, b) = if axes[y * w + x] == GradientAxis::Horizontal {
                (mag[y * w + (x - 1)], mag[y * w + (x + 1)])
            } else if axes[y * w + x] == GradientAxis::MainDiagonal {
                (mag[(y - 1) * w + (x - 1)], mag[(y + 1) * w + (x + 1)])
            } else if axes[y * w + x] == GradientAxis::Vertical {
                (mag[(y - 1) * w + x], mag[(y + 1) * w + x])
            } else {
                (mag[(y - 1) * w + (x + 1)], mag[(y + 1) * w + (x - 1)])
            };
            let kept = !is_nan_key(m as int) && !is_nan_key(a as int) && !is_nan_key(b as int) && m > a && m > b;
            suppressed_at(mag, axes, w, h, y, x) == if kept {
                m
            } else {
                0
            }
        }),
{
    assert(y * w + (x - 1) == y * w + x - 1);
    assert(y * w + (x + 1) == y * w + x + 1);
}

} // verus!
