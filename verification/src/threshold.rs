//! Thresholding of a gradient-magnitude image: Canny-style hysteresis, and
//! the choice of an automatic threshold.
//!
//! Pixel values are order keys (see `order_key`): integers that compare as
//! the floating-point values they stand for.
use crate::grid::lemma_grid_index;
use crate::order_key::{is_nan_key, INFINITY_KEY};
use vstd::arithmetic::div_mod::{lemma_div_denominator, lemma_fundamental_div_mod};
use vstd::prelude::*;

verus! {

/// A pixel of value `v` is at or above the threshold `t`, as the `f32`
/// values they stand for compare: a NaN reaches no threshold.
pub open spec fn reaches(v: i32, t: i32) -> bool {
    !is_nan_key(v as int) && v >= t
}

/// Pixel `j` is one of the eight neighbours of pixel `i` in a row-major grid
/// of `width × height` pixels.  (A pixel past the grid, `i >= width *
/// height`, still has the grid pixels around its computed row and column as
/// neighbours.)
pub open spec fn neighbours(width: int, height: int, i: int, j: int) -> bool {
    &&& width > 0
    &&& 0 <= i
    &&& 0 <= j < width * height
    &&& i != j
    &&& -1 <= j / width - i / width <= 1
    &&& -1 <= j % width - i % width <= 1
}

/// Step `k` of `path` goes from a pixel to one of its neighbours.
pub open spec fn linked(width: int, height: int, path: Seq<int>, k: int) -> bool {
    neighbours(width, height, path[k], path[k + 1])
}

/// `path` starts at a pixel at or above `high`, goes from neighbour to
/// neighbour, and every pixel on it is at or above `low`.
pub open spec fn is_edge_path(image: Seq<i32>, width: int, height: int, low: i32, high: i32, path: Seq<int>) -> bool {
    &&& path.len() >= 1
    &&& reaches(image[path[0]], high)
    &&& forall|k: int| 0 <= k < path.len() ==> 0 <= #[trigger] path[k] < image.len() && reaches(image[path[k]], low)
    &&& forall|k: int| 0 <= k < path.len() - 1 ==> #[trigger] linked(width, height, path, k)
}

/// Pixel `i` is an edge pixel: an edge path ends at it.
pub open spec fn on_edge(image: Seq<i32>, width: int, height: int, low: i32, high: i32, i: int) -> bool {
    exists|path: Seq<int>| #[trigger] is_edge_path(image, width, height, low, high, path) && path.last() == i
}

/// The flood from the strong pixels never leaves the image buffer: every
/// neighbour of an edge pixel is a pixel of `image`.  This holds whenever
/// `image` has at least `width * height` pixels.
pub open spec fn flood_stays_inside(image: Seq<i32>, width: int, height: int, low: i32, high: i32) -> bool {
    forall|i: int, j: int|
        #[trigger] on_edge(image, width, height, low, high, i) && #[trigger] neighbours(width, height, i, j)
            ==> j < image.len()
}

/// An image of at least `width * height` pixels holds every pixel that the
/// flood can reach.
pub proof fn lemma_flood_stays_inside(image: Seq<i32>, width: int, height: int, low: i32, high: i32)
    requires
        image.len() >= width * height,
    ensures
        flood_stays_inside(image, width, height, low, high),
{
}

/// The edge map: 255 at every edge pixel, 0 elsewhere.
pub open spec fn edge_map(image: Seq<i32>, width: int, height: int, low: i32, high: i32) -> Seq<u8> {
    Seq::new(
        image.len(),
        |i: int|
            if on_edge(image, width, height, low, high, i) {
                255u8
            } else {
                0u8
            },
    )
}

/// Pixel class for the flood fill.
#[derive(Clone, Copy, PartialEq, Eq, Structural)]
enum EdgeState {
    Over,
    Middle,
    Under,
}

spec fn label_of(v: i32, low: i32, high: i32) -> EdgeState {
    if reaches(v, high) {
        EdgeState::Over
    } else if reaches(v, low) {
        EdgeState::Middle
    } else {
        EdgeState::Under
    }
}

spec fn middle_count(s: Seq<EdgeState>) -> nat
    decreases s.len(),
{
    if s.len() == 0 {
        0
    } else {
        middle_count(s.drop_last()) + if s.last() == EdgeState::Middle {
            1nat
        } else {
            0nat
        }
    }
}

proof fn lemma_middle_count_promote(s: Seq<EdgeState>, j: int)
    requires
        0 <= j < s.len(),
        s[j] == EdgeState::Middle,
    ensures
        middle_count(s.update(j, EdgeState::Over)) + 1 == middle_count(s),
    decreases s.len(),
{
    let t = s.update(j, EdgeState::Over);
    if j == s.len() - 1 {
        assert(t.drop_last() =~= s.drop_last());
    } else {
        assert(t.drop_last() =~= s.drop_last().update(j, EdgeState::Over));
        lemma_middle_count_promote(s.drop_last(), j);
    }
}

/// No neighbour of pixel `k` is still a candidate waiting for promotion.
spec fn closed_at(labels: Seq<EdgeState>, width: int, height: int, k: int) -> bool {
    forall|j: int|
        #![trigger labels[j]]
        neighbours(width, height, k, j) && 0 <= j < labels.len() ==> labels[j] != EdgeState::Middle
}

/// Every neighbour of `i` is reached by one of the eight offsets.
proof fn lemma_neighbour_offset(width: int, height: int, i: int, j: int)
    requires
        neighbours(width, height, i, j),
    ensures
        ({
            let a = j / width - i / width + 1;
            let b = j % width - i % width + 1;
            &&& 0 <= a < 3
            &&& 0 <= b < 3
            &&& 0 <= i / width + a - 1 < height
            &&& 0 <= i % width + b - 1 < width
            &&& !(a == 1 && b == 1)
            &&& (i / width + a - 1) * width + (i % width + b - 1) == j
        }),
{
    lemma_fundamental_div_mod(j, width);
    lemma_fundamental_div_mod(i, width);
    assert(width * (j / width) == (j / width) * width) by (nonlinear_arith);
    assert(width * (i / width) == (i / width) * width) by (nonlinear_arith);
    assert(0 <= j / width < height) by (nonlinear_arith)
        requires
            width > 0,
            0 <= j < width * height,
            j == width * (j / width) + j % width,
            0 <= j % width < width,
    ;
    assert(0 <= j % width < width);
    if j / width == i / width && j % width == i % width {
        assert(i == j);
    }
}

/// Every pixel of an edge path has been promoted, once no promoted pixel
/// has a candidate neighbour left.
proof fn lemma_path_promoted(
    labels: Seq<EdgeState>,
    image: Seq<i32>,
    width: int,
    height: int,
    low: i32,
    high: i32,
    path: Seq<int>,
    k: int,
)
    requires
        labels.len() == image.len(),
        is_edge_path(image, width, height, low, high, path),
        0 <= k < path.len(),
        forall|m: int| 0 <= m < labels.len() ==> (labels[m] == EdgeState::Under <==> !reaches(image[m], low)),
        forall|m: int| 0 <= m < labels.len() && reaches(image[m], high) ==> labels[m] == EdgeState::Over,
        forall|m: int|
            0 <= m < labels.len() && labels[m] == EdgeState::Over ==> #[trigger] closed_at(
                labels,
                width,
                height,
                m,
            ),
    ensures
        labels[path[k]] == EdgeState::Over,
    decreases k,
{
    assert(0 <= path[k] < image.len());
    if k > 0 {
        lemma_path_promoted(labels, image, width, height, low, high, path, k - 1);
        assert(0 <= path[k - 1] < image.len());
        assert(linked(width, height, path, k - 1));
        assert(closed_at(labels, width, height, path[k - 1]));
        assert(labels[path[k]] != EdgeState::Middle);
    } else {
        assert(reaches(image[path[0]], high));
    }
}


/// The flood-fill invariant: labels agree with the thresholds, every
/// promoted pixel is an edge pixel, the stack holds promoted pixels, and
/// every promoted pixel off the stack (other than `skip`, the one being
/// visited) has no candidate neighbour left.
#[verifier::opaque]
spec fn flood_inv(
    img: Seq<i32>,
    w: int,
    h: int,
    low: i32,
    high: i32,
    labels: Seq<EdgeState>,
    stack: Seq<usize>,
    skip: int,
) -> bool {
    &&& img.len() <= usize::MAX
    &&& labels.len() == img.len()
    &&& forall|k: int| 0 <= k < img.len() ==> (labels[k] == EdgeState::Under <==> !reaches(img[k], low))
    &&& forall|k: int| 0 <= k < img.len() && reaches(img[k], high) ==> labels[k] == EdgeState::Over
    &&& forall|k: int|
        0 <= k < img.len() && labels[k] == EdgeState::Over ==> #[trigger] on_edge(img, w, h, low, high, k)
    &&& forall|t: int| 0 <= t < stack.len() ==> stack[t] < img.len()
    &&& forall|t: int| 0 <= t < stack.len() ==> labels[#[trigger] stack[t] as int] == EdgeState::Over
    &&& forall|k: int|
        0 <= k < img.len() && k != skip && labels[k] == EdgeState::Over && !stack.contains(k as usize)
            ==> #[trigger] closed_at(labels, w, h, k)
}

/// The offset `(a - 1, b - 1)` from `(x, y)` is a grid pixel other than
/// `(x, y)` itself.
spec fn offset_valid(w: int, h: int, y: int, x: int, a: int, b: int) -> bool {
    0 <= y + a - 1 < h && 0 <= x + b - 1 < w && !(a == 1 && b == 1)
}

/// The index of the pixel at offset `(a - 1, b - 1)` from `(x, y)`.
spec fn offset_index(w: int, y: int, x: int, a: int, b: int) -> int {
    (y + a - 1) * w + (x + b - 1)
}

/// Every valid offset from pixel `i` names a neighbour inside the buffer.
spec fn offsets_inside(n: int, w: int, h: int, i: int) -> bool {
    forall|a: int, b: int|
        #![trigger offset_index(w, i / w, i % w, a, b)]
        0 <= a < 3 && 0 <= b < 3 && offset_valid(w, h, i / w, i % w, a, b) ==> 0 <= offset_index(
            w,
            i / w,
            i % w,
            a,
            b,
        ) < n && neighbours(w, h, i, offset_index(w, i / w, i % w, a, b))
}

/// The offsets before `(a, b)`, in row-major order, name no candidate.
spec fn offsets_done(labels: Seq<EdgeState>, w: int, h: int, i: int, a: int, b: int) -> bool {
    forall|a2: int, b2: int|
        #![trigger offset_index(w, i / w, i % w, a2, b2)]
        0 <= a2 < 3 && 0 <= b2 < 3 && (a2 < a || (a2 == a && b2 < b)) && offset_valid(w, h, i / w, i % w, a2, b2)
            ==> labels[offset_index(w, i / w, i % w, a2, b2)] != EdgeState::Middle
}

proof fn lemma_offsets_inside(img: Seq<i32>, w: int, h: int, low: i32, high: i32, i: int)
    requires
        w > 0,
        0 <= i,
        on_edge(img, w, h, low, high, i),
        flood_stays_inside(img, w, h, low, high),
    ensures
        offsets_inside(img.len() as int, w, h, i),
{
    assert forall|a: int, b: int|
        0 <= a < 3 && 0 <= b < 3 && offset_valid(w, h, i / w, i % w, a, b) implies 0 <= #[trigger] offset_index(
        w,
        i / w,
        i % w,
        a,
        b,
    ) < img.len() && neighbours(w, h, i, offset_index(w, i / w, i % w, a, b)) by {
        let ny = i / w + a - 1;
        let nx = i % w + b - 1;
        lemma_grid_index(w, h, ny, nx);
        lemma_fundamental_div_mod(i, w);
        assert(w * (i / w) == (i / w) * w) by (nonlinear_arith);
        let j = offset_index(w, i / w, i % w, a, b);
        assert(j == ny * w + nx);
        if j == i {
            assert(ny == i / w && nx == i % w);
        }
        assert(neighbours(w, h, i, j));
    }
}

/// An edge pixel's neighbour at or above the low threshold is an edge
/// pixel too: edges propagate through candidates.
pub proof fn lemma_extend_edge(img: Seq<i32>, w: int, h: int, low: i32, high: i32, i: int, j: int)
    requires
        on_edge(img, w, h, low, high, i),
        neighbours(w, h, i, j),
        0 <= j < img.len(),
        reaches(img[j], low),
    ensures
        on_edge(img, w, h, low, high, j),
{
    let p = choose|p: Seq<int>| #[trigger] is_edge_path(img, w, h, low, high, p) && p.last() == i;
    let q = p.push(j);
    assert forall|k: int| 0 <= k < q.len() - 1 implies #[trigger] linked(w, h, q, k) by {
        if k < p.len() - 1 {
            assert(linked(w, h, p, k));
        }
    }
    assert forall|k: int| 0 <= k < q.len() implies 0 <= #[trigger] q[k] < img.len() && reaches(img[q[k]], low) by {
        if k < p.len() {
            assert(p[k] == q[k]);
        }
    }
    assert(is_edge_path(img, w, h, low, high, q));
}

proof fn lemma_initial(img: Seq<i32>, w: int, h: int, low: i32, high: i32, labels: Seq<EdgeState>, stack: Seq<usize>)
    requires
        low <= high,
        img.len() <= usize::MAX,
        labels == Seq::new(img.len(), |k: int| label_of(img[k], low, high)),
        forall|t: int| 0 <= t < stack.len() ==> stack[t] < img.len(),
        forall|t: int| 0 <= t < stack.len() ==> labels[#[trigger] stack[t] as int] == EdgeState::Over,
        forall|k: int| 0 <= k < img.len() && labels[k] == EdgeState::Over ==> stack.contains(k as usize),
    ensures
        flood_inv(img, w, h, low, high, labels, stack, -1),
{
    reveal(flood_inv);
    assert forall|k: int| 0 <= k < img.len() && labels[k] == EdgeState::Over implies #[trigger] on_edge(
        img,
        w,
        h,
        low,
        high,
        k,
    ) by {
        let path = seq![k];
        assert(is_edge_path(img, w, h, low, high, path));
    }
}

proof fn lemma_pop(
    img: Seq<i32>,
    w: int,
    h: int,
    low: i32,
    high: i32,
    labels: Seq<EdgeState>,
    old_stack: Seq<usize>,
    stack: Seq<usize>,
    idx: usize,
)
    requires
        flood_inv(img, w, h, low, high, labels, old_stack, -1),
        old_stack.len() > 0,
        stack == old_stack.drop_last(),
        idx == old_stack.last(),
    ensures
        flood_inv(img, w, h, low, high, labels, stack, idx as int),
        idx < img.len(),
        labels[idx as int] == EdgeState::Over,
        on_edge(img, w, h, low, high, idx as int),
{
    reveal(flood_inv);
    assert(labels[old_stack[old_stack.len() - 1] as int] == EdgeState::Over);
    assert forall|k: int|
        0 <= k < img.len() && k != idx && labels[k] == EdgeState::Over && !stack.contains(k as usize) implies #[trigger] closed_at(
        labels,
        w,
        h,
        k,
    ) by {
        if old_stack.contains(k as usize) {
            let t = choose|t: int| 0 <= t < old_stack.len() && old_stack[t] == k as usize;
            assert(stack[t] == k as usize);
        }
    }
    assert forall|t: int| 0 <= t < stack.len() implies labels[#[trigger] stack[t] as int] == EdgeState::Over by {
        assert(stack[t] == old_stack[t]);
    }
}

proof fn lemma_promote(
    img: Seq<i32>,
    w: int,
    h: int,
    low: i32,
    high: i32,
    labels: Seq<EdgeState>,
    stack: Seq<usize>,
    idx: int,
    a: int,
    b: int,
    j: usize,
)
    requires
        flood_inv(img, w, h, low, high, labels, stack, idx),
        0 <= j < img.len(),
        labels[j as int] == EdgeState::Middle,
        on_edge(img, w, h, low, high, j as int),
        offsets_done(labels, w, h, idx, a, b),
        offsets_inside(img.len() as int, w, h, idx),
        0 <= a < 3,
        0 <= b < 3,
        offset_valid(w, h, idx / w, idx % w, a, b),
        j == offset_index(w, idx / w, idx % w, a, b),
    ensures
        flood_inv(img, w, h, low, high, labels.update(j as int, EdgeState::Over), stack.push(j), idx),
        offsets_done(labels.update(j as int, EdgeState::Over), w, h, idx, a, b + 1),
        middle_count(labels.update(j as int, EdgeState::Over)) + 1 == middle_count(labels),
{
    reveal(flood_inv);
    let nl = labels.update(j as int, EdgeState::Over);
    let ns = stack.push(j);
    lemma_middle_count_promote(labels, j as int);
    assert forall|t: int| 0 <= t < ns.len() implies nl[#[trigger] ns[t] as int] == EdgeState::Over by {
        if t < stack.len() {
            assert(ns[t] == stack[t]);
        }
    }
    assert forall|k: int|
        0 <= k < img.len() && k != idx && nl[k] == EdgeState::Over && !ns.contains(k as usize) implies #[trigger] closed_at(
        nl,
        w,
        h,
        k,
    ) by {
        assert(ns[ns.len() - 1] == j);
        if stack.contains(k as usize) {
            let t = choose|t: int| 0 <= t < stack.len() && stack[t] == k as usize;
            assert(ns[t] == k as usize);
        }
        assert(closed_at(labels, w, h, k));
        assert forall|m: int| neighbours(w, h, k, m) && 0 <= m < nl.len() implies #[trigger] nl[m]
            != EdgeState::Middle by {
            assert(labels[m] != EdgeState::Middle);
        }
    }
    assert forall|k: int| 0 <= k < img.len() && nl[k] == EdgeState::Over implies #[trigger] on_edge(
        img,
        w,
        h,
        low,
        high,
        k,
    ) by {
        if k != j {
            assert(labels[k] == EdgeState::Over);
        }
    }
    assert forall|a2: int, b2: int|
        0 <= a2 < 3 && 0 <= b2 < 3 && (a2 < a || (a2 == a && b2 < b + 1)) && offset_valid(w, h, idx / w, idx % w, a2, b2)
            implies nl[#[trigger] offset_index(w, idx / w, idx % w, a2, b2)] != EdgeState::Middle by {
        let q = offset_index(w, idx / w, idx % w, a2, b2);
        assert(0 <= q < img.len());
        if q != j {
            assert(labels[q] != EdgeState::Middle);
        }
    }
}

proof fn lemma_skip_offset(
    w: int,
    h: int,
    labels: Seq<EdgeState>,
    idx: int,
    a: int,
    b: int,
)
    requires
        offsets_done(labels, w, h, idx, a, b),
        0 <= a < 3,
        0 <= b < 3,
        offset_valid(w, h, idx / w, idx % w, a, b) ==> labels[offset_index(w, idx / w, idx % w, a, b)]
            != EdgeState::Middle,
    ensures
        offsets_done(labels, w, h, idx, a, b + 1),
{
}

proof fn lemma_next_offset_row(labels: Seq<EdgeState>, w: int, h: int, idx: int, a: int)
    requires
        offsets_done(labels, w, h, idx, a, 3),
    ensures
        offsets_done(labels, w, h, idx, a + 1, 0),
{
}

proof fn lemma_close(
    img: Seq<i32>,
    w: int,
    h: int,
    low: i32,
    high: i32,
    labels: Seq<EdgeState>,
    stack: Seq<usize>,
    idx: int,
)
    requires
        flood_inv(img, w, h, low, high, labels, stack, idx),
        offsets_done(labels, w, h, idx, 3, 0),
        offsets_inside(img.len() as int, w, h, idx),
    ensures
        flood_inv(img, w, h, low, high, labels, stack, -1),
{
    reveal(flood_inv);
    assert forall|j: int| neighbours(w, h, idx, j) && 0 <= j < labels.len() implies #[trigger] labels[j]
        != EdgeState::Middle by {
        lemma_neighbour_offset(w, h, idx, j);
        let a2 = j / w - idx / w + 1;
        let b2 = j % w - idx % w + 1;
        assert(offset_index(w, idx / w, idx % w, a2, b2) == j);
    }
    assert(closed_at(labels, w, h, idx));
}

proof fn lemma_finished(img: Seq<i32>, w: int, h: int, low: i32, high: i32, labels: Seq<EdgeState>, stack: Seq<usize>)
    requires
        flood_inv(img, w, h, low, high, labels, stack, -1),
        stack.len() == 0,
    ensures
        forall|k: int|
            0 <= k < img.len() ==> (labels[k] == EdgeState::Over <==> on_edge(img, w, h, low, high, k)),
{
    reveal(flood_inv);
    assert forall|k: int| 0 <= k < img.len() implies (labels[k] == EdgeState::Over <==> on_edge(
        img,
        w,
        h,
        low,
        high,
        k,
    )) by {
        if on_edge(img, w, h, low, high, k) {
            let p = choose|p: Seq<int>| #[trigger] is_edge_path(img, w, h, low, high, p) && p.last() == k;
            assert forall|m: int| 0 <= m < labels.len() && labels[m] == EdgeState::Over implies #[trigger] closed_at(
                labels,
                w,
                h,
                m,
            ) by {
                assert(!stack.contains(m as usize));
            }
            lemma_path_promoted(labels, img, w, h, low, high, p, p.len() - 1);
        }
    }
}

/// No pixel of `image` reaches `high`.
pub open spec fn no_strong_pixel(image: Seq<i32>, high: i32) -> bool {
    forall|i: int| 0 <= i < image.len() ==> !reaches(#[trigger] image[i], high)
}

/// Canny-style hysteresis thresholding of a row-major `width × height`
/// image.
///
/// Pixels at or above `high_thresh` are edges; a pixel at or above
/// `low_thresh` is an edge too when it is 8-connected to an edge pixel.  A
/// NaN pixel is never an edge.  The result holds 255 for every edge pixel
/// and 0 for every other pixel.
///
/// The thresholds must be ordered and not NaN.  A pixel's row is its index
/// divided by `width`, so an image of width 0 must have no strong pixel;
/// when the flood has rows to spread over, `width` and `height` must fit in
/// `isize`, as the dimensions of any image do; and the flood must stay
/// inside `image`, which it does whenever `image` holds at least `width *
/// height` pixels (`lemma_flood_stays_inside`).
pub fn hysteresis_threshold(
    image: &[i32],
    width: usize,
    height: usize,
    low_thresh: i32,
    high_thresh: i32,
) -> (edges: Vec<u8>)
    requires
        !is_nan_key(low_thresh as int),
        !is_nan_key(high_thresh as int),
        low_thresh <= high_thresh,
        (width <= isize::MAX && height <= isize::MAX) || height == 0 || no_strong_pixel(image@, high_thresh),
        width == 0 ==> no_strong_pixel(image@, high_thresh),
        flood_stays_inside(image@, width as int, height as int, low_thresh, high_thresh),
    ensures
        edges@ == edge_map(image@, width as int, height as int, low_thresh, high_thresh),
{
    let ghost img = image@;
    let ghost w = width as int;
    let ghost h = height as int;
    let n: usize = image.len();

    // Classify every pixel.
    let mut labels: Vec<EdgeState> = Vec::new();
    let mut i: usize = 0;
    while i < n
        invariant
            n == img.len(),
            img == image@,
            i <= n,
            labels@ =~= Seq::new(i as nat, |k: int| label_of(img[k], low_thresh, high_thresh)),
        decreases n - i,
    {
        let v: i32 = image[i];
        let finite = -INFINITY_KEY <= v && v <= INFINITY_KEY;
        let state = if finite && v >= high_thresh {
            EdgeState::Over
        } else if finite && v >= low_thresh {
            EdgeState::Middle
        } else {
            EdgeState::Under
        };
        labels.push(state);
        i = i + 1;
    }

    // Every strong pixel starts the flood.
    let mut stack: Vec<usize> = Vec::new();
    let mut i: usize = 0;
    while i < n
        invariant
            n == img.len(),
            i <= n,
            labels@ =~= Seq::new(n as nat, |k: int| label_of(img[k], low_thresh, high_thresh)),
            forall|t: int| 0 <= t < stack.len() ==> stack@[t] < n,
            forall|t: int| 0 <= t < stack.len() ==> labels@[#[trigger] stack@[t] as int] == EdgeState::Over,
            forall|k: int| 0 <= k < i && labels@[k] == EdgeState::Over ==> stack@.contains(k as usize),
        decreases n - i,
    {
        let ghost before = stack@;
        if labels[i] == EdgeState::Over {
            stack.push(i);
            proof {
                assert(stack@[stack.len() - 1] == i);
                assert forall|k: int| 0 <= k < i && labels@[k] == EdgeState::Over implies stack@.contains(
                    k as usize,
                ) by {
                    let t = choose|t: int| 0 <= t < before.len() && before[t] == k as usize;
                    assert(stack@[t] == k as usize);
                }
            }
        }
        i = i + 1;
    }
    proof {
        lemma_initial(img, w, h, low_thresh, high_thresh, labels@, stack@);
    }
    let ghost mut budget: nat = middle_count(labels@);

    // Flood from every promoted pixel into its candidate neighbours.
    while stack.len() > 0
        invariant
            n == img.len(),
            img == image@,
            w == width,
            h == height,
            width == 0 ==> no_strong_pixel(img, high_thresh),
            flood_stays_inside(img, w, h, low_thresh, high_thresh),
            labels.len() == n,
            budget == middle_count(labels@),
            flood_inv(img, w, h, low_thresh, high_thresh, labels@, stack@, -1),
        decreases 2 * budget + stack.len(),
    {
        let ghost old_stack = stack@;
        let idx: usize = stack.pop().unwrap();
        proof {
            lemma_pop(img, w, h, low_thresh, high_thresh, labels@, old_stack, stack@, idx);
            let p = choose|p: Seq<int>|
                #[trigger] is_edge_path(img, w, h, low_thresh, high_thresh, p) && p.last() == idx;
            assert(0 <= p[0] < img.len());
        }
        let ghost m0 = 2 * budget + stack.len();
        let y: usize = idx / width;
        let x: usize = idx % width;
        assert(y <= idx) by (nonlinear_arith)
            requires
                y == idx / width,
                width > 0,
        ;
        proof {
            lemma_offsets_inside(img, w, h, low_thresh, high_thresh, idx as int);
        }
        let mut a: usize = 0;
        while a < 3
            invariant
                n == img.len(),
                w == width,
                h == height,
                width > 0,
                idx < n,
                y == idx / width,
                x == idx % width,
                y <= idx,
                a <= 3,
                labels.len() == n,
                budget == middle_count(labels@),
                2 * budget + stack.len() <= m0,
                flood_inv(img, w, h, low_thresh, high_thresh, labels@, stack@, idx as int),
                offsets_inside(n as int, w, h, idx as int),
                on_edge(img, w, h, low_thresh, high_thresh, idx as int),
                offsets_done(labels@, w, h, idx as int, a as int, 0),
            decreases 3 - a,
        {
            let mut b: usize = 0;
            while b < 3
                invariant
                    n == img.len(),
                    w == width,
                    h == height,
                    width > 0,
                    idx < n,
                    y == idx / width,
                    x == idx % width,
                    y <= idx,
                    a < 3,
                    b <= 3,
                    labels.len() == n,
                    budget == middle_count(labels@),
                    2 * budget + stack.len() <= m0,
                    flood_inv(img, w, h, low_thresh, high_thresh, labels@, stack@, idx as int),
                    offsets_inside(n as int, w, h, idx as int),
                    on_edge(img, w, h, low_thresh, high_thresh, idx as int),
                    offsets_done(labels@, w, h, idx as int, a as int, b as int),
                decreases 3 - b,
            {
                let ghost valid = offset_valid(w, h, y as int, x as int, a as int, b as int);
                let ghost q = offset_index(w, y as int, x as int, a as int, b as int);
                if !(a == 1 && b == 1) && (a >= 1 || y >= 1) && (b >= 1 || x >= 1) {
                    let ny: usize = if a == 0 { y - 1 } else { y + (a - 1) };
                    let nx: usize = if b == 0 { x - 1 } else { x + (b - 1) };
                    if ny < height && nx < width {
                        assert(valid);
                        assert(0 <= q < n);
                        assert(ny * width + nx == q);
                        let nidx: usize = ny * width + nx;
                        if labels[nidx] == EdgeState::Middle {
                            proof {
                                reveal(flood_inv);
                                assert(on_edge(img, w, h, low_thresh, high_thresh, idx as int));
                                lemma_extend_edge(img, w, h, low_thresh, high_thresh, idx as int, q);
                                lemma_promote(
                                    img,
                                    w,
                                    h,
                                    low_thresh,
                                    high_thresh,
                                    labels@,
                                    stack@,
                                    idx as int,
                                    a as int,
                                    b as int,
                                    nidx,
                                );
                                budget = (budget - 1) as nat;
                            }
                            labels.set(nidx, EdgeState::Over);
                            stack.push(nidx);
                        } else {
                            proof {
                                lemma_skip_offset(w, h, labels@, idx as int, a as int, b as int);
                            }
                        }
                    } else {
                        proof {
                            lemma_skip_offset(w, h, labels@, idx as int, a as int, b as int);
                        }
                    }
                } else {
                    proof {
                        lemma_skip_offset(w, h, labels@, idx as int, a as int, b as int);
                    }
                }
                b = b + 1;
            }
            proof {
                lemma_next_offset_row(labels@, w, h, idx as int, a as int);
            }
            a = a + 1;
        }
        proof {
            lemma_close(img, w, h, low_thresh, high_thresh, labels@, stack@, idx as int);
        }
    }
    proof {
        lemma_finished(img, w, h, low_thresh, high_thresh, labels@, stack@);
    }

    // Edge pixels become 255, everything else 0.
    let mut edges: Vec<u8> = Vec::new();
    let mut i: usize = 0;
    while i < n
        invariant
            n == img.len(),
            img == image@,
            w == width,
            h == height,
            labels.len() == n,
            i <= n,
            forall|k: int|
                0 <= k < n ==> (labels@[k] == EdgeState::Over <==> on_edge(img, w, h, low_thresh, high_thresh, k)),
            edges@ =~= edge_map(img, w, h, low_thresh, high_thresh).take(i as int),
        decreases n - i,
    {
        let v: u8 = if labels[i] == EdgeState::Over {
            255
        } else {
            0
        };
        edges.push(v);
        i = i + 1;
    }
    assert(edge_map(img, w, h, low_thresh, high_thresh).take(n as int) =~= edge_map(img, w, h, low_thresh, high_thresh));
    edges
}


/// `2^24`: an `f32` significand holds 24 bits.
pub const F32_SIGNIFICAND_SPAN: u128 = 0x100_0000;

/// The significand of `0.85_f32`, which is `14260634 / 2^24`.
pub const PERCENTILE_SIGNIFICAND: u128 = 14260634;

/// The order key of `10.0_f32` (bit pattern `0x4120_0000`), the threshold
/// chosen when no pixel is positive.
pub const FALLBACK_THRESHOLD_KEY: i32 = 0x4120_0000;

/// The spacing of the `f32` values near the natural number `x`: the power of
/// two `p` with `2^23 * p <= x < 2^24 * p`, or 1 below `2^24`.
pub open spec fn f32_unit(x: nat) -> nat
    decreases x,
{
    if x < F32_SIGNIFICAND_SPAN {
        1
    } else {
        2 * f32_unit(x / 2)
    }
}

/// `x` rounded to the nearest `f32`, ties to even: the multiple of
/// `f32_unit(x)` nearest to `x`, the one with an even quotient on a tie.
#[verifier::opaque]
pub open spec fn f32_round(x: nat) -> nat {
    let p = f32_unit(x);
    let q = x / p;
    let r = x % p;
    if 2 * r > p || (2 * r == p && q % 2 == 1) {
        (q + 1) * p
    } else {
        q * p
    }
}

/// `((n as f32) * 0.85_f32) as usize`: the index of the 85th percentile in
/// a sorted list of `n` values.  Both the conversion and the product round
/// to the nearest `f32`, and the final conversion truncates.
pub open spec fn percentile_index(n: nat) -> nat {
    f32_round(f32_round(n) * PERCENTILE_SIGNIFICAND as nat) / F32_SIGNIFICAND_SPAN as nat
}

/// The key stands for a value above 0.0: a positive number or `+inf`, not
/// a NaN.
pub open spec fn is_positive_key(k: i32) -> bool {
    0 < k <= INFINITY_KEY
}

/// The positive pixels of `image`, in order.
pub open spec fn positive_keys(image: Seq<i32>) -> Seq<i32> {
    image.filter(|k: i32| is_positive_key(k))
}

/// `s` is in ascending order.
pub open spec fn ascending(s: Seq<i32>) -> bool {
    forall|i: int, j: int| 0 <= i <= j < s.len() ==> s[i] <= s[j]
}

proof fn lemma_f32_unit_bounds(x: nat)
    ensures
        f32_unit(x) >= 1,
        x >= F32_SIGNIFICAND_SPAN ==> f32_unit(x) * 0x80_0000 <= x,
        x < F32_SIGNIFICAND_SPAN * f32_unit(x),
    decreases x,
{
    if x >= F32_SIGNIFICAND_SPAN {
        lemma_f32_unit_bounds(x / 2);
    }
}

/// Rounding to `f32` moves a natural number up by at most `2^-24` of it.
proof fn lemma_f32_round_bound(x: nat)
    ensures
        f32_round(x) * F32_SIGNIFICAND_SPAN <= x * (F32_SIGNIFICAND_SPAN + 1),
{
    lemma_f32_unit_bounds(x);
    let p = f32_unit(x);
    let q = x / p;
    let r = x % p;
    lemma_fundamental_div_mod(x as int, p as int);
    assert(x == p * q + r);
    assert(0 <= r < p);
    if x < F32_SIGNIFICAND_SPAN {
        reveal(f32_round);
        assert(p == 1);
        assert(r == 0);
    } else {
        let fr = f32_round(x);
        reveal(f32_round);
        if 2 * r > p || (2 * r == p && q % 2 == 1) {
            assert(fr == (q + 1) * p);
            assert(2 * fr <= 2 * x + p) by (nonlinear_arith)
                requires
                    fr == (q + 1) * p,
                    x == p * q + r,
                    2 * r >= p,
            ;
        } else {
            assert(fr == q * p);
            assert(2 * fr <= 2 * x + p) by (nonlinear_arith)
                requires
                    fr == q * p,
                    x == p * q + r,
                    r >= 0,
                    p >= 1,
            ;
        }
        assert(f32_round(x) * F32_SIGNIFICAND_SPAN <= x * (F32_SIGNIFICAND_SPAN + 1)) by (nonlinear_arith)
            requires
                2 * f32_round(x) <= 2 * x + p,
                p * 0x80_0000 <= x,
        ;
    }
}

/// The percentile index lies inside a list of `n >= 1` values.
pub proof fn lemma_percentile_index_in_bounds(n: nat)
    requires
        n >= 1,
    ensures
        percentile_index(n) < n,
{
    let a = f32_round(n);
    let m = a * PERCENTILE_SIGNIFICAND as nat;
    let b = f32_round(m);
    lemma_f32_round_bound(n);
    lemma_f32_round_bound(m);
    assert(b < n * F32_SIGNIFICAND_SPAN) by (nonlinear_arith)
        requires
            a * 0x100_0000 <= n * 0x100_0001,
            m == a * 14260634,
            b * 0x100_0000 <= m * 0x100_0001,
            n >= 1,
    ;
    assert(b / (F32_SIGNIFICAND_SPAN as nat) < n) by (nonlinear_arith)
        requires
            b < n * 0x100_0000,
    ;
}

/// `f32_round`, for numbers below `2^120`.
fn round_to_f32(x: u128) -> (r: u128)
    requires
        x < 0x100_0000_0000_0000_0000_0000_0000_0000,
    ensures
        r == f32_round(x as nat),
{
    let mut p: u128 = 1;
    while x / p >= F32_SIGNIFICAND_SPAN
        invariant
            x < 0x100_0000_0000_0000_0000_0000_0000_0000,
            1 <= p,
            p == 1 || p <= x,
            f32_unit(x as nat) == p * f32_unit((x / p) as nat),
        decreases x / p,
    {
        proof {
            let xi = x as int;
            let pi = p as int;
            lemma_div_denominator(xi, pi, 2);
            lemma_fundamental_div_mod(xi, pi);
            assert(pi * 2 <= xi) by (nonlinear_arith)
                requires
                    xi / pi >= 0x100_0000,
                    pi >= 1,
                    xi == pi * (xi / pi) + xi % pi,
                    xi % pi >= 0,
            ;
            assert(f32_unit(xi as nat) == (pi * 2) * f32_unit((xi / (pi * 2)) as nat)) by (nonlinear_arith)
                requires
                    f32_unit(xi as nat) == pi * f32_unit((xi / pi) as nat),
                    f32_unit((xi / pi) as nat) == 2 * f32_unit(((xi / pi) / 2) as nat),
                    (xi / pi) / 2 == xi / (pi * 2),
            ;
            assert(xi / (pi * 2) < xi / pi) by (nonlinear_arith)
                requires
                    (xi / pi) / 2 == xi / (pi * 2),
                    xi / pi >= 1,
            ;
        }
        p = p * 2;
    }
    assert(f32_unit((x / p) as nat) == 1);
    assert(f32_unit(x as nat) == p) by (nonlinear_arith)
        requires
            f32_unit(x as nat) == p * f32_unit((x / p) as nat),
            f32_unit((x / p) as nat) == 1,
    ;
    let q: u128 = x / p;
    let r: u128 = x % p;
    assert(q * p <= x) by (nonlinear_arith)
        requires
            q == x / p,
            p >= 1,
    ;
    assert(r < p) by {
        assert(x % p < p);
    }
    assert((q + 1) * p == q * p + p) by (nonlinear_arith);
    reveal(f32_round);
    if 2 * r > p || (2 * r == p && q % 2 == 1) {
        (q + 1) * p
    } else {
        q * p
    }
}

/// `slice::sort` on keys: the same keys, in ascending order.
#[verifier::external_body]
fn sort_keys(keys: &mut Vec<i32>)
    ensures
        final(keys)@.to_multiset() == old(keys)@.to_multiset(),
        ascending(final(keys)@),
{
    keys.sort();
}

/// The automatic threshold: the 85th percentile of the positive pixels of
/// `image`, or the key of `10.0` when no pixel is positive.
///
/// The positive pixels are sorted in ascending order, and the one at index
/// `((n as f32) * 0.85) as usize` of the `n` is chosen.
pub fn auto_threshold(image: &[i32]) -> (t: i32)
    ensures
        positive_keys(image@).len() == 0 ==> t == FALLBACK_THRESHOLD_KEY,
        positive_keys(image@).len() > 0 ==> exists|sorted: Seq<i32>|
            #![trigger ascending(sorted)]
            sorted.to_multiset() == positive_keys(image@).to_multiset() && ascending(sorted) && sorted.len()
                == positive_keys(image@).len() && t == sorted[percentile_index(
                positive_keys(image@).len(),
            ) as int],
{
    let ghost img = image@;
    let mut vals: Vec<i32> = Vec::new();
    let mut i: usize = 0;
    while i < image.len()
        invariant
            img == image@,
            i <= img.len(),
            vals@ == img.take(i as int).filter(|k: i32| is_positive_key(k)),
        decreases img.len() - i,
    {
        proof {
            reveal_with_fuel(Seq::<_>::filter, 1);
            assert(img.take(i + 1).drop_last() =~= img.take(i as int));
        }
        if image[i] > 0 && image[i] <= INFINITY_KEY {
            vals.push(image[i]);
        }
        i = i + 1;
    }
    assert(img.take(img.len() as int) =~= img);
    if vals.len() == 0 {
        return FALLBACK_THRESHOLD_KEY;
    }
    let ghost unsorted = vals@;
    sort_keys(&mut vals);
    proof {
        unsorted.to_multiset_ensures();
        vals@.to_multiset_ensures();
        lemma_percentile_index_in_bounds(vals@.len());
    }
    let n: u128 = vals.len() as u128;
    let rounded: u128 = round_to_f32(n);
    proof {
        lemma_f32_round_bound(n as nat);
        assert(rounded * 14260634 < 0x100_0000_0000_0000_0000_0000_0000_0000) by (nonlinear_arith)
            requires
                rounded * 0x100_0000 <= n * 0x100_0001,
                n < 0x1_0000_0000_0000_0000,
        ;
    }
    let product: u128 = round_to_f32(rounded * PERCENTILE_SIGNIFICAND);
    let idx: usize = (product / F32_SIGNIFICAND_SPAN) as usize;
    let t: i32 = vals[idx];
    assert(ascending(vals@));
    t
}



/// Every pixel at or above the high threshold is an edge pixel.
pub proof fn lemma_strong_pixels_are_edges(image: Seq<i32>, w: int, h: int, low: i32, high: i32, i: int)
    requires
        0 <= i < image.len(),
        low <= high,
        reaches(image[i], high),
    ensures
        on_edge(image, w, h, low, high, i),
{
    let path = seq![i];
    assert(is_edge_path(image, w, h, low, high, path));
}

/// No pixel below the low threshold is an edge pixel.
pub proof fn lemma_dim_pixels_are_not_edges(image: Seq<i32>, w: int, h: int, low: i32, high: i32, i: int)
    requires
        !reaches(image[i], low),
    ensures
        !on_edge(image, w, h, low, high, i),
{
    if on_edge(image, w, h, low, high, i) {
        let p = choose|p: Seq<int>| #[trigger] is_edge_path(image, w, h, low, high, p) && p.last() == i;
        assert(0 <= p[p.len() - 1] < image.len());
    }
}

/// With equal thresholds hysteresis is a single threshold: a pixel is an
/// edge pixel exactly when it is at or above the threshold.
pub proof fn lemma_single_threshold(image: Seq<i32>, w: int, h: int, t: i32, i: int)
    requires
        0 <= i < image.len(),
    ensures
        on_edge(image, w, h, t, t, i) <==> reaches(image[i], t),
{
    if reaches(image[i], t) {
        lemma_strong_pixels_are_edges(image, w, h, t, t, i);
    } else {
        lemma_dim_pixels_are_not_edges(image, w, h, t, t, i);
    }
}

/// The automatic threshold is one of the positive pixels of the image: any
/// entry of an ascending ordering of the positive pixels is positive and
/// occurs in the image.
pub proof fn lemma_percentile_is_a_pixel(image: Seq<i32>, sorted: Seq<i32>, k: int)
    requires
        sorted.to_multiset() == positive_keys(image).to_multiset(),
        0 <= k < sorted.len(),
    ensures
        is_positive_key(sorted[k]),
        image.contains(sorted[k]),
{
    let pos = positive_keys(image);
    let v = sorted[k];
    sorted.to_multiset_ensures();
    pos.to_multiset_ensures();
    assert(sorted.contains(v));
    assert(sorted.to_multiset().count(v) > 0);
    assert(pos.contains(v));
    image.filter_lemma(|v: i32| is_positive_key(v));
    image.lemma_filter_contains_rev(|v: i32| is_positive_key(v), v);
    let j = choose|j: int| 0 <= j < pos.len() && pos[j] == v;
    assert(is_positive_key(pos[j]));
}

/// Lowering the thresholds never removes an edge pixel: every edge pixel
/// for `(low, high)` is an edge pixel for thresholds at or below them.
pub proof fn lemma_edges_grow_as_thresholds_fall(
    image: Seq<i32>,
    w: int,
    h: int,
    low: i32,
    high: i32,
    lower_low: i32,
    lower_high: i32,
    i: int,
)
    requires
        lower_low <= low,
        lower_high <= high,
        on_edge(image, w, h, low, high, i),
    ensures
        on_edge(image, w, h, lower_low, lower_high, i),
{
    let p = choose|p: Seq<int>| #[trigger] is_edge_path(image, w, h, low, high, p) && p.last() == i;
    assert(is_edge_path(image, w, h, lower_low, lower_high, p));
}

/// Brightening the image never removes an edge pixel: where every pixel of
/// `brighter` is at least the matching pixel of `image` (a NaN pixel of
/// `image` may become anything), every edge pixel of `image` is an edge
/// pixel of `brighter`.
pub proof fn lemma_edges_grow_with_image(
    image: Seq<i32>,
    brighter: Seq<i32>,
    w: int,
    h: int,
    low: i32,
    high: i32,
    i: int,
)
    requires
        brighter.len() == image.len(),
        forall|k: int|
            0 <= k < image.len() && !is_nan_key(image[k] as int) ==> !is_nan_key(brighter[k] as int)
                && #[trigger] brighter[k] >= image[k],
        on_edge(image, w, h, low, high, i),
    ensures
        on_edge(brighter, w, h, low, high, i),
{
    let p = choose|p: Seq<int>| #[trigger] is_edge_path(image, w, h, low, high, p) && p.last() == i;
    assert(0 <= p[0] < image.len());
    assert(brighter[p[0]] >= image[p[0]]);
    assert forall|k: int| 0 <= k < p.len() implies 0 <= #[trigger] p[k] < brighter.len() && reaches(
        brighter[p[k]],
        low,
    ) by {
        assert(brighter[p[k]] >= image[p[k]]);
    }
    assert(is_edge_path(brighter, w, h, low, high, p));
}

/// Thresholding an edge map gives it back: on an image whose every pixel is
/// 0 or `v` (an edge map read back as values, `v` standing for 255), with
/// both thresholds above 0 and at most `v`, the edge pixels are exactly the
/// pixels equal to `v`.
pub proof fn lemma_edge_map_is_fixed(image: Seq<i32>, w: int, h: int, low: i32, high: i32, v: i32)
    requires
        forall|k: int| 0 <= k < image.len() ==> #[trigger] image[k] == 0 || image[k] == v,
        0 < low <= high <= v,
        !is_nan_key(v as int),
    ensures
        edge_map(image, w, h, low, high) == Seq::new(
            image.len(),
            |k: int|
                if image[k] == v {
                    255u8
                } else {
                    0u8
                },
        ),
{
    assert forall|k: int| 0 <= k < image.len() implies #[trigger] edge_map(image, w, h, low, high)[k] == (if image[k]
        == v {
        255u8
    } else {
        0u8
    }) by {
        if image[k] == v {
            lemma_strong_pixels_are_edges(image, w, h, low, high, k);
        } else {
            lemma_dim_pixels_are_not_edges(image, w, h, low, high, k);
        }
    }
    assert(edge_map(image, w, h, low, high) =~= Seq::new(
        image.len(),
        |k: int|
            if image[k] == v {
                255u8
            } else {
                0u8
            },
    ));
}

/// Each value occurs among the positive pixels as often as in the image
/// when it is positive, and not at all otherwise.
proof fn lemma_positive_count(image: Seq<i32>, v: i32)
    ensures
        positive_keys(image).to_multiset().count(v) == if is_positive_key(v) {
            image.to_multiset().count(v)
        } else {
            0
        },
    decreases image.len(),
{
    broadcast use vstd::multiset::group_multiset_axioms;

    if image.len() == 0 {
        assert(positive_keys(image) =~= Seq::<i32>::empty());
        assert(image =~= Seq::<i32>::empty());
        assert(Seq::<i32>::empty().to_multiset() =~= vstd::multiset::Multiset::empty()) by {
            Seq::<i32>::empty().to_multiset_ensures();
        }
    } else {
        let rest = image.drop_last();
        let last = image.last();
        lemma_positive_count(rest, v);
        reveal_with_fuel(Seq::<_>::filter, 1);
        rest.to_multiset_ensures();
        positive_keys(rest).to_multiset_ensures();
        assert(image =~= rest.push(last));
        if is_positive_key(last) {
            assert(positive_keys(image) == positive_keys(rest).push(last));
        } else {
            assert(positive_keys(image) == positive_keys(rest));
        }
    }
}

/// The automatic threshold does not depend on the order of the pixels: two
/// images with the same pixels, in any order, have the same ascending list
/// of positive pixels, and so the same percentile.
pub proof fn lemma_threshold_ignores_pixel_order(a: Seq<i32>, b: Seq<i32>, sorted_a: Seq<i32>, sorted_b: Seq<i32>)
    requires
        a.to_multiset() == b.to_multiset(),
        sorted_a.to_multiset() == positive_keys(a).to_multiset(),
        sorted_b.to_multiset() == positive_keys(b).to_multiset(),
        ascending(sorted_a),
        ascending(sorted_b),
    ensures
        sorted_a == sorted_b,
{
    assert forall|v: i32| #[trigger] positive_keys(a).to_multiset().count(v) == positive_keys(b).to_multiset().count(
        v,
    ) by {
        lemma_positive_count(a, v);
        lemma_positive_count(b, v);
    }
    assert(positive_keys(a).to_multiset() =~= positive_keys(b).to_multiset());
    let leq = |x: i32, y: i32| x <= y;
    assert(vstd::relations::total_ordering(leq));
    assert(vstd::relations::sorted_by(sorted_a, leq));
    assert(vstd::relations::sorted_by(sorted_b, leq));
    vstd::seq_lib::lemma_sorted_unique(sorted_a, sorted_b, leq);
}

/// Pixels that are not above 0 (zeros, negatives and NaNs) do not move the
/// automatic threshold: appending them to an image leaves its positive
/// pixels as they were.
pub proof fn lemma_non_positive_pixels_ignored(image: Seq<i32>, extra: Seq<i32>)
    requires
        forall|k: int| 0 <= k < extra.len() ==> !is_positive_key(#[trigger] extra[k]),
    ensures
        positive_keys(image + extra) == positive_keys(image),
{
    Seq::filter_distributes_over_add(image, extra, |k: i32| is_positive_key(k));
    assert(positive_keys(extra) =~= Seq::<i32>::empty()) by {
        extra.filter_lemma(|k: i32| is_positive_key(k));
        if positive_keys(extra).len() > 0 {
            let v = positive_keys(extra)[0];
            extra.lemma_filter_contains_rev(|k: i32| is_positive_key(k), v);
            assert(extra.contains(v));
        }
    }
    assert(positive_keys(image) + Seq::<i32>::empty() =~= positive_keys(image));
}

/// Rounding to `f32` moves a natural number by at most half the spacing of
/// the `f32` values near it, and not at all below `2^24`.
proof fn lemma_f32_round_near(x: nat)
    ensures
        2 * f32_round(x) <= 2 * x + f32_unit(x),
        2 * x <= 2 * f32_round(x) + f32_unit(x),
        x < F32_SIGNIFICAND_SPAN ==> f32_round(x) == x,
{
    lemma_f32_unit_bounds(x);
    let p = f32_unit(x);
    let q = x / p;
    let r = x % p;
    lemma_fundamental_div_mod(x as int, p as int);
    assert(x == p * q + r);
    assert(0 <= r < p);
    reveal(f32_round);
    if x < F32_SIGNIFICAND_SPAN {
        assert(p == 1);
        assert(r == 0);
        assert(q == x) by (nonlinear_arith)
            requires
                x == p * q + r,
                p == 1,
                r == 0,
        ;
    }
    if 2 * r > p || (2 * r == p && q % 2 == 1) {
        assert(f32_round(x) == (q + 1) * p);
        assert((q + 1) * p == p * q + p) by (nonlinear_arith);
    } else {
        assert(f32_round(x) == q * p);
        assert(q * p == p * q) by (nonlinear_arith);
    }
}

/// Rounding to `f32` moves a natural number down by at most `2^-24` of it.
proof fn lemma_f32_round_floor(x: nat)
    ensures
        f32_round(x) * F32_SIGNIFICAND_SPAN >= x * (F32_SIGNIFICAND_SPAN - 1),
{
    lemma_f32_round_near(x);
    lemma_f32_unit_bounds(x);
    if x >= F32_SIGNIFICAND_SPAN {
        let p = f32_unit(x);
        let fr = f32_round(x);
        assert(fr * 0x100_0000 >= x * 0xFF_FFFF) by (nonlinear_arith)
            requires
                2 * x <= 2 * fr + p,
                p * 0x80_0000 <= x,
        ;
    }
}

/// The automatic threshold sits at 85% of the sorted positive pixels: for
/// fewer than `2^24` of them, the chosen index is within two places of
/// `0.85 * n`.
pub proof fn lemma_percentile_is_85_percent(n: nat)
    requires
        1 <= n < 0x100_0000,
    ensures
        85 * n - 200 < 100 * percentile_index(n) < 85 * n + 140,
{
    lemma_f32_round_near(n);
    let a = f32_round(n);
    assert(a == n);
    let m = a * PERCENTILE_SIGNIFICAND as nat;
    assert(m < 0x1_0000_0000_0000) by (nonlinear_arith)
        requires
            m == n * 14260634,
            n < 0x100_0000,
    ;
    lemma_f32_round_near(m);
    lemma_f32_unit_bounds(m);
    let u = f32_unit(m);
    assert(u < 0x200_0000) by (nonlinear_arith)
        requires
            m >= 0x100_0000 ==> u * 0x80_0000 <= m,
            m < 0x100_0000 ==> u == 1,
            m < 0x1_0000_0000_0000,
    ;
    let b = f32_round(m);
    let i = percentile_index(n);
    assert(i == b / 0x100_0000);
    lemma_fundamental_div_mod(b as int, 0x100_0000);
    assert(100 * i < 85 * n + 140) by (nonlinear_arith)
        requires
            b == 0x100_0000 * i + b % 0x100_0000,
            0 <= b % 0x100_0000,
            2 * b <= 2 * m + u,
            u < 0x200_0000,
            m == n * 14260634,
            n < 0x100_0000,
    ;
    assert(100 * i > 85 * n - 200) by (nonlinear_arith)
        requires
            b == 0x100_0000 * i + b % 0x100_0000,
            b % 0x100_0000 < 0x100_0000,
            2 * m <= 2 * b + u,
            u < 0x200_0000,
            m == n * 14260634,
    ;
}

/// For any number of positive pixels the chosen index lies between 84% and
/// 86% of the count (up to one place): the `f32` arithmetic stays close to
/// the 85th percentile.
pub proof fn lemma_percentile_near_85_percent(n: nat)
    ensures
        84 * n - 100 < 100 * percentile_index(n) <= 86 * n,
{
    let a = f32_round(n);
    lemma_f32_round_bound(n);
    lemma_f32_round_floor(n);
    let m = a * PERCENTILE_SIGNIFICAND as nat;
    let b = f32_round(m);
    lemma_f32_round_bound(m);
    lemma_f32_round_floor(m);
    let i = percentile_index(n);
    assert(i == b / 0x100_0000);
    lemma_fundamental_div_mod(b as int, 0x100_0000);
    let s: int = 0x100_0000;
    let bi: int = b as int;
    assert(100 * i <= 86 * n) by (nonlinear_arith)
        requires
            s == 0x100_0000,
            bi == s * i + bi % s,
            0 <= bi % s,
            bi * s <= m * (s + 1),
            m == a * 14260634,
            a * s <= n * (s + 1),
            i >= 0,
            n >= 0,
            a >= 0,
    ;
    assert(100 * i > 84 * n - 100) by (nonlinear_arith)
        requires
            s == 0x100_0000,
            bi == s * i + bi % s,
            bi % s < s,
            bi * s >= m * (s - 1),
            m == a * 14260634,
            a * s >= n * (s - 1),
            i >= 0,
            n >= 0,
            a >= 0,
    ;
}

} // verus!
