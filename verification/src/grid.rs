//! Row-major pixel grids: how a pixel number and its row and column
//! determine each other.
use vstd::arithmetic::div_mod::{lemma_fundamental_div_mod, lemma_fundamental_div_mod_converse};
use vstd::prelude::*;

verus! {

/// The pixel at row `ny`, column `nx` of a `width × height` grid has number
/// `ny * width + nx`, below `width * height`, and that number gives the row
/// and column back.
pub proof fn lemma_grid_index(width: int, height: int, ny: int, nx: int)
    requires
        width > 0,
        0 <= ny < height,
        0 <= nx < width,
    ensures
        (ny * width + nx) / width == ny,
        (ny * width + nx) % width == nx,
        0 <= ny * width + nx < width * height,
{
    lemma_fundamental_div_mod_converse(ny * width + nx, width, ny, nx);
    assert(ny * width + nx < width * height) by (nonlinear_arith)
        requires
            width > 0,
            0 <= ny < height,
            0 <= nx < width,
    ;
    assert(0 <= ny * width) by (nonlinear_arith)
        requires
            width > 0,
            0 <= ny,
    ;
}

/// A pixel number below `width * height` has its row below `height` and
/// its column below `width`.
pub proof fn lemma_index_in_grid(width: int, height: int, i: int)
    requires
        0 <= width,
        0 <= height,
        0 <= i < width * height,
    ensures
        width > 0,
        0 <= i / width < height,
        0 <= i % width < width,
{
    if width <= 0 {
        assert(width * height <= 0) by (nonlinear_arith)
            requires
                width <= 0,
                0 <= width,
                0 <= height,
                i >= 0,
                i < width * height,
        ;
    }
    lemma_fundamental_div_mod(i, width);
    assert(0 <= i / width < height) by (nonlinear_arith)
        requires
            width > 0,
            0 <= i < width * height,
            i == width * (i / width) + i % width,
            0 <= i % width < width,
    ;
}

/// Row `y`, column `x` of a grid `width` wide is pixel number
/// `y * width + x`, and back.
pub proof fn lemma_grid_div_mod(width: int, y: int, x: int)
    requires
        width > 0,
        0 <= x < width,
    ensures
        (y * width + x) / width == y,
        (y * width + x) % width == x,
{
    lemma_fundamental_div_mod_converse(y * width + x, width, y, x);
}

} // verus!
