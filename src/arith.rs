//! Facts about row-major indices.

use vstd::arithmetic::div_mod::*;
use vstd::prelude::*;

verus! {

/// A row-major index `y * width + x` of a cell inside a `height` × `width`
/// matrix lies inside the matrix.
pub proof fn lemma_index_in_bounds(y: int, x: int, height: int, width: int)
    requires
        0 <= y < height,
        0 <= x < width,
    ensures
        0 <= y * width + x < height * width,
{
    assert(0 <= y * width) by (nonlinear_arith)
        requires
            0 <= y,
            0 <= x < width,
    ;
    assert(y * width + x < height * width) by (nonlinear_arith)
        requires
            0 <= y < height,
            0 <= x < width,
    ;
}

/// Splitting a row-major index into its row and column and putting them back
/// together gives the index again; the row lies inside the matrix.
pub proof fn lemma_split_index(k: int, height: int, width: int)
    requires
        0 <= height,
        0 <= width,
        0 <= k < height * width,
    ensures
        width > 0,
        0 <= k / width < height,
        0 <= k % width < width,
        k == (k / width) * width + k % width,
{
    if width <= 0 {
        assert(height * width <= 0) by (nonlinear_arith)
            requires
                width <= 0,
                0 <= height,
                0 <= width,
                0 <= k < height * width,
        ;
    }
    lemma_fundamental_div_mod(k, width);
    assert(width * (k / width) == (k / width) * width) by (nonlinear_arith);
    lemma_div_pos_is_pos(k, width);
    lemma_mod_bound(k, width);
    if k / width >= height {
        assert((k / width) * width >= height * width) by (nonlinear_arith)
            requires
                k / width >= height,
                width > 0,
        ;
    }
}

/// Row and column of an index built from them.
pub proof fn lemma_join_index(y: int, x: int, width: int)
    requires
        0 <= x < width,
    ensures
        (y * width + x) / width == y,
        (y * width + x) % width == x,
{
    lemma_fundamental_div_mod_converse(y * width + x, width, y, x);
}

} // verus!
