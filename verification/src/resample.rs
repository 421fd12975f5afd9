//! Nearest-neighbor resampling: maps the source pixel grid onto the
//! terminal's character-cell grid by truncating linear scaling.

use vstd::prelude::*;
use vstd::arithmetic::div_mod::{
    lemma_div_is_ordered, lemma_div_multiples_vanish, lemma_multiply_divide_lt,
};
use crate::image::Image;

verus! {

/// The terminal's character-cell resolution, discovered once per run.
#[derive(Clone, Copy, Debug, PartialEq, Eq, Structural)]
pub struct TerminalGrid {
    pub cols: u32,
    pub rows: u32,
}

/// The source coordinate chosen for destination cell `i` of `cells`
/// along an axis of `extent` source pixels: `floor(i / cells * extent)`
/// by exact integer arithmetic.
pub open spec fn src_index(i: int, cells: int, extent: int) -> int {
    (i * extent) / cells
}

/// For a destination cell in range, the chosen source coordinate is in
/// range: no clamp is needed when the scaling is exact.
pub proof fn lemma_src_index_in_range(i: int, cells: int, extent: int)
    requires
        0 <= i < cells,
        0 < extent,
    ensures
        0 <= src_index(i, cells, extent) < extent,
{
    assert(i * extent < cells * extent) by (nonlinear_arith)
        requires 0 <= i < cells, 0 < extent;
    assert(0 <= i * extent) by (nonlinear_arith)
        requires 0 <= i, 0 < extent;
    lemma_multiply_divide_lt(i * extent, cells, extent);
    lemma_div_is_ordered(0, i * extent, cells);
}

/// Along one axis, resampling to the source's own extent chooses every
/// source coordinate unchanged.
pub proof fn lemma_src_index_identity(i: int, extent: int)
    requires
        0 <= i < extent,
    ensures
        src_index(i, extent, extent) == i,
{
    assert(i * extent == extent * i) by (nonlinear_arith);
    lemma_div_multiples_vanish(i, extent);
}

/// Resampling an image onto a grid of exactly its own dimensions
/// returns the source grid unchanged: destination cell `(i, j)` is
/// source sample `(i, j)`.
pub proof fn lemma_resample_identity(img: Image, i: int, j: int)
    requires
        img.wf(),
        0 <= i < img.width as int,
        0 <= j < img.height as int,
    ensures
        img.sample(
            src_index(i, img.width as int, img.width as int),
            src_index(j, img.height as int, img.height as int),
        ) == img.sample(i, j),
{
    lemma_src_index_identity(i, img.width as int);
    lemma_src_index_identity(j, img.height as int);
}

/// Chooses, for each destination cell, its nearest-neighbor source
/// sample: cell `(i, j)` takes the source sample at column
/// `floor(i / cols * width)`, row `floor(j / rows * height)`.  The
/// result is indexed `[i][j]`: `cols` columns of `rows` raw samples,
/// each a sample of the source grid, each at most the image's maximum
/// (so each normalized value lies in `[0, 1]`).  A grid with zero
/// columns or rows yields an empty result.
#[verifier::loop_isolation(false)]
pub fn resample(image: &Image, grid: &TerminalGrid) -> (r: Vec<Vec<u32>>)
    requires
        image.wf(),
    ensures
        r@.len() == grid.cols as int,
        forall|i: int| 0 <= i < grid.cols as int ==> #[trigger] r@[i]@.len() == grid.rows as int,
        forall|i: int, j: int|
            0 <= i < grid.cols as int && 0 <= j < grid.rows as int ==> #[trigger] r@[i]@[j] as int
                == image.sample(
                src_index(i, grid.cols as int, image.width as int),
                src_index(j, grid.rows as int, image.height as int),
            ),
        forall|i: int, j: int|
            0 <= i < grid.cols as int && 0 <= j < grid.rows as int ==> #[trigger] r@[i]@[j]
                <= image.max_value,
{
    let mut out: Vec<Vec<u32>> = Vec::new();
    let mut i: u32 = 0;
    while i < grid.cols
        invariant
            0 <= i <= grid.cols,
            out@.len() == i as int,
            forall|ii: int| 0 <= ii < i as int ==> #[trigger] out@[ii]@.len() == grid.rows as int,
            forall|ii: int, j: int|
                0 <= ii < i as int && 0 <= j < grid.rows as int ==> #[trigger] out@[ii]@[j] as int
                    == image.sample(
                    src_index(ii, grid.cols as int, image.width as int),
                    src_index(j, grid.rows as int, image.height as int),
                ),
            forall|ii: int, j: int|
                0 <= ii < i as int && 0 <= j < grid.rows as int ==> #[trigger] out@[ii]@[j]
                    <= image.max_value,
        decreases grid.cols - i,
    {
        proof {
            lemma_src_index_in_range(i as int, grid.cols as int, image.width as int);
            assert(i as int * image.width as int <= 0xffff_ffff * 0xffff_ffff) by (nonlinear_arith)
                requires 0 <= i as int <= 0xffff_ffff, 0 <= image.width as int <= 0xffff_ffff;
        }
        let sx: u32 = ((i as u64) * (image.width as u64) / (grid.cols as u64)) as u32;
        let mut col: Vec<u32> = Vec::new();
        let mut j: u32 = 0;
        while j < grid.rows
            invariant
                0 <= j <= grid.rows,
                col@.len() == j as int,
                sx as int == src_index(i as int, grid.cols as int, image.width as int),
                sx < image.width,
                forall|jj: int|
                    0 <= jj < j as int ==> #[trigger] col@[jj] as int == image.sample(
                        sx as int,
                        src_index(jj, grid.rows as int, image.height as int),
                    ),
                forall|jj: int|
                    0 <= jj < j as int ==> #[trigger] col@[jj] <= image.max_value,
            decreases grid.rows - j,
        {
            proof {
                lemma_src_index_in_range(j as int, grid.rows as int, image.height as int);
                assert(j as int * image.height as int <= 0xffff_ffff * 0xffff_ffff)
                    by (nonlinear_arith)
                    requires 0 <= j as int <= 0xffff_ffff, 0 <= image.height as int <= 0xffff_ffff;
            }
            let sy: u32 = ((j as u64) * (image.height as u64) / (grid.rows as u64)) as u32;
            col.push(image.get(sx, sy));
            j = j + 1;
        }
        out.push(col);
        i = i + 1;
    }
    out
}

} // verus!
