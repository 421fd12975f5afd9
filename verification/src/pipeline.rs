//! The rendering pipeline: turns a decoded image and a terminal grid
//! into the exact sequence of terminal directives, row by row.

use vstd::prelude::*;
use crate::image::Image;
use crate::render::{render, spec_render};
use crate::resample::{resample, src_index, TerminalGrid};

verus! {

/// One terminal output directive.
#[derive(Clone, Copy, Debug, PartialEq, Eq, Structural)]
pub enum Directive {
    /// Clear the screen and move the cursor home; issued once, first.
    Clear,
    /// Set the background to the palette index and print one blank
    /// glyph, painting one character cell as a solid block.
    Cell(u8),
    /// End the current row.
    Newline,
}

/// The palette index of destination cell `(i, j)`: the shade of the
/// nearest-neighbor source sample's normalized luminance.
pub open spec fn cell_shade(img: Image, cols: int, rows: int, i: int, j: int) -> int {
    spec_render(
        img.sample(
            src_index(i, cols, img.width as int),
            src_index(j, rows, img.height as int),
        ),
        img.max_value as int,
    )
}

/// Renders the whole image for a terminal of `grid.cols` by `grid.rows`
/// character cells: one clear directive; then, rows outer and columns
/// inner, one colored blank cell per column and a line break per row;
/// and one trailing reset to the darkest shade.  Cell `(i, j)` of the
/// output stands at position `1 + j * (cols + 1) + i`.
#[verifier::loop_isolation(false)]
pub fn render_image(image: &Image, grid: &TerminalGrid) -> (out: Vec<Directive>)
    requires
        image.wf(),
    ensures
        out@.len() == 2 + grid.rows as int * (grid.cols as int + 1),
        out@[0] == Directive::Clear,
        out@[out@.len() - 1] == Directive::Cell(232u8),
        forall|j: int|
            0 <= j < grid.rows as int ==> #[trigger] out@[1 + j * (grid.cols as int + 1)
                + grid.cols as int] == Directive::Newline,
        forall|i: int, j: int|
            0 <= i < grid.cols as int && 0 <= j < grid.rows as int ==> #[trigger] out@[1 + j * (
            grid.cols as int + 1) + i] == Directive::Cell(
                cell_shade(*image, grid.cols as int, grid.rows as int, i, j) as u8,
            ),
{
    let cells = resample(image, grid);
    let ghost c = grid.cols as int;
    let mut out: Vec<Directive> = Vec::new();
    out.push(Directive::Clear);
    let mut j: u32 = 0;
    while j < grid.rows
        invariant
            0 <= j <= grid.rows,
            out@.len() == 1 + j as int * (c + 1),
            out@[0] == Directive::Clear,
            forall|jj: int|
                0 <= jj < j as int ==> #[trigger] out@[1 + jj * (c + 1) + c]
                    == Directive::Newline,
            forall|ii: int, jj: int|
                0 <= ii < c && 0 <= jj < j as int ==> #[trigger] out@[1 + jj * (c + 1) + ii]
                    == Directive::Cell(
                    cell_shade(*image, c, grid.rows as int, ii, jj) as u8,
                ),
        decreases grid.rows - j,
    {
        let mut i: u32 = 0;
        while i < grid.cols
            invariant
                0 <= i <= grid.cols,
                0 <= j < grid.rows,
                out@.len() == 1 + j as int * (c + 1) + i as int,
                out@[0] == Directive::Clear,
                forall|jj: int|
                    0 <= jj < j as int ==> #[trigger] out@[1 + jj * (c + 1) + c]
                        == Directive::Newline,
                forall|ii: int, jj: int|
                    0 <= ii < c && 0 <= jj < j as int ==> #[trigger] out@[1 + jj * (c + 1) + ii]
                        == Directive::Cell(
                        cell_shade(*image, c, grid.rows as int, ii, jj) as u8,
                    ),
                forall|ii: int|
                    0 <= ii < i as int ==> #[trigger] out@[1 + j as int * (c + 1) + ii]
                        == Directive::Cell(
                        cell_shade(*image, c, grid.rows as int, ii, j as int) as u8,
                    ),
            decreases grid.cols - i,
        {
            let v = cells[i as usize][j as usize];
            let idx = render(v, image.max_value);
            out.push(Directive::Cell(idx));
            proof {
                assert forall|jj: int| 0 <= jj < j as int implies #[trigger] out@[1 + jj * (c + 1)
                    + c] == Directive::Newline by {
                    assert(jj * (c + 1) + (c + 1) <= j as int * (c + 1)) by (nonlinear_arith)
                        requires 0 <= jj, jj < j as int, c >= 0;
                }
                assert forall|ii: int, jj: int| 0 <= ii < c && 0 <= jj < j as int implies
                    #[trigger] out@[1 + jj * (c + 1) + ii] == Directive::Cell(
                    cell_shade(*image, c, grid.rows as int, ii, jj) as u8,
                ) by {
                    assert(jj * (c + 1) + (c + 1) <= j as int * (c + 1)) by (nonlinear_arith)
                        requires 0 <= jj, jj < j as int, c >= 0;
                }
            }
            i = i + 1;
        }
        out.push(Directive::Newline);
        proof {
            assert((j as int + 1) * (c + 1) == j as int * (c + 1) + (c + 1)) by (nonlinear_arith);
            assert forall|jj: int| 0 <= jj < j as int + 1 implies #[trigger] out@[1 + jj * (c + 1)
                + c] == Directive::Newline by {
                if jj < j as int {
                    assert(jj * (c + 1) + (c + 1) <= j as int * (c + 1)) by (nonlinear_arith)
                        requires 0 <= jj, jj < j as int, c >= 0;
                }
            }
            assert forall|ii: int, jj: int| 0 <= ii < c && 0 <= jj < j as int + 1 implies
                #[trigger] out@[1 + jj * (c + 1) + ii] == Directive::Cell(
                cell_shade(*image, c, grid.rows as int, ii, jj) as u8,
            ) by {
                if jj < j as int {
                    assert(jj * (c + 1) + (c + 1) <= j as int * (c + 1)) by (nonlinear_arith)
                        requires 0 <= jj, jj < j as int, c >= 0;
                }
            }
        }
        j = j + 1;
    }
    out.push(Directive::Cell(232));
    proof {
        let r = grid.rows as int;
        assert forall|jj: int| 0 <= jj < r implies #[trigger] out@[1 + jj * (c + 1) + c]
            == Directive::Newline by {
            assert(jj * (c + 1) + (c + 1) <= r * (c + 1)) by (nonlinear_arith)
                requires 0 <= jj, jj < r, c >= 0;
        }
        assert forall|ii: int, jj: int| 0 <= ii < c && 0 <= jj < r implies #[trigger] out@[1 + jj
            * (c + 1) + ii] == Directive::Cell(
            cell_shade(*image, c, r, ii, jj) as u8,
        ) by {
            assert(jj * (c + 1) + (c + 1) <= r * (c + 1)) by (nonlinear_arith)
                requires 0 <= jj, jj < r, c >= 0;
        }
    }
    out
}

} // verus!
