//! What a drawing of a board needs: the RGB channels of a cell's color and
//! the sides of a cell that border another piece or the board's edge.
use vstd::prelude::*;

use crate::matrix::Matrix;

verus! {

/// Converts a 24-bit RGB hex color `0xRRGGBB` to its red, green and blue
/// components; higher bits are ignored.
pub fn from_rgb_u32(c: u32) -> (rgb: (u8, u8, u8))
    ensures
        rgb.0 == (c / 0x1_0000) % 0x100,
        rgb.1 == (c / 0x100) % 0x100,
        rgb.2 == c % 0x100,
{
    let r = ((c & 0x00FF_0000u32) >> 16u32) as u8;
    let g = ((c & 0x0000_FF00u32) >> 8u32) as u8;
    let b = (c & 0x0000_00FFu32) as u8;
    assert(((c & 0x00FF_0000u32) >> 16u32) == (c / 0x1_0000) % 0x100) by (bit_vector);
    assert(((c & 0x0000_FF00u32) >> 8u32) == (c / 0x100) % 0x100) by (bit_vector);
    assert((c & 0x0000_00FFu32) == c % 0x100) by (bit_vector);
    (r, g, b)
}

/// The sides of a cell that get a border line.
#[derive(Debug, Clone, Copy, PartialEq, Eq)]
pub struct CellBorders {
    pub top: bool,
    pub bottom: bool,
    pub left: bool,
    pub right: bool,
}

/// The sides of cell (`y`, `x`) that lie on the board's edge or next to a
/// cell of another value: the outline of the piece holding the cell.
pub fn cell_borders(matrix: &Matrix, y: usize, x: usize) -> (b: CellBorders)
    requires
        matrix.wf(),
        y < matrix@.nrows(),
        x < matrix@.ncols,
    ensures
        b.top == (y == 0 || matrix@.at(y - 1, x as int) != matrix@.at(y as int, x as int)),
        b.bottom == (y + 1 == matrix@.nrows() || matrix@.at(y + 1, x as int) != matrix@.at(
            y as int,
            x as int,
        )),
        b.left == (x == 0 || matrix@.at(y as int, x - 1) != matrix@.at(y as int, x as int)),
        b.right == (x + 1 == matrix@.ncols || matrix@.at(y as int, x + 1) != matrix@.at(
            y as int,
            x as int,
        )),
{
    let height = matrix.nrows();
    let width = matrix.ncols();
    let color = matrix.get(y, x);
    CellBorders {
        top: y == 0 || matrix.get(y - 1, x) != color,
        bottom: y == height - 1 || matrix.get(y + 1, x) != color,
        left: x == 0 || matrix.get(y, x - 1) != color,
        right: x == width - 1 || matrix.get(y, x + 1) != color,
    }
}

} // verus!
