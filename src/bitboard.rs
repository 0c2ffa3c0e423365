//! Boards of at most 64 cells as bit masks, and the placements of a piece
//! on such a board.
use vstd::prelude::*;

use crate::matrix::{Grid, Matrix};
use crate::models::Piece;
use crate::tiling::lemma_shape_bits;

verus! {

/// One bit per board cell, row after row: bit `r * columns + c` stands for
/// cell `(r, c)`.
pub type BitBoard = u64;

/// The mask with only bit `i` set.
pub open spec fn single_bit(i: int) -> u64 {
    1u64 << (i as u64)
}

/// Bits `base + c` for the non-zero cells among the first `n` of `row`.
pub open spec fn row_bits(row: Seq<u32>, base: int, n: int) -> u64
    decreases n,
{
    if n <= 0 {
        0
    } else if row[n - 1] != 0 {
        row_bits(row, base, n - 1) | single_bit(base + n - 1)
    } else {
        row_bits(row, base, n - 1)
    }
}

/// Bits of the non-zero cells among the first `n` rows of `g`, with `g`'s
/// top-left cell at board cell `(off_r, off_c)`.
pub open spec fn shape_bits(g: Grid, board_cols: int, off_r: int, off_c: int, n: int) -> u64
    decreases n,
{
    if n <= 0 {
        0
    } else {
        shape_bits(g, board_cols, off_r, off_c, n - 1) | row_bits(
            g.cells[n - 1],
            (off_r + n - 1) * board_cols + off_c,
            g.ncols as int,
        )
    }
}

/// The mask of `g` placed with its top-left cell at `(off_r, off_c)`.
pub open spec fn placement_bits(g: Grid, board_cols: int, off_r: int, off_c: int) -> u64 {
    shape_bits(g, board_cols, off_r, off_c, g.nrows() as int)
}

/// `g` fits on the board when its top-left cell is at `(off_r, off_c)`.
pub open spec fn fits_at(g: Grid, board_rows: int, board_cols: int, off_r: int, off_c: int) -> bool {
    &&& 0 <= off_r
    &&& 0 <= off_c
    &&& off_r + g.nrows() <= board_rows
    &&& off_c + g.ncols <= board_cols
}

/// Every cell of `g` is 0 or 1.
pub open spec fn zero_one(g: Grid) -> bool {
    forall|r: int, c: int| 0 <= r < g.nrows() && 0 <= c < g.ncols ==> #[trigger] g.at(r, c) <= 1
}

proof fn lemma_index_below(i: int, r: int, cols: int, c: int, rows: int)
    requires
        0 <= r < rows,
        0 <= c < cols,
        rows * cols <= 64,
        i == r * cols + c,
    ensures
        0 <= i < 64,
        i < rows * cols,
{
    assert(0 <= r * cols) by (nonlinear_arith)
        requires
            0 <= r,
            0 <= c < cols,
    ;
    assert(r * cols + c < rows * cols) by (nonlinear_arith)
        requires
            0 <= r < rows,
            0 <= c < cols,
    ;
}

/// Convert a piece matrix into the `BitBoard` of the board cells it covers
/// when its top-left cell is at (`offset_row`, `offset_col`).
pub fn matrix_to_bitboard(
    matrix: &Matrix,
    board_rows: usize,
    board_cols: usize,
    offset_row: usize,
    offset_col: usize,
) -> (bits: BitBoard)
    requires
        matrix.wf(),
        board_rows * board_cols <= 64,
        fits_at(matrix@, board_rows as int, board_cols as int, offset_row as int, offset_col as int),
    ensures
        bits == placement_bits(matrix@, board_cols as int, offset_row as int, offset_col as int),
        forall|r: int, c: int|
            0 <= r < board_rows && 0 <= c < board_cols ==> (#[trigger] bit_set(bits, r * board_cols + c) <==> (
            offset_row <= r < offset_row + matrix@.nrows() && offset_col <= c < offset_col + matrix@.ncols
                && matrix@.at(r - offset_row, c - offset_col) != 0)),
{
    let ghost g = matrix@;
    let mut bits: BitBoard = 0;
    for r in 0..matrix.rows.len()
        invariant
            matrix.wf(),
            g == matrix@,
            board_rows * board_cols <= 64,
            fits_at(g, board_rows as int, board_cols as int, offset_row as int, offset_col as int),
            bits == shape_bits(g, board_cols as int, offset_row as int, offset_col as int, r as int),
    {
        let row = &matrix.rows[r];
        assert(row@ == g.cells[r as int]);
        proof {
            assert((offset_row + r) * board_cols <= board_rows * board_cols && board_cols <= board_rows
                * board_cols) by (nonlinear_arith)
                requires
                    offset_row + r < board_rows,
            ;
        }
        let base = (offset_row + r) * board_cols + offset_col;
        proof {
            if g.ncols > 0 {
                lemma_index_below(
                    base as int,
                    offset_row + r,
                    board_cols as int,
                    offset_col as int,
                    board_rows as int,
                );
            }
        }
        let mut rb: BitBoard = 0;
        for c in 0..matrix.ncols
            invariant
                matrix.wf(),
                g == matrix@,
                r < g.nrows(),
                row@ == g.cells[r as int],
                row@.len() == g.ncols,
                board_rows * board_cols <= 64,
                fits_at(g, board_rows as int, board_cols as int, offset_row as int, offset_col as int),
                base == (offset_row + r) * board_cols + offset_col,
                rb == row_bits(row@, base as int, c as int),
        {
            if row[c] != 0 {
                proof {
                    lemma_index_below(
                        base + c,
                        offset_row + r,
                        board_cols as int,
                        offset_col + c,
                        board_rows as int,
                    );
                }
                let idx = base + c;
                rb = rb | (1u64 << (idx as u64));
            }
        }
        bits = bits | rb;
    }
    assert forall|r: int, c: int| 0 <= r < board_rows && 0 <= c < board_cols implies (#[trigger] bit_set(
        bits,
        r * board_cols + c,
    ) <==> (offset_row <= r < offset_row + g.nrows() && offset_col <= c < offset_col + g.ncols && g.at(
        r - offset_row,
        c - offset_col,
    ) != 0)) by {
        lemma_shape_bits(
            g,
            board_rows as int,
            board_cols as int,
            offset_row as int,
            offset_col as int,
            g.nrows() as int,
            r,
            c,
        );
    }
    bits
}

/// Bit `i` of `bits` is set.
pub open spec fn bit_set(bits: u64, i: int) -> bool {
    (bits >> (i as u64)) & 1 == 1
}

/// The `rows` x `cols` matrix with 1 on the cells whose bit is set in `bits`
/// and 0 elsewhere.
pub fn bitboard_to_matrix(bits: BitBoard, rows: usize, cols: usize) -> (m: Matrix)
    requires
        rows * cols <= 64,
    ensures
        m.wf(),
        m@.nrows() == rows,
        m@.ncols == cols,
        forall|r: int, c: int|
            0 <= r < rows && 0 <= c < cols ==> #[trigger] m@.at(r, c) == if bit_set(bits, r * cols + c) {
                1u32
            } else {
                0u32
            },
{
    let mut out: Vec<Vec<u32>> = Vec::new();
    for r in 0..rows
        invariant
            rows * cols <= 64,
            out@.len() == r,
            forall|k: int| 0 <= k < r ==> (#[trigger] out@[k])@.len() == cols,
            forall|k: int, c: int|
                0 <= k < r && 0 <= c < cols ==> #[trigger] out@[k]@[c] == if bit_set(bits, k * cols + c) {
                    1u32
                } else {
                    0u32
                },
    {
        let mut row: Vec<u32> = Vec::new();
        for c in 0..cols
            invariant
                rows * cols <= 64,
                r < rows,
                row@.len() == c,
                forall|k: int|
                    0 <= k < c ==> #[trigger] row@[k] == if bit_set(bits, r * cols + k) {
                        1u32
                    } else {
                        0u32
                    },
        {
            proof {
                lemma_index_below(r * cols + c, r as int, cols as int, c as int, rows as int);
            }
            let idx = r * cols + c;
            row.push(if (bits >> (idx as u64)) & 1 == 1 { 1 } else { 0 });
        }
        out.push(row);
    }
    Matrix { ncols: cols, rows: out }
}

/// The board-sized grid holding `g`'s cells times `color` from board cell
/// `(off_r, off_c)` on, and 0 elsewhere.
pub open spec fn placed_grid(g: Grid, color: u32, rows: int, cols: int, off_r: int, off_c: int) -> Grid {
    Grid {
        ncols: cols as nat,
        cells: Seq::new(
            rows as nat,
            |br: int|
                Seq::new(
                    cols as nat,
                    |bc: int|
                        if off_r <= br < off_r + g.nrows() && off_c <= bc < off_c + g.ncols {
                            (g.at(br - off_r, bc - off_c) * color) as u32
                        } else {
                            0u32
                        },
                ),
        ),
    }
}

/// The placement of `g` with its top-left cell at `(off_r, off_c)`.
pub open spec fn placement(g: Grid, color: u32, rows: int, cols: int, off_r: int, off_c: int) -> (
    u64,
    Grid,
) {
    (placement_bits(g, cols, off_r, off_c), placed_grid(g, color, rows, cols, off_r, off_c))
}

/// The placements with their top-left cell in the first `k` allowed rows,
/// row after row and left to right within a row.
pub open spec fn placements_upto(g: Grid, color: u32, rows: int, cols: int, k: int) -> Seq<
    (u64, Grid),
>
    decreases k,
{
    if k <= 0 {
        Seq::empty()
    } else {
        placements_upto(g, color, rows, cols, k - 1) + Seq::new(
            (cols - g.ncols + 1) as nat,
            |c: int| placement(g, color, rows, cols, k - 1, c),
        )
    }
}

/// Every placement of `g` on a `rows` x `cols` board, by top-left cell in
/// row-major order; none when `g` is larger than the board.
pub open spec fn all_positions(g: Grid, color: u32, rows: int, cols: int) -> Seq<(u64, Grid)> {
    if g.nrows() > rows || g.ncols > cols {
        Seq::empty()
    } else {
        placements_upto(g, color, rows, cols, rows - g.nrows() + 1)
    }
}

/// Every placement of `g` is a well-formed `rows` x `cols` grid.
pub proof fn lemma_positions_board_sized(g: Grid, color: u32, rows: int, cols: int)
    requires
        rows >= 0,
        cols >= 0,
    ensures
        forall|k: int|
            0 <= k < all_positions(g, color, rows, cols).len() ==> {
                let p = #[trigger] all_positions(g, color, rows, cols)[k];
                &&& p.1.wf()
                &&& p.1.nrows() == rows
                &&& p.1.ncols == cols
            },
{
    if !(g.nrows() > rows || g.ncols > cols) {
        lemma_upto_board_sized(g, color, rows, cols, rows - g.nrows() + 1);
    }
}

proof fn lemma_upto_board_sized(g: Grid, color: u32, rows: int, cols: int, n: int)
    requires
        rows >= 0,
        cols >= 0,
    ensures
        forall|k: int|
            0 <= k < placements_upto(g, color, rows, cols, n).len() ==> {
                let p = #[trigger] placements_upto(g, color, rows, cols, n)[k];
                &&& p.1.wf()
                &&& p.1.nrows() == rows
                &&& p.1.ncols == cols
            },
    decreases n,
{
    if n > 0 {
        lemma_upto_board_sized(g, color, rows, cols, n - 1);
        let a = placements_upto(g, color, rows, cols, n - 1);
        let b = Seq::new((cols - g.ncols + 1) as nat, |c: int| placement(g, color, rows, cols, n - 1, c));
        assert forall|k: int| 0 <= k < (a + b).len() implies {
            let p = #[trigger] (a + b)[k];
            &&& p.1.wf()
            &&& p.1.nrows() == rows
            &&& p.1.ncols == cols
        } by {
            if k >= a.len() {
                assert((a + b)[k] == b[k - a.len()]);
            } else {
                assert((a + b)[k] == a[k]);
            }
        }
    }
}

/// Models of a list of placements.
pub open spec fn placements_view(v: Seq<(BitBoard, Matrix)>) -> Seq<(u64, Grid)> {
    v.map_values(|p: (BitBoard, Matrix)| (p.0, p.1@))
}

/// Every matrix of a list of placements is well formed.
pub open spec fn placements_wf(v: Seq<(BitBoard, Matrix)>) -> bool {
    forall|k: int| 0 <= k < v.len() ==> (#[trigger] v[k]).1.wf()
}

/// The board-sized matrix holding the piece's cells times its color at
/// (`off_r`, `off_c`).
fn placed_matrix(piece: &Piece, rows: usize, cols: usize, off_r: usize, off_c: usize) -> (m: Matrix)
    requires
        piece.matrix.wf(),
        zero_one(piece.matrix@),
        fits_at(piece.matrix@, rows as int, cols as int, off_r as int, off_c as int),
    ensures
        m.wf(),
        m@ == placed_grid(piece.matrix@, piece.color, rows as int, cols as int, off_r as int, off_c as int),
{
    let ghost g = piece.matrix@;
    let ghost target = placed_grid(g, piece.color, rows as int, cols as int, off_r as int, off_c as int);
    let h = piece.matrix.nrows();
    let w = piece.matrix.ncols();
    let mut out: Vec<Vec<u32>> = Vec::new();
    for br in 0..rows
        invariant
            piece.matrix.wf(),
            g == piece.matrix@,
            zero_one(g),
            fits_at(g, rows as int, cols as int, off_r as int, off_c as int),
            h == g.nrows(),
            w == g.ncols,
            target == placed_grid(g, piece.color, rows as int, cols as int, off_r as int, off_c as int),
            out@.len() == br,
            forall|k: int| 0 <= k < br ==> (#[trigger] out@[k])@ == target.cells[k],
    {
        let mut row: Vec<u32> = Vec::new();
        for bc in 0..cols
            invariant
                piece.matrix.wf(),
                g == piece.matrix@,
                zero_one(g),
                fits_at(g, rows as int, cols as int, off_r as int, off_c as int),
                h == g.nrows(),
                w == g.ncols,
                target == placed_grid(g, piece.color, rows as int, cols as int, off_r as int, off_c as int),
                br < rows,
                row@ == target.cells[br as int].take(bc as int),
        {
            let v: u32 = if off_r <= br && br < off_r + h && off_c <= bc && bc < off_c + w {
                let x = piece.matrix.get(br - off_r, bc - off_c);
                assert(x <= 1);
                assert(x * piece.color <= piece.color) by (nonlinear_arith)
                    requires
                        x <= 1,
                ;
                x * piece.color
            } else {
                0
            };
            row.push(v);
            assert(row@ == target.cells[br as int].take(bc + 1));
        }
        assert(row@ == target.cells[br as int]);
        out.push(row);
    }
    let m = Matrix { ncols: cols, rows: out };
    assert(m@.cells == target.cells);
    m
}

/// Generate all placements of a piece on a `board_rows` x `board_cols`
/// board, as pairs of the covered cells' mask and the board-sized matrix
/// holding the piece's color on them; by top-left cell, in row-major order.
pub fn generate_positions(piece: &Piece, board_rows: usize, board_cols: usize) -> (positions: Vec<
    (BitBoard, Matrix),
>)
    requires
        piece.matrix.wf(),
        zero_one(piece.matrix@),
        piece.matrix@.nrows() >= 1,
        piece.matrix@.ncols >= 1,
        board_rows * board_cols <= 64,
    ensures
        placements_wf(positions@),
        placements_view(positions@) == all_positions(
            piece.matrix@,
            piece.color,
            board_rows as int,
            board_cols as int,
        ),
{
    let ghost g = piece.matrix@;
    let mut positions: Vec<(BitBoard, Matrix)> = Vec::new();
    let h = piece.matrix.nrows();
    let w = piece.matrix.ncols();
    if h > board_rows || w > board_cols {
        assert(placements_view(positions@) == Seq::<(u64, Grid)>::empty());
        return positions;
    }
    assert(board_rows <= 64 && board_cols <= 64) by (nonlinear_arith)
        requires
            board_rows >= 1,
            board_cols >= 1,
            board_rows * board_cols <= 64,
    ;
    let mut start_row: usize = 0;
    while start_row <= board_rows - h
        invariant
            piece.matrix.wf(),
            g == piece.matrix@,
            zero_one(g),
            board_rows * board_cols <= 64,
            h == g.nrows(),
            w == g.ncols,
            h <= board_rows,
            w <= board_cols,
            board_rows <= 64,
            board_cols <= 64,
            placements_wf(positions@),
            placements_view(positions@) == placements_upto(
                g,
                piece.color,
                board_rows as int,
                board_cols as int,
                start_row as int,
            ),
            start_row <= board_rows - h + 1,
        decreases board_rows - h + 1 - start_row,
    {
        let ghost before = placements_view(positions@);
        let mut start_col: usize = 0;
        while start_col <= board_cols - w
            invariant
                piece.matrix.wf(),
                g == piece.matrix@,
                zero_one(g),
                board_rows * board_cols <= 64,
                h == g.nrows(),
                w == g.ncols,
                start_row + h <= board_rows,
                w <= board_cols,
                board_rows <= 64,
                board_cols <= 64,
                start_col <= board_cols - w + 1,
                placements_wf(positions@),
                placements_view(positions@) == before + Seq::new(
                    start_col as nat,
                    |c: int| placement(g, piece.color, board_rows as int, board_cols as int, start_row as int, c),
                ),
            decreases board_cols - w + 1 - start_col,
        {
            let bits = matrix_to_bitboard(&piece.matrix, board_rows, board_cols, start_row, start_col);
            let placed = placed_matrix(piece, board_rows, board_cols, start_row, start_col);
            let ghost old_positions = positions@;
            positions.push((bits, placed));
            assert(positions@ == old_positions.push((bits, placed)));
            assert(placements_view(positions@) == placements_view(old_positions).push(
                placement(g, piece.color, board_rows as int, board_cols as int, start_row as int, start_col as int),
            ));
            assert(placements_view(positions@) == before + Seq::new(
                (start_col + 1) as nat,
                |c: int| placement(g, piece.color, board_rows as int, board_cols as int, start_row as int, c),
            ));
            start_col = start_col + 1;
        }
        start_row = start_row + 1;
    }
    positions
}

} // verus!
