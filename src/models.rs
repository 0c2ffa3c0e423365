//! Pieces and puzzles.
use vstd::prelude::*;

use crate::matrix::{Grid, Matrix};
use crate::matrix_tools::is_frame;

verus! {

/// Sum of the values in `s`.
pub open spec fn seq_sum(s: Seq<u32>) -> int
    decreases s.len(),
{
    if s.len() == 0 {
        0
    } else {
        seq_sum(s.drop_last()) + s.last()
    }
}

/// Sum of all the cells of a grid.
pub open spec fn grid_sum(cells: Seq<Seq<u32>>) -> int
    decreases cells.len(),
{
    if cells.len() == 0 {
        0
    } else {
        grid_sum(cells.drop_last()) + seq_sum(cells.last())
    }
}

/// A grid of 0 / 1 cells with at least one row, one column and one
/// occupied cell.
pub open spec fn is_shape(g: Grid) -> bool {
    &&& is_frame(g)
    &&& grid_sum(g.cells) >= 1
}

/// Largest color value: colors are 24-bit RGB.
pub const MAX_COLOR: u32 = 0x00FF_FFFF;

/// A piece: an occupancy matrix (non-zero where the piece has a cell) with
/// a fill color and a color for terminal display.
#[derive(Debug, Clone, PartialEq, Eq)]
pub struct Piece {
    pub matrix: Matrix,
    pub color: u32,
    pub tui_color: u32,
}

impl Piece {
    /// Number of cells of the piece: the sum of its matrix.
    pub open spec fn cell_count(&self) -> int {
        grid_sum(self.matrix@.cells)
    }

    /// A 0 / 1 shape with at least one cell and a 24-bit fill color.
    pub open spec fn wf(&self) -> bool {
        &&& self.matrix.wf()
        &&& is_shape(self.matrix@)
        &&& self.color <= MAX_COLOR
    }

    /// Same shape and colors.
    pub open spec fn same_piece(&self, other: Piece) -> bool {
        &&& self.matrix.wf()
        &&& self.matrix@ == other.matrix@
        &&& self.color == other.color
        &&& self.tui_color == other.tui_color
    }

    /// A copy of this piece.
    pub fn duplicate(&self) -> (p: Piece)
        requires
            self.matrix.wf(),
        ensures
            p.same_piece(*self),
    {
        Piece { matrix: self.matrix.duplicate(), color: self.color, tui_color: self.tui_color }
    }

    /// The number of cells of the piece, or `None` when it exceeds `u32`.
    pub fn checked_cells(&self) -> (n: Option<u32>)
        requires
            self.matrix.wf(),
        ensures
            n == if self.cell_count() <= u32::MAX {
                Some(self.cell_count() as u32)
            } else {
                None::<u32>
            },
    {
        let ghost g = self.matrix@;
        let mut total: u32 = 0;
        for r in 0..self.matrix.rows.len()
            invariant
                self.matrix.wf(),
                g == self.matrix@,
                total == grid_sum(g.cells.take(r as int)),
        {
            let row = &self.matrix.rows[r];
            assert(row@ == g.cells[r as int]);
            assert(g.cells.take(r + 1).drop_last() == g.cells.take(r as int));
            assert(g.cells.take(r + 1).last() == g.cells[r as int]);
            let mut s: u32 = 0;
            for c in 0..row.len()
                invariant
                    g == self.matrix@,
                    row@ == g.cells[r as int],
                    r < g.cells.len(),
                    total == grid_sum(g.cells.take(r as int)),
                    s == seq_sum(row@.take(c as int)),
            {
                assert(row@.take(c + 1).drop_last() == row@.take(c as int));
                match s.checked_add(row[c]) {
                    Some(v) => {
                        s = v;
                    },
                    None => {
                        proof {
                            lemma_seq_sum_prefix(row@, c + 1);
                            lemma_grid_sum_prefix(g.cells, r + 1);
                            lemma_grid_sum_prefix(g.cells, r as int);
                            lemma_grid_sum_prefix(g.cells, r + 1);
                            assert(g.cells.take(r + 1).drop_last() == g.cells.take(r as int));
                            assert(g.cells.take(r + 1).last() == g.cells[r as int]);
                            assert(row@.take(c + 1).last() == row@[c as int]);
                            assert(seq_sum(row@.take(c + 1)) == s + row@[c as int]);
                            assert(s + row@[c as int] > u32::MAX);
                            assert(seq_sum(row@.take(c + 1)) <= seq_sum(row@));
                            assert(grid_sum(g.cells.take(r + 1)) <= grid_sum(g.cells));
                            assert(grid_sum(g.cells) > u32::MAX);
                            assert(self.cell_count() > u32::MAX);
                            assert(grid_sum(g.cells.take(r + 1)) == total + seq_sum(row@));
                        }
                        return None;
                    },
                }
            }
            assert(row@.take(row@.len() as int) == row@);
            match total.checked_add(s) {
                Some(v) => {
                    total = v;
                },
                None => {
                    proof {
                        lemma_grid_sum_prefix(g.cells, r + 1);
                        assert(grid_sum(g.cells.take(r + 1)) == total + seq_sum(row@));
                    }
                    return None;
                },
            }
        }
        assert(g.cells.take(g.cells.len() as int) == g.cells);
        Some(total)
    }

    /// Returns the total number of cells occupied by this piece.
    pub fn cells(&self) -> (n: u32)
        requires
            self.matrix.wf(),
            self.cell_count() <= u32::MAX,
        ensures
            n == self.cell_count(),
    {
        let ghost g = self.matrix@;
        let mut total: u32 = 0;
        for r in 0..self.matrix.rows.len()
            invariant
                self.matrix.wf(),
                g == self.matrix@,
                grid_sum(g.cells) <= u32::MAX,
                total == grid_sum(g.cells.take(r as int)),
        {
            let row = &self.matrix.rows[r];
            assert(row@ == g.cells[r as int]);
            let mut s: u32 = 0;
            for c in 0..row.len()
                invariant
                    row@ == g.cells[r as int],
                    r < g.cells.len(),
                    grid_sum(g.cells) <= u32::MAX,
                    total == grid_sum(g.cells.take(r as int)),
                    s == seq_sum(row@.take(c as int)),
            {
                assert(row@.take(c + 1).drop_last() == row@.take(c as int));
                proof {
                    lemma_grid_sum_prefix(g.cells, r + 1);
                    lemma_seq_sum_prefix(row@, c + 1);
                    assert(g.cells.take(r + 1).drop_last() == g.cells.take(r as int));
                    assert(row@.take(row@.len() as int) == row@);
                }
                s = s + row[c];
            }
            assert(row@.take(row@.len() as int) == row@);
            assert(g.cells.take(r + 1).drop_last() == g.cells.take(r as int));
            proof {
                lemma_grid_sum_prefix(g.cells, r + 1);
            }
            total = total + s;
        }
        assert(g.cells.take(g.cells.len() as int) == g.cells);
        total
    }
}

/// Sum of the cell counts of `pieces`.
pub open spec fn pieces_cells(pieces: Seq<Piece>) -> int
    decreases pieces.len(),
{
    if pieces.len() == 0 {
        0
    } else {
        pieces_cells(pieces.drop_last()) + pieces.last().cell_count()
    }
}

/// A puzzle: the board's column count and the pieces to place on it.
pub struct Game {
    pub columns: u32,
    pub pieces: Vec<Piece>,
}

impl Game {
    /// Total number of cells of all pieces.
    pub open spec fn total_cells(&self) -> int {
        pieces_cells(self.pieces@)
    }

    /// Every piece matrix is well formed and the cell total fits in `u32`.
    pub open spec fn countable(&self) -> bool {
        &&& forall|i: int| 0 <= i < self.pieces@.len() ==> (#[trigger] self.pieces@[i]).matrix.wf()
        &&& self.total_cells() <= u32::MAX
    }

    /// Rows of the board: as many full rows as the cells make.
    pub open spec fn board_rows(&self) -> int {
        self.total_cells() / self.columns as int
    }

    /// The cells fill whole rows exactly and there are at least two pieces.
    pub open spec fn valid(&self) -> bool {
        &&& self.total_cells() == self.board_rows() * self.columns
        &&& self.pieces@.len() > 1
    }

    /// Checks if the game configuration is valid: the pieces' cells fill the
    /// board exactly and there are at least two pieces.
    pub fn is_valid(&self) -> (b: bool)
        requires
            self.countable(),
            self.columns > 0,
        ensures
            b == self.valid(),
    {
        let cells = self.cells();
        let rows = self.rows();
        proof {
            lemma_pieces_cells_nonneg(self.pieces@);
            assert(rows * self.columns <= cells) by (nonlinear_arith)
                requires
                    rows as int == (cells as int) / (self.columns as int),
                    self.columns > 0,
                    cells >= 0,
            ;
        }
        cells == rows * self.columns && self.pieces.len() > 1
    }

    /// Number of rows of the game board.
    pub fn rows(&self) -> (n: u32)
        requires
            self.countable(),
            self.columns > 0,
        ensures
            n == self.board_rows(),
    {
        self.cells() / self.columns
    }

    /// Returns the total number of cells occupied by all pieces.
    pub fn cells(&self) -> (n: u32)
        requires
            self.countable(),
        ensures
            n == self.total_cells(),
    {
        let mut total: u32 = 0;
        for i in 0..self.pieces.len()
            invariant
                self.countable(),
                total == pieces_cells(self.pieces@.take(i as int)),
        {
            proof {
                lemma_pieces_cells_prefix(self.pieces@, i + 1);
                assert(self.pieces@.take(i + 1).drop_last() == self.pieces@.take(i as int));
                lemma_pieces_cells_prefix(self.pieces@, i as int);
                lemma_grid_sum_nonneg(self.pieces@[i as int].matrix@.cells);
            }
            total = total + self.pieces[i].cells();
        }
        assert(self.pieces@.take(self.pieces@.len() as int) == self.pieces@);
        total
    }

    /// The number of cells still needed to complete the next full row; 0
    /// when the game is valid.
    pub fn missing_cells(&self) -> (n: u32)
        requires
            self.countable(),
            self.columns > 0,
            self.total_cells() + self.columns <= u32::MAX,
        ensures
            n == if self.valid() {
                0
            } else {
                (self.board_rows() + 1) * self.columns - self.total_cells()
            },
    {
        if self.is_valid() {
            0
        } else {
            let rows = self.rows();
            let cells = self.cells();
            proof {
                lemma_pieces_cells_nonneg(self.pieces@);
                assert((rows + 1) * self.columns <= cells + self.columns && cells < (rows + 1)
                    * self.columns) by (nonlinear_arith)
                    requires
                        rows as int == (cells as int) / (self.columns as int),
                        self.columns > 0,
                        cells >= 0,
                ;
            }
            (rows + 1) * self.columns - cells
        }
    }

    /// The indices of the pieces, in order.
    pub fn piece_ids(&self) -> (ids: Vec<usize>)
        ensures
            ids@ == Seq::new(self.pieces@.len(), |i: int| i as usize),
    {
        let mut ids: Vec<usize> = Vec::new();
        for i in 0..self.pieces.len()
            invariant
                ids@ == Seq::new(i as nat, |k: int| k as usize),
        {
            ids.push(i);
        }
        ids
    }

    /// The piece at index `id`, or `None` when there is none.
    pub fn piece(&self, id: usize) -> (p: Option<&Piece>)
        ensures
            p == if id < self.pieces@.len() {
                Some(&self.pieces@[id as int])
            } else {
                None
            },
    {
        if id < self.pieces.len() {
            Some(&self.pieces[id])
        } else {
            None
        }
    }

    /// A game with the same columns and the pieces of `game` at
    /// `piece_ids`, in that order.
    pub fn game_from_game(game: &Self, piece_ids: Vec<usize>) -> (g: Self)
        requires
            forall|k: int| 0 <= k < piece_ids@.len() ==> #[trigger] piece_ids@[k] < game.pieces@.len(),
            forall|i: int| 0 <= i < game.pieces@.len() ==> (#[trigger] game.pieces@[i]).matrix.wf(),
        ensures
            g.columns == game.columns,
            g.pieces@.len() == piece_ids@.len(),
            forall|k: int|
                0 <= k < piece_ids@.len() ==> (#[trigger] g.pieces@[k]).same_piece(
                    game.pieces@[piece_ids@[k] as int],
                ),
    {
        let mut pieces: Vec<Piece> = Vec::new();
        for k in 0..piece_ids.len()
            invariant
                forall|j: int| 0 <= j < piece_ids@.len() ==> #[trigger] piece_ids@[j] < game.pieces@.len(),
                forall|i: int| 0 <= i < game.pieces@.len() ==> (#[trigger] game.pieces@[i]).matrix.wf(),
                pieces@.len() == k,
                forall|j: int|
                    0 <= j < k ==> (#[trigger] pieces@[j]).same_piece(game.pieces@[piece_ids@[j] as int]),
        {
            let id = piece_ids[k];
            pieces.push(game.pieces[id].duplicate());
        }
        Game { columns: game.columns, pieces }
    }
}

/// One piece has at most the cells of all of them.
pub proof fn lemma_piece_within_total(pieces: Seq<Piece>, i: int)
    requires
        0 <= i < pieces.len(),
    ensures
        0 <= pieces[i].cell_count() <= pieces_cells(pieces),
    decreases pieces.len(),
{
    lemma_grid_sum_nonneg(pieces[i].matrix@.cells);
    lemma_pieces_cells_nonneg(pieces.drop_last());
    if i < pieces.len() - 1 {
        lemma_piece_within_total(pieces.drop_last(), i);
        lemma_grid_sum_nonneg(pieces.last().matrix@.cells);
    }
}

/// With at least one cell per piece there are no more pieces than cells.
pub proof fn lemma_pieces_at_most_cells(pieces: Seq<Piece>)
    requires
        forall|i: int| 0 <= i < pieces.len() ==> (#[trigger] pieces[i]).cell_count() >= 1,
    ensures
        pieces.len() <= pieces_cells(pieces),
    decreases pieces.len(),
{
    if pieces.len() > 0 {
        assert(pieces.last() == pieces[pieces.len() - 1]);
        lemma_pieces_at_most_cells(pieces.drop_last());
    }
}

/// A prefix of the pieces has at most the cells of all of them.
pub proof fn lemma_pieces_cells_prefix(pieces: Seq<Piece>, k: int)
    requires
        0 <= k <= pieces.len(),
    ensures
        0 <= pieces_cells(pieces.take(k)) <= pieces_cells(pieces),
    decreases pieces.len(),
{
    if k < pieces.len() {
        lemma_pieces_cells_prefix(pieces.drop_last(), k);
        assert(pieces.drop_last().take(k) == pieces.take(k));
        lemma_grid_sum_nonneg(pieces.last().matrix@.cells);
    } else {
        assert(pieces.take(k) == pieces);
        lemma_pieces_cells_nonneg(pieces);
    }
}

pub proof fn lemma_pieces_cells_nonneg(pieces: Seq<Piece>)
    ensures
        pieces_cells(pieces) >= 0,
    decreases pieces.len(),
{
    if pieces.len() > 0 {
        lemma_pieces_cells_nonneg(pieces.drop_last());
        lemma_grid_sum_nonneg(pieces.last().matrix@.cells);
    }
}

/// A prefix of a row sums to at most the whole row.
pub proof fn lemma_seq_sum_prefix(s: Seq<u32>, k: int)
    requires
        0 <= k <= s.len(),
    ensures
        0 <= seq_sum(s.take(k)) <= seq_sum(s),
    decreases s.len(),
{
    if k < s.len() {
        lemma_seq_sum_prefix(s.drop_last(), k);
        assert(s.drop_last().take(k) == s.take(k));
    } else {
        assert(s.take(k) == s);
        lemma_seq_sum_nonneg(s);
    }
}

pub proof fn lemma_seq_sum_nonneg(s: Seq<u32>)
    ensures
        seq_sum(s) >= 0,
    decreases s.len(),
{
    if s.len() > 0 {
        lemma_seq_sum_nonneg(s.drop_last());
    }
}

/// A prefix of the rows sums to at most the whole grid.
pub proof fn lemma_grid_sum_prefix(cells: Seq<Seq<u32>>, k: int)
    requires
        0 <= k <= cells.len(),
    ensures
        0 <= grid_sum(cells.take(k)) <= grid_sum(cells),
    decreases cells.len(),
{
    if k < cells.len() {
        lemma_grid_sum_prefix(cells.drop_last(), k);
        assert(cells.drop_last().take(k) == cells.take(k));
        lemma_seq_sum_nonneg(cells.last());
    } else {
        assert(cells.take(k) == cells);
        lemma_grid_sum_nonneg(cells);
    }
}

pub proof fn lemma_grid_sum_nonneg(cells: Seq<Seq<u32>>)
    ensures
        grid_sum(cells) >= 0,
    decreases cells.len(),
{
    if cells.len() > 0 {
        lemma_grid_sum_nonneg(cells.drop_last());
        lemma_seq_sum_nonneg(cells.last());
    }
}

} // verus!
