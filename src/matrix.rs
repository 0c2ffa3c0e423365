//! Dense row-major grids of `u32` cells and the rotations / reflections
//! of a grid.
use vstd::prelude::*;

verus! {

/// Mathematical model of a matrix: a column count and its rows.
pub struct Grid {
    pub ncols: nat,
    pub cells: Seq<Seq<u32>>,
}

impl Grid {
    pub open spec fn nrows(self) -> nat {
        self.cells.len()
    }

    /// Every row has exactly `ncols` cells.
    pub open spec fn wf(self) -> bool {
        forall|r: int| 0 <= r < self.cells.len() ==> #[trigger] self.cells[r].len() == self.ncols
    }

    pub open spec fn at(self, r: int, c: int) -> u32 {
        self.cells[r][c]
    }

    /// Quarter turn clockwise: column `i` counted from the last is row `i`.
    pub open spec fn rotated(self) -> Grid {
        Grid {
            ncols: self.nrows(),
            cells: Seq::new(
                self.ncols,
                |i: int| Seq::new(self.nrows(), |j: int| self.cells[self.nrows() - 1 - j][i]),
            ),
        }
    }

    /// Reflection along the main diagonal.
    pub open spec fn transposed(self) -> Grid {
        Grid {
            ncols: self.nrows(),
            cells: Seq::new(self.ncols, |i: int| Seq::new(self.nrows(), |j: int| self.cells[j][i])),
        }
    }
}

/// The `nrows` x `ncols` grid of zeros.
pub open spec fn zero_grid(nrows: nat, ncols: nat) -> Grid {
    Grid { ncols, cells: Seq::new(nrows, |r: int| Seq::new(ncols, |c: int| 0u32)) }
}

/// A matrix of `u32` cells, stored row by row.
#[derive(Debug, Clone, PartialEq, Eq)]
pub struct Matrix {
    pub ncols: usize,
    pub rows: Vec<Vec<u32>>,
}

impl View for Matrix {
    type V = Grid;

    open spec fn view(&self) -> Grid {
        Grid { ncols: self.ncols as nat, cells: self.rows@.map_values(|row: Vec<u32>| row@) }
    }
}

impl Matrix {
    /// All rows have `ncols` cells.
    pub open spec fn wf(&self) -> bool {
        self@.wf()
    }

    /// A matrix of `nrows` x `ncols` zeros.
    pub fn zeros(nrows: usize, ncols: usize) -> (m: Matrix)
        ensures
            m.wf(),
            m@ == zero_grid(nrows as nat, ncols as nat),
    {
        let mut rows: Vec<Vec<u32>> = Vec::new();
        for r in 0..nrows
            invariant
                rows.len() == r,
                forall|i: int| 0 <= i < r ==> (#[trigger] rows@[i])@ == Seq::new(ncols as nat, |c: int| 0u32),
        {
            let mut row: Vec<u32> = Vec::new();
            for c in 0..ncols
                invariant
                    row@ == Seq::new(c as nat, |k: int| 0u32),
            {
                row.push(0);
            }
            rows.push(row);
        }
        let m = Matrix { ncols, rows };
        assert(m@.cells =~= zero_grid(nrows as nat, ncols as nat).cells);
        m
    }

    /// Builds a matrix from its cells listed row after row.
    pub fn from_row_slice(nrows: usize, ncols: usize, values: &[u32]) -> (m: Matrix)
        requires
            values@.len() == nrows * ncols,
        ensures
            m.wf(),
            m@.nrows() == nrows,
            m@.ncols == ncols,
            forall|r: int, c: int|
                0 <= r < nrows && 0 <= c < ncols ==> m@.at(r, c) == values@[r * ncols + c],
    {
        let total: usize = values.len();
        let mut rows: Vec<Vec<u32>> = Vec::new();
        let mut base: usize = 0;
        for r in 0..nrows
            invariant
                values@.len() == nrows * ncols,
                total == nrows * ncols,
                rows.len() == r,
                base == r * ncols,
                forall|i: int| 0 <= i < r ==> (#[trigger] rows@[i])@.len() == ncols,
                forall|i: int, c: int|
                    0 <= i < r && 0 <= c < ncols ==> #[trigger] rows@[i]@[c] == values@[i * ncols + c],
        {
            assert((r + 1) * ncols <= nrows * ncols) by (nonlinear_arith)
                requires
                    r < nrows,
            ;
            assert((r + 1) * ncols == r * ncols + ncols) by (nonlinear_arith);
            let mut row: Vec<u32> = Vec::new();
            for c in 0..ncols
                invariant
                    values@.len() == nrows * ncols,
                    total == nrows * ncols,
                    base == r * ncols,
                    base + ncols <= nrows * ncols,
                    row@.len() == c,
                    forall|k: int| 0 <= k < c ==> row@[k] == values@[r * ncols + k],
            {
                row.push(values[base + c]);
            }
            rows.push(row);
            base = base + ncols;
        }
        Matrix { ncols, rows }
    }

    /// Builds a matrix from its rows, each of `ncols` cells.
    pub fn from_rows(ncols: usize, rows: Vec<Vec<u32>>) -> (m: Matrix)
        requires
            forall|r: int| 0 <= r < rows@.len() ==> (#[trigger] rows@[r])@.len() == ncols,
        ensures
            m.wf(),
            m@.ncols == ncols,
            m@.cells == rows@.map_values(|row: Vec<u32>| row@),
    {
        Matrix { ncols, rows }
    }

    pub fn nrows(&self) -> (n: usize)
        ensures
            n == self@.nrows(),
    {
        self.rows.len()
    }

    pub fn ncols(&self) -> (n: usize)
        ensures
            n == self@.ncols,
    {
        self.ncols
    }

    /// The cell at row `r`, column `c`.
    pub fn get(&self, r: usize, c: usize) -> (v: u32)
        requires
            self.wf(),
            r < self@.nrows(),
            c < self@.ncols,
        ensures
            v == self@.at(r as int, c as int),
    {
        assert(self@.cells[r as int].len() == self.ncols);
        self.rows[r][c]
    }

    /// All cells, row after row.
    pub fn values(&self) -> (v: Vec<u32>)
        requires
            self.wf(),
        ensures
            v@ == self@.cells.flatten(),
    {
        let mut v: Vec<u32> = Vec::new();
        for r in 0..self.rows.len()
            invariant
                self.wf(),
                v@ == self@.cells.take(r as int).flatten(),
        {
            proof {
                assert(self@.cells.take(r + 1) == self@.cells.take(r as int).push(self@.cells[r as int]));
                self@.cells.take(r as int).lemma_flatten_push(self@.cells[r as int]);
            }
            let row = &self.rows[r];
            let ghost before = v@;
            for c in 0..row.len()
                invariant
                    v@ == before + row@.take(c as int),
            {
                v.push(row[c]);
                assert(row@.take(c + 1) == row@.take(c as int).push(row@[c as int]));
            }
            assert(row@.take(row@.len() as int) == row@);
        }
        assert(self@.cells.take(self@.cells.len() as int) == self@.cells);
        v
    }

    /// Reflection along the main diagonal.
    pub fn transpose(&self) -> (t: Matrix)
        requires
            self.wf(),
        ensures
            t.wf(),
            t@ == self@.transposed(),
    {
        let n = self.rows.len();
        let mut rows: Vec<Vec<u32>> = Vec::new();
        for i in 0..self.ncols
            invariant
                self.wf(),
                n == self@.nrows(),
                rows.len() == i,
                forall|k: int| 0 <= k < i ==> (#[trigger] rows@[k])@ == self@.transposed().cells[k],
        {
            let mut row: Vec<u32> = Vec::new();
            for j in 0..n
                invariant
                    self.wf(),
                    n == self@.nrows(),
                    i < self@.ncols,
                    row@ == Seq::new(j as nat, |k: int| self@.cells[k][i as int]),
            {
                assert(self@.cells[j as int].len() == self.ncols);
                row.push(self.rows[j][i]);
            }
            rows.push(row);
        }
        let t = Matrix { ncols: n, rows };
        assert(t@.cells == self@.transposed().cells);
        t
    }

    /// Quarter turn clockwise.
    pub fn rotate(&self) -> (t: Matrix)
        requires
            self.wf(),
        ensures
            t.wf(),
            t@ == self@.rotated(),
    {
        let n = self.rows.len();
        let mut rows: Vec<Vec<u32>> = Vec::new();
        for i in 0..self.ncols
            invariant
                self.wf(),
                n == self@.nrows(),
                rows.len() == i,
                forall|k: int| 0 <= k < i ==> (#[trigger] rows@[k])@ == self@.rotated().cells[k],
        {
            let mut row: Vec<u32> = Vec::new();
            for j in 0..n
                invariant
                    self.wf(),
                    n == self@.nrows(),
                    i < self@.ncols,
                    row@ == Seq::new(j as nat, |k: int| self@.cells[n - 1 - k][i as int]),
            {
                assert(self@.cells[n - 1 - j].len() == self.ncols);
                row.push(self.rows[n - 1 - j][i]);
            }
            rows.push(row);
        }
        let t = Matrix { ncols: n, rows };
        assert(t@.cells == self@.rotated().cells);
        t
    }

    /// Whether every row has `ncols` cells.
    pub fn is_well_formed(&self) -> (b: bool)
        ensures
            b == self.wf(),
    {
        for r in 0..self.rows.len()
            invariant
                forall|k: int| 0 <= k < r ==> (#[trigger] self@.cells[k]).len() == self.ncols,
        {
            if self.rows[r].len() != self.ncols {
                assert(self@.cells[r as int].len() != self.ncols);
                return false;
            }
        }
        true
    }

    /// Whether every cell is 0 or 1.
    pub fn is_zero_one(&self) -> (b: bool)
        requires
            self.wf(),
        ensures
            b == (forall|r: int, c: int|
                0 <= r < self@.nrows() && 0 <= c < self@.ncols ==> #[trigger] self@.at(r, c) <= 1),
    {
        for r in 0..self.rows.len()
            invariant
                self.wf(),
                forall|k: int, c: int| 0 <= k < r && 0 <= c < self@.ncols ==> #[trigger] self@.at(k, c) <= 1,
        {
            assert(self@.cells[r as int].len() == self.ncols);
            for c in 0..self.ncols
                invariant
                    self.wf(),
                    r < self@.nrows(),
                    self@.cells[r as int].len() == self.ncols,
                    forall|k: int, j: int|
                        0 <= k < r && 0 <= j < self@.ncols ==> #[trigger] self@.at(k, j) <= 1,
                    forall|j: int| 0 <= j < c ==> #[trigger] self@.at(r as int, j) <= 1,
            {
                if self.rows[r][c] > 1 {
                    assert(self@.at(r as int, c as int) > 1);
                    return false;
                }
            }
        }
        true
    }

    /// A copy of this matrix.
    pub fn duplicate(&self) -> (t: Matrix)
        requires
            self.wf(),
        ensures
            t.wf(),
            t@ == self@,
    {
        let mut rows: Vec<Vec<u32>> = Vec::new();
        for r in 0..self.rows.len()
            invariant
                self.wf(),
                rows.len() == r,
                forall|k: int| 0 <= k < r ==> (#[trigger] rows@[k])@ == self@.cells[k],
        {
            let row = self.rows[r].clone();
            assert(row@ == self@.cells[r as int]);
            rows.push(row);
        }
        let t = Matrix { ncols: self.ncols, rows };
        assert(t@.cells == self@.cells);
        t
    }

    /// Same dimensions and the same cell in every place.
    pub fn same_as(&self, other: &Matrix) -> (b: bool)
        requires
            self.wf(),
            other.wf(),
        ensures
            b == (self@ == other@),
    {
        if self.ncols != other.ncols || self.rows.len() != other.rows.len() {
            assert(self@.ncols != other@.ncols || self@.cells.len() != other@.cells.len());
            return false;
        }
        for r in 0..self.rows.len()
            invariant
                self.wf(),
                other.wf(),
                self.ncols == other.ncols,
                self.rows.len() == other.rows.len(),
                forall|k: int| 0 <= k < r ==> self@.cells[k] == other@.cells[k],
        {
            assert(self@.cells[r as int].len() == self.ncols);
            assert(other@.cells[r as int].len() == self.ncols);
            for c in 0..self.ncols
                invariant
                    self.wf(),
                    other.wf(),
                    self.ncols == other.ncols,
                    r < self@.nrows(),
                    r < other@.nrows(),
                    self@.cells[r as int].len() == self.ncols,
                    other@.cells[r as int].len() == self.ncols,
                    forall|k: int| 0 <= k < c ==> self@.cells[r as int][k] == other@.cells[r as int][k],
            {
                if self.rows[r][c] != other.rows[r][c] {
                    assert(self@.cells[r as int][c as int] != other@.cells[r as int][c as int]);
                    return false;
                }
            }
            assert(self@.cells[r as int] == other@.cells[r as int]);
        }
        assert(self@.cells == other@.cells);
        true
    }
}

} // verus!
