//! Why every solution is a tiling: counting lemmas over grids, the cells a
//! placement mask stands for, and the invariant the search keeps.
use vstd::prelude::*;

use crate::bitboard::{
    all_positions,
    placements_upto,
    bit_set,
    fits_at,
    placed_grid,
    placement,
    row_bits,
    shape_bits,
    single_bit,
};
use crate::matrix::Grid;
use crate::matrix_tools::{
    is_frame,
    lemma_candidates_contains,
    lemma_distinct_in_order,
    lemma_orientations_frame,
    lemma_turns_wf,
    orientation_candidates,
    orientations,
};
use crate::models::{grid_sum, pieces_cells, seq_sum, Piece};
use crate::game_resolver::{
    insert_by_mask,
    insert_by_size,
    order_by_size,
    piece_placements,
    empty_board,
    piece_keys,
    placement_lists,
    placement_order,
    solution_boards,
    solutions,
    solvable,
    sort_by_mask,
    tagged_color,
    variant_positions,
};
use crate::models::{lemma_pieces_at_most_cells, Game};
use crate::search::{children, expand, fits, frontier, merge, overlay, Placed};

verus! {

/// `f(0) + ... + f(n - 1)`.
pub open spec fn sum1(f: spec_fn(int) -> int, n: int) -> int
    decreases n,
{
    if n <= 0 {
        0
    } else {
        sum1(f, n - 1) + f(n - 1)
    }
}

/// The sum of `f(r, c)` over `rows` x `cols`, row by row.
pub open spec fn sum2(f: spec_fn(int, int) -> int, rows: int, cols: int) -> int {
    sum1(|r: int| sum1(|c: int| f(r, c), cols), rows)
}

/// Sums of functions that agree on `[0, n)` are equal.
pub proof fn lemma_sum1_ext(f: spec_fn(int) -> int, g: spec_fn(int) -> int, n: int)
    requires
        forall|k: int| 0 <= k < n ==> #[trigger] f(k) == g(k),
    ensures
        sum1(f, n) == sum1(g, n),
    decreases n,
{
    if n > 0 {
        lemma_sum1_ext(f, g, n - 1);
    }
}

pub proof fn lemma_sum1_add(f: spec_fn(int) -> int, g: spec_fn(int) -> int, n: int)
    ensures
        sum1(|k: int| f(k) + g(k), n) == sum1(f, n) + sum1(g, n),
    decreases n,
{
    if n > 0 {
        lemma_sum1_add(f, g, n - 1);
    }
}

/// A sum of terms that are each 0 or 1 lies in `[0, n]`, and is `n` only
/// when every term is 1.
pub proof fn lemma_sum1_indicator(f: spec_fn(int) -> int, n: int)
    requires
        n >= 0,
        forall|k: int| 0 <= k < n ==> #[trigger] f(k) == 0 || f(k) == 1,
    ensures
        0 <= sum1(f, n) <= n,
        sum1(f, n) == n ==> forall|k: int| 0 <= k < n ==> #[trigger] f(k) == 1,
    decreases n,
{
    if n > 0 {
        lemma_sum1_indicator(f, n - 1);
    }
}

/// Terms that vanish outside `[a, a + w)` sum to the sum over that window.
pub proof fn lemma_sum1_window(f: spec_fn(int) -> int, n: int, a: int, w: int)
    requires
        0 <= a,
        0 <= w,
        a + w <= n,
        forall|k: int| 0 <= k < n && !(a <= k < a + w) ==> #[trigger] f(k) == 0,
    ensures
        sum1(f, n) == sum1(|k: int| f(k + a), w),
    decreases n,
{
    if n > a + w {
        lemma_sum1_window(f, n - 1, a, w);
    } else if w > 0 {
        lemma_sum1_window(f, n - 1, a, w - 1);
    } else {
        lemma_sum1_zero(f, n);
    }
}

pub proof fn lemma_sum1_zero(f: spec_fn(int) -> int, n: int)
    requires
        forall|k: int| 0 <= k < n ==> #[trigger] f(k) == 0,
    ensures
        sum1(f, n) == 0,
    decreases n,
{
    if n > 0 {
        lemma_sum1_zero(f, n - 1);
    }
}

/// Summing backwards gives the same.
pub proof fn lemma_sum1_reverse(f: spec_fn(int) -> int, n: int)
    requires
        n >= 0,
    ensures
        sum1(|j: int| f(n - 1 - j), n) == sum1(f, n),
    decreases n,
{
    if n > 0 {
        let g = |x: int| f(x + 1);
        lemma_sum1_reverse(g, n - 1);
        lemma_sum1_ext(|j: int| f(n - 1 - j), |j: int| g(n - 2 - j), n - 1);
        lemma_sum1_window(f, n, 0, n);
        lemma_sum1_first(f, n);
    }
}

/// The first term split off.
pub proof fn lemma_sum1_first(f: spec_fn(int) -> int, n: int)
    requires
        n >= 1,
    ensures
        sum1(f, n) == f(0) + sum1(|x: int| f(x + 1), n - 1),
    decreases n,
{
    let g = |x: int| f(x + 1);
    if n > 1 {
        lemma_sum1_first(f, n - 1);
        assert(sum1(g, n - 1) == sum1(g, n - 2) + g(n - 2));
    } else {
        assert(sum1(f, 0) == 0);
        assert(sum1(g, 0) == 0);
    }
}

/// The order of a double sum does not matter.
pub proof fn lemma_sum2_swap(f: spec_fn(int, int) -> int, rows: int, cols: int)
    requires
        rows >= 0,
        cols >= 0,
    ensures
        sum2(f, rows, cols) == sum2(|c: int, r: int| f(r, c), cols, rows),
    decreases rows,
{
    let g = |c: int, r: int| f(r, c);
    if rows == 0 {
        lemma_sum1_zero(|c: int| sum1(|r: int| g(c, r), 0), cols);
    } else {
        lemma_sum2_swap(f, rows - 1, cols);
        let a = |c: int| sum1(|r: int| g(c, r), rows - 1);
        let b = |c: int| f(rows - 1, c);
        lemma_sum1_add(a, b, cols);
        let whole = |c: int| sum1(|r: int| g(c, r), rows);
        assert forall|c: int| 0 <= c < cols implies #[trigger] whole(c) == a(c) + b(c) by {}
        lemma_sum1_ext(|c: int| a(c) + b(c), whole, cols);
        lemma_sum1_ext(b, |c: int| f(rows - 1, c), cols);
    }
}

/// The sum of all cells of a grid.
pub open spec fn cell_sum(g: Grid) -> int {
    sum2(|r: int, c: int| g.at(r, c) as int, g.nrows() as int, g.ncols as int)
}

proof fn lemma_seq_sum_is_sum1(s: Seq<u32>)
    ensures
        seq_sum(s) == sum1(|c: int| s[c] as int, s.len() as int),
    decreases s.len(),
{
    if s.len() > 0 {
        let t = s.drop_last();
        lemma_seq_sum_is_sum1(t);
        lemma_sum1_ext(|c: int| t[c] as int, |c: int| s[c] as int, t.len() as int);
    }
}

/// `grid_sum` is the double sum of the cells.
pub proof fn lemma_grid_sum_is_cell_sum(g: Grid)
    requires
        g.wf(),
    ensures
        grid_sum(g.cells) == cell_sum(g),
{
    lemma_grid_sum_rows(g.cells, g.ncols as int);
    let inner = |r: int| sum1(|c: int| g.at(r, c) as int, g.ncols as int);
    assert forall|r: int| 0 <= r < g.nrows() implies #[trigger] seq_sum(g.cells[r]) == inner(r) by {
        lemma_seq_sum_is_sum1(g.cells[r]);
        lemma_sum1_ext(|c: int| g.cells[r][c] as int, |c: int| g.at(r, c) as int, g.ncols as int);
    }
    lemma_sum1_ext(|r: int| seq_sum(g.cells[r]), inner, g.nrows() as int);
    lemma_cell_sum_rows(g);
}

/// `cell_sum` row by row.
pub proof fn lemma_cell_sum_rows(g: Grid)
    ensures
        cell_sum(g) == sum1(|r: int| sum1(|c: int| g.at(r, c) as int, g.ncols as int), g.nrows() as int),
{
    let f = |r: int, c: int| g.at(r, c) as int;
    let inner = |r: int| sum1(|c: int| g.at(r, c) as int, g.ncols as int);
    let via = |r: int| sum1(|c: int| f(r, c), g.ncols as int);
    assert forall|r: int| 0 <= r < g.nrows() implies #[trigger] via(r) == inner(r) by {
        lemma_sum1_ext(|c: int| f(r, c), |c: int| g.at(r, c) as int, g.ncols as int);
    }
    lemma_sum1_ext(via, inner, g.nrows() as int);
}

proof fn lemma_grid_sum_rows(cells: Seq<Seq<u32>>, ncols: int)
    ensures
        grid_sum(cells) == sum1(|r: int| seq_sum(cells[r]), cells.len() as int),
    decreases cells.len(),
{
    if cells.len() > 0 {
        let t = cells.drop_last();
        lemma_grid_sum_rows(t, ncols);
        lemma_sum1_ext(|r: int| seq_sum(t[r]), |r: int| seq_sum(cells[r]), t.len() as int);
    }
}

/// Double sums of functions that agree on the rectangle are equal.
pub proof fn lemma_sum2_ext(f: spec_fn(int, int) -> int, g: spec_fn(int, int) -> int, rows: int, cols: int)
    requires
        forall|r: int, c: int| 0 <= r < rows && 0 <= c < cols ==> #[trigger] f(r, c) == g(r, c),
    ensures
        sum2(f, rows, cols) == sum2(g, rows, cols),
{
    let fr = |r: int| sum1(|c: int| f(r, c), cols);
    let gr = |r: int| sum1(|c: int| g(r, c), cols);
    assert forall|r: int| 0 <= r < rows implies #[trigger] fr(r) == gr(r) by {
        lemma_sum1_ext(|c: int| f(r, c), |c: int| g(r, c), cols);
    }
    lemma_sum1_ext(fr, gr, rows);
}

/// A quarter turn and a transpose keep the sum of the cells.
pub proof fn lemma_turns_keep_sum(g: Grid)
    requires
        g.wf(),
    ensures
        cell_sum(g.rotated()) == cell_sum(g),
        cell_sum(g.transposed()) == cell_sum(g),
{
    let n = g.nrows() as int;
    let m = g.ncols as int;
    let f = |r: int, c: int| g.at(r, c) as int;
    lemma_sum2_swap(f, n, m);
    let t = g.transposed();
    lemma_sum2_ext(|c: int, r: int| f(r, c), |r: int, c: int| t.at(r, c) as int, m, n);
    let rg = g.rotated();
    let h = |i: int, j: int| f(n - 1 - j, i);
    lemma_sum2_ext(h, |r: int, c: int| rg.at(r, c) as int, m, n);
    let hr = |i: int| sum1(|j: int| h(i, j), n);
    let sr = |i: int| sum1(|j: int| f(j, i), n);
    assert forall|i: int| 0 <= i < m implies #[trigger] hr(i) == sr(i) by {
        let col = |j: int| f(j, i);
        lemma_sum1_ext(|j: int| h(i, j), |j: int| col(n - 1 - j), n);
        lemma_sum1_reverse(col, n);
        lemma_sum1_ext(col, |j: int| f(j, i), n);
    }
    lemma_sum1_ext(hr, sr, m);
    let sw = |c: int, r: int| f(r, c);
    let swr = |c: int| sum1(|r: int| sw(c, r), n);
    assert forall|c: int| 0 <= c < m implies #[trigger] sr(c) == swr(c) by {
        lemma_sum1_ext(|j: int| f(j, c), |r: int| sw(c, r), n);
    }
    lemma_sum1_ext(sr, swr, m);
}

/// Every orientation of `g` has the cell sum of `g`.
pub proof fn lemma_orientations_keep_sum(g: Grid)
    requires
        g.wf(),
    ensures
        forall|k: int| 0 <= k < orientations(g).len() ==> cell_sum(#[trigger] orientations(g)[k]) == cell_sum(g),
{
    let g1 = g.rotated();
    let g2 = g1.rotated();
    let t0 = g.transposed();
    let t1 = t0.rotated();
    let t2 = t1.rotated();
    lemma_turns_wf(g);
    lemma_turns_wf(g1);
    lemma_turns_wf(g2);
    lemma_turns_wf(t0);
    lemma_turns_wf(t1);
    lemma_turns_wf(t2);
    lemma_turns_keep_sum(g);
    lemma_turns_keep_sum(g1);
    lemma_turns_keep_sum(g2);
    lemma_turns_keep_sum(t0);
    lemma_turns_keep_sum(t1);
    lemma_turns_keep_sum(t2);
    lemma_distinct_in_order(orientation_candidates(g));
    assert forall|k: int| 0 <= k < orientations(g).len() implies cell_sum(#[trigger] orientations(g)[k])
        == cell_sum(g) by {
        assert(orientations(g).contains(orientations(g)[k]));
        lemma_candidates_contains(g, orientations(g)[k]);
    }
}

/// The number of cells of `g` holding `t`.
pub open spec fn count_of(g: Grid, t: u32) -> int {
    sum2(|r: int, c: int| if g.at(r, c) == t { 1int } else { 0int }, g.nrows() as int, g.ncols as int)
}

/// A placement of a 0 / 1 shape with a non-zero color holds that color on
/// as many cells as the shape has.
pub proof fn lemma_placed_count(g: Grid, color: u32, rows: int, cols: int, off_r: int, off_c: int)
    requires
        is_frame(g),
        color != 0,
        fits_at(g, rows, cols, off_r, off_c),
    ensures
        count_of(placed_grid(g, color, rows, cols, off_r, off_c), color) == cell_sum(g),
{
    let p = placed_grid(g, color, rows, cols, off_r, off_c);
    let h = g.nrows() as int;
    let w = g.ncols as int;
    let ind = |r: int, c: int| if p.at(r, c) == color { 1int } else { 0int };
    let f = |r: int, c: int|
        if off_r <= r < off_r + h && off_c <= c < off_c + w {
            g.at(r - off_r, c - off_c) as int
        } else {
            0int
        };
    assert forall|r: int, c: int| 0 <= r < rows && 0 <= c < cols implies #[trigger] ind(r, c) == f(r, c) by {
        if off_r <= r < off_r + h && off_c <= c < off_c + w {
            let v = g.at(r - off_r, c - off_c);
            assert(v <= 1);
            if v == 0 {
                assert(p.at(r, c) == 0);
            } else {
                assert(p.at(r, c) == color);
            }
        }
    }
    lemma_sum2_ext(ind, f, rows, cols);
    let fr = |r: int| sum1(|c: int| f(r, c), cols);
    let gr = |r: int| sum1(|c: int| g.at(r, c) as int, w);
    assert forall|r: int| 0 <= r < rows && !(off_r <= r < off_r + h) implies #[trigger] fr(r) == 0 by {
        lemma_sum1_zero(|c: int| f(r, c), cols);
    }
    lemma_sum1_window(fr, rows, off_r, h);
    let shifted = |r: int| fr(r + off_r);
    assert forall|r: int| 0 <= r < h implies #[trigger] shifted(r) == gr(r) by {
        let row = |c: int| f(r + off_r, c);
        lemma_sum1_window(row, cols, off_c, w);
        lemma_sum1_ext(|c: int| row(c + off_c), |c: int| g.at(r, c) as int, w);
    }
    lemma_sum1_ext(shifted, gr, h);
    lemma_cell_sum_rows(g);
}

proof fn lemma_bit_or(a: u64, b: u64, i: u64)
    requires
        i < 64,
    ensures
        ((a | b) >> i) & 1 == 1 <==> ((a >> i) & 1 == 1 || (b >> i) & 1 == 1),
{
    assert(((a | b) >> i) & 1 == 1 <==> ((a >> i) & 1 == 1 || (b >> i) & 1 == 1)) by (bit_vector)
        requires
            i < 64,
    ;
}

proof fn lemma_bit_single(k: u64, i: u64)
    requires
        i < 64,
        k < 64,
    ensures
        ((1u64 << k) >> i) & 1 == 1 <==> i == k,
{
    assert(((1u64 << k) >> i) & 1 == 1 <==> i == k) by (bit_vector)
        requires
            i < 64,
            k < 64,
    ;
}

proof fn lemma_bit_zero(i: u64)
    requires
        i < 64,
    ensures
        !((0u64 >> i) & 1 == 1),
{
    assert(!((0u64 >> i) & 1 == 1)) by (bit_vector)
        requires
            i < 64,
    ;
}

/// Masks with no common bit have no common set bit.
pub proof fn lemma_bit_disjoint(a: u64, b: u64, i: int)
    requires
        a & b == 0,
        0 <= i < 64,
    ensures
        !(bit_set(a, i) && bit_set(b, i)),
{
    let k = i as u64;
    assert(a & b == 0 ==> !((a >> k) & 1 == 1 && (b >> k) & 1 == 1)) by (bit_vector)
        requires
            k < 64,
    ;
}

/// A bit of a union is a bit of one of its parts.
pub proof fn lemma_bit_union(a: u64, b: u64, i: int)
    requires
        0 <= i < 64,
    ensures
        bit_set(a | b, i) <==> (bit_set(a, i) || bit_set(b, i)),
{
    lemma_bit_or(a, b, i as u64);
}

/// The bits of a row's mask are the row's non-zero cells from `base` on.
proof fn lemma_row_bits(row: Seq<u32>, base: int, n: int, i: int)
    requires
        0 <= base,
        0 <= n <= row.len(),
        base + n <= 64,
        0 <= i < 64,
    ensures
        bit_set(row_bits(row, base, n), i) <==> (base <= i < base + n && row[i - base] != 0),
    decreases n,
{
    if n == 0 {
        lemma_bit_zero(i as u64);
    } else {
        lemma_row_bits(row, base, n - 1, i);
        if row[n - 1] != 0 {
            lemma_bit_or(row_bits(row, base, n - 1), single_bit(base + n - 1), i as u64);
            lemma_bit_single((base + n - 1) as u64, i as u64);
        }
    }
}

/// Cell `(br, bc)` of a `rows` x `cols` board is bit `br * cols + bc`, below 64.
pub proof fn lemma_cell_index(br: int, bc: int, rows: int, cols: int)
    requires
        0 <= br < rows,
        0 <= bc < cols,
        rows * cols <= 64,
    ensures
        0 <= br * cols + bc < rows * cols,
        br * cols + bc < 64,
{
    assert(0 <= br * cols + bc < rows * cols) by (nonlinear_arith)
        requires
            0 <= br < rows,
            0 <= bc < cols,
    ;
}

proof fn lemma_row_of_index(br: int, bc: int, r: int, cols: int, oc: int, w: int)
    requires
        0 <= bc < cols,
        0 <= oc,
        oc + w <= cols,
        0 <= w,
        0 <= br,
        0 <= r,
    ensures
        (r * cols + oc <= br * cols + bc < r * cols + oc + w) <==> (br == r && oc <= bc < oc + w),
{
    if br < r {
        assert((br + 1) * cols <= r * cols) by (nonlinear_arith)
            requires
                br + 1 <= r,
                cols >= 0,
        ;
        assert((br + 1) * cols == br * cols + cols) by (nonlinear_arith);
    } else if br > r {
        assert(br * cols >= (r + 1) * cols) by (nonlinear_arith)
            requires
                br >= r + 1,
                cols >= 0,
        ;
        assert((r + 1) * cols == r * cols + cols) by (nonlinear_arith);
    }
}

/// The bit of board cell `(br, bc)` in the mask of the first `n` rows of `g`
/// placed at `(off_r, off_c)` is set exactly when `g` covers that cell with
/// a non-zero cell.
pub proof fn lemma_shape_bits(g: Grid, rows: int, cols: int, off_r: int, off_c: int, n: int, br: int, bc: int)
    requires
        g.wf(),
        fits_at(g, rows, cols, off_r, off_c),
        rows * cols <= 64,
        0 <= n <= g.nrows(),
        0 <= br < rows,
        0 <= bc < cols,
    ensures
        bit_set(shape_bits(g, cols, off_r, off_c, n), br * cols + bc) <==> (off_r <= br < off_r + n
            && off_c <= bc < off_c + g.ncols && g.at(br - off_r, bc - off_c) != 0),
    decreases n,
{
    let i = br * cols + bc;
    lemma_cell_index(br, bc, rows, cols);
    if n == 0 {
        lemma_bit_zero(i as u64);
    } else {
        lemma_shape_bits(g, rows, cols, off_r, off_c, n - 1, br, bc);
        let r = off_r + n - 1;
        let base = r * cols + off_c;
        assert((r + 1) * cols <= rows * cols) by (nonlinear_arith)
            requires
                r + 1 <= rows,
                cols >= 0,
        ;
        assert((r + 1) * cols == r * cols + cols) by (nonlinear_arith);
        assert(0 <= r * cols) by (nonlinear_arith)
            requires
                0 <= r,
                0 <= cols,
        ;
        assert(g.cells[n - 1].len() == g.ncols);
        lemma_row_bits(g.cells[n - 1], base, g.ncols as int, i);
        lemma_row_of_index(br, bc, r, cols, off_c, g.ncols as int);
        lemma_bit_or(
            shape_bits(g, cols, off_r, off_c, n - 1),
            row_bits(g.cells[n - 1], base, g.ncols as int),
            i as u64,
        );
    }
}

/// Facts of a placement of a 0 / 1 shape with a non-zero color: its grid is
/// board-sized, holds the color or 0 in each cell, is non-zero exactly on
/// the cells whose mask bit is set, and holds the color on as many cells as
/// the shape has.
pub open spec fn placement_facts(p: (u64, Grid), color: u32, cells: int, rows: int, cols: int) -> bool {
    &&& p.1.wf()
    &&& p.1.nrows() == rows
    &&& p.1.ncols == cols
    &&& forall|r: int, c: int|
        0 <= r < rows && 0 <= c < cols ==> (#[trigger] p.1.at(r, c) == 0 || p.1.at(r, c) == color)
    &&& forall|r: int, c: int|
        0 <= r < rows && 0 <= c < cols ==> (bit_set(p.0, r * cols + c) <==> #[trigger] p.1.at(r, c) != 0)
    &&& count_of(p.1, color) == cells
}

pub proof fn lemma_placement_facts(g: Grid, color: u32, rows: int, cols: int, off_r: int, off_c: int)
    requires
        is_frame(g),
        color != 0,
        fits_at(g, rows, cols, off_r, off_c),
        rows * cols <= 64,
    ensures
        placement_facts(placement(g, color, rows, cols, off_r, off_c), color, cell_sum(g), rows, cols),
{
    let p = placement(g, color, rows, cols, off_r, off_c);
    lemma_placed_count(g, color, rows, cols, off_r, off_c);
    assert forall|r: int, c: int| 0 <= r < rows && 0 <= c < cols implies (#[trigger] p.1.at(r, c) == 0
        || p.1.at(r, c) == color) && (bit_set(p.0, r * cols + c) <==> p.1.at(r, c) != 0) by {
        lemma_shape_bits(g, rows, cols, off_r, off_c, g.nrows() as int, r, c);
        if off_r <= r < off_r + g.nrows() && off_c <= c < off_c + g.ncols {
            assert(g.at(r - off_r, c - off_c) <= 1);
        }
    }
}

pub proof fn lemma_sum2_add(f: spec_fn(int, int) -> int, g: spec_fn(int, int) -> int, rows: int, cols: int)
    ensures
        sum2(|r: int, c: int| f(r, c) + g(r, c), rows, cols) == sum2(f, rows, cols) + sum2(g, rows, cols),
{
    let h = |r: int, c: int| f(r, c) + g(r, c);
    let hr = |r: int| sum1(|c: int| h(r, c), cols);
    let fr = |r: int| sum1(|c: int| f(r, c), cols);
    let gr = |r: int| sum1(|c: int| g(r, c), cols);
    assert forall|r: int| 0 <= r < rows implies #[trigger] hr(r) == fr(r) + gr(r) by {
        let ff = |c: int| f(r, c);
        let gg = |c: int| g(r, c);
        lemma_sum1_add(ff, gg, cols);
        lemma_sum1_ext(|c: int| h(r, c), |k: int| ff(k) + gg(k), cols);
        lemma_sum1_ext(ff, |c: int| f(r, c), cols);
        lemma_sum1_ext(gg, |c: int| g(r, c), cols);
    }
    lemma_sum1_add(fr, gr, rows);
    lemma_sum1_ext(hr, |r: int| fr(r) + gr(r), rows);
}

/// Every placement of `s` has the facts of a placement with `color` and
/// `cells` cells.
pub open spec fn all_facts(s: Seq<Placed>, color: u32, cells: int, rows: int, cols: int) -> bool {
    forall|k: int| 0 <= k < s.len() ==> placement_facts(#[trigger] s[k], color, cells, rows, cols)
}

proof fn lemma_facts_concat(a: Seq<Placed>, b: Seq<Placed>, color: u32, cells: int, rows: int, cols: int)
    requires
        all_facts(a, color, cells, rows, cols),
        all_facts(b, color, cells, rows, cols),
    ensures
        all_facts(a + b, color, cells, rows, cols),
{
    assert forall|k: int| 0 <= k < (a + b).len() implies placement_facts(#[trigger] (a + b)[k], color, cells, rows, cols) by {
        if k < a.len() {
            assert((a + b)[k] == a[k]);
        } else {
            assert((a + b)[k] == b[k - a.len()]);
        }
    }
}

proof fn lemma_upto_facts(g: Grid, color: u32, rows: int, cols: int, n: int)
    requires
        is_frame(g),
        color != 0,
        rows * cols <= 64,
        g.nrows() <= rows,
        g.ncols <= cols,
        n <= rows - g.nrows() + 1,
    ensures
        all_facts(placements_upto(g, color, rows, cols, n), color, cell_sum(g), rows, cols),
    decreases n,
{
    if n > 0 {
        lemma_upto_facts(g, color, rows, cols, n - 1);
        let b = Seq::new((cols - g.ncols + 1) as nat, |c: int| placement(g, color, rows, cols, n - 1, c));
        assert forall|k: int| 0 <= k < b.len() implies placement_facts(#[trigger] b[k], color, cell_sum(g), rows, cols) by {
            lemma_placement_facts(g, color, rows, cols, n - 1, k);
        }
        lemma_facts_concat(placements_upto(g, color, rows, cols, n - 1), b, color, cell_sum(g), rows, cols);
    }
}

proof fn lemma_variant_facts(vs: Seq<Grid>, color: u32, cells: int, rows: int, cols: int)
    requires
        forall|k: int| 0 <= k < vs.len() ==> is_frame(#[trigger] vs[k]) && cell_sum(vs[k]) == cells,
        color != 0,
        rows >= 0,
        cols >= 0,
        rows * cols <= 64,
    ensures
        all_facts(variant_positions(vs, color, rows, cols), color, cells, rows, cols),
    decreases vs.len(),
{
    if vs.len() > 0 {
        let v = vs.last();
        assert(is_frame(vs[vs.len() - 1]));
        lemma_variant_facts(vs.drop_last(), color, cells, rows, cols);
        if !(v.nrows() > rows || v.ncols > cols) {
            lemma_upto_facts(v, color, rows, cols, rows - v.nrows() + 1);
        }
        lemma_facts_concat(
            variant_positions(vs.drop_last(), color, rows, cols),
            all_positions(v, color, rows, cols),
            color,
            cells,
            rows,
            cols,
        );
    }
}

proof fn lemma_insert_facts(sorted: Seq<Placed>, x: Placed, color: u32, cells: int, rows: int, cols: int)
    requires
        all_facts(sorted, color, cells, rows, cols),
        placement_facts(x, color, cells, rows, cols),
    ensures
        all_facts(insert_by_mask(sorted, x), color, cells, rows, cols),
    decreases sorted.len(),
{
    if sorted.len() > 0 && sorted.last().0 > x.0 {
        lemma_insert_facts(sorted.drop_last(), x, color, cells, rows, cols);
        assert(placement_facts(sorted[sorted.len() - 1], color, cells, rows, cols));
        lemma_facts_concat(insert_by_mask(sorted.drop_last(), x), seq![sorted.last()], color, cells, rows, cols);
        assert(insert_by_mask(sorted.drop_last(), x) + seq![sorted.last()] == insert_by_mask(sorted, x));
    } else {
        lemma_facts_concat(sorted, seq![x], color, cells, rows, cols);
        assert(sorted + seq![x] == insert_by_mask(sorted, x));
    }
}

proof fn lemma_sort_facts(s: Seq<Placed>, color: u32, cells: int, rows: int, cols: int)
    requires
        all_facts(s, color, cells, rows, cols),
    ensures
        all_facts(sort_by_mask(s), color, cells, rows, cols),
    decreases s.len(),
{
    if s.len() > 0 {
        assert(placement_facts(s[s.len() - 1], color, cells, rows, cols));
        lemma_sort_facts(s.drop_last(), color, cells, rows, cols);
        lemma_insert_facts(sort_by_mask(s.drop_last()), s.last(), color, cells, rows, cols);
    }
}

/// Every placement of a piece has the facts of a placement with the piece's
/// color and number of cells.
pub proof fn lemma_piece_placement_facts(g: Grid, color: u32, rows: int, cols: int)
    requires
        is_frame(g),
        color != 0,
        rows >= 0,
        cols >= 0,
        rows * cols <= 64,
    ensures
        all_facts(piece_placements(g, color, rows, cols), color, cell_sum(g), rows, cols),
{
    lemma_orientations_frame(g);
    lemma_orientations_keep_sum(g);
    lemma_variant_facts(orientations(g), color, cell_sum(g), rows, cols);
    lemma_sort_facts(variant_positions(orientations(g), color, rows, cols), color, cell_sum(g), rows, cols);
}

/// Sum of the cell counts of the pieces at `ids`.
pub open spec fn cells_at(pieces: Seq<Piece>, ids: Seq<usize>) -> int
    decreases ids.len(),
{
    if ids.len() == 0 {
        0
    } else {
        cells_at(pieces, ids.drop_last()) + pieces[ids.last() as int].cell_count()
    }
}

proof fn lemma_push_contains<A>(s: Seq<A>, y: A, x: A)
    ensures
        s.push(y).contains(x) <==> (s.contains(x) || x == y),
{
    if s.push(y).contains(x) {
        let k = choose|k: int| 0 <= k < s.push(y).len() && s.push(y)[k] == x;
        if k < s.len() {
            assert(s[k] == x);
        }
    }
    if s.contains(x) {
        let k = choose|k: int| 0 <= k < s.len() && s[k] == x;
        assert(s.push(y)[k] == x);
    }
    if x == y {
        assert(s.push(y)[s.len() as int] == x);
    }
}

proof fn lemma_push_no_duplicates<A>(s: Seq<A>, y: A)
    requires
        s.no_duplicates(),
        !s.contains(y),
    ensures
        s.push(y).no_duplicates(),
{
    assert forall|a: int, b: int| 0 <= a < s.push(y).len() && 0 <= b < s.push(y).len() && a != b implies s.push(y)[a]
        != s.push(y)[b] by {
        if a == s.len() {
            assert(s[b] == s.push(y)[b]);
        } else if b == s.len() {
            assert(s[a] == s.push(y)[a]);
        }
    }
}

proof fn lemma_insert_by_size_props(pieces: Seq<Piece>, sorted: Seq<usize>, i: usize, keys: Seq<u32>)
    ensures
        forall|x: usize| insert_by_size(sorted, i, keys).contains(x) <==> (sorted.contains(x) || x == i),
        sorted.no_duplicates() && !sorted.contains(i) ==> insert_by_size(sorted, i, keys).no_duplicates(),
        cells_at(pieces, insert_by_size(sorted, i, keys)) == cells_at(pieces, sorted) + pieces[i as int].cell_count(),
    decreases sorted.len(),
{
    if sorted.len() == 0 {
        assert(seq![i] == Seq::<usize>::empty().push(i));
        assert forall|x: usize| insert_by_size(sorted, i, keys).contains(x) <==> (sorted.contains(x) || x == i) by {
            lemma_push_contains(Seq::<usize>::empty(), i, x);
        }
        lemma_push_no_duplicates(Seq::<usize>::empty(), i);
        assert(seq![i].drop_last() =~= Seq::<usize>::empty());
        assert(seq![i].last() == i);
        assert(cells_at(pieces, seq![i]) == cells_at(pieces, Seq::<usize>::empty()) + pieces[i as int].cell_count());
    } else if keys[sorted.last() as int] >= keys[i as int] {
        assert forall|x: usize| insert_by_size(sorted, i, keys).contains(x) <==> (sorted.contains(x) || x == i) by {
            lemma_push_contains(sorted, i, x);
        }
        if sorted.no_duplicates() && !sorted.contains(i) {
            lemma_push_no_duplicates(sorted, i);
        }
        assert(sorted.push(i).drop_last() == sorted);
        assert(sorted.push(i).last() == i);
    } else {
        let d = sorted.drop_last();
        let y = sorted.last();
        lemma_insert_by_size_props(pieces, d, i, keys);
        assert(sorted == d.push(y));
        assert forall|x: usize| insert_by_size(sorted, i, keys).contains(x) <==> (sorted.contains(x) || x == i) by {
            lemma_push_contains(insert_by_size(d, i, keys), y, x);
            lemma_push_contains(d, y, x);
        }
        if sorted.no_duplicates() && !sorted.contains(i) {
            assert(d.no_duplicates());
            assert(!d.contains(i)) by {
                if d.contains(i) {
                    let k = choose|k: int| 0 <= k < d.len() && d[k] == i;
                    assert(sorted[k] == i);
                }
            }
            assert(!d.contains(y)) by {
                if d.contains(y) {
                    let k = choose|k: int| 0 <= k < d.len() && d[k] == y;
                    assert(sorted[k] == sorted[sorted.len() - 1]);
                }
            }
            assert(y != i) by {
                assert(sorted[sorted.len() - 1] == y);
            }
            lemma_push_contains(d, i, y);
            lemma_push_no_duplicates(insert_by_size(d, i, keys), y);
        }
        assert(insert_by_size(d, i, keys).push(y).drop_last() == insert_by_size(d, i, keys));
        assert(insert_by_size(d, i, keys).push(y).last() == y);
        assert(cells_at(pieces, sorted) == cells_at(pieces, d) + pieces[y as int].cell_count());
    }
}

/// The placement order holds each index below `n` exactly once, and the
/// cells of the pieces it names add up to the cells of the first `n`.
pub proof fn lemma_order_is_permutation(pieces: Seq<Piece>, keys: Seq<u32>, n: int)
    requires
        0 <= n <= pieces.len(),
        n <= usize::MAX,
    ensures
        forall|x: usize| order_by_size(keys, n).contains(x) <==> x < n,
        order_by_size(keys, n).no_duplicates(),
        cells_at(pieces, order_by_size(keys, n)) == pieces_cells(pieces.take(n)),
    decreases n,
{
    if n == 0 {
        assert(pieces.take(0) =~= Seq::<Piece>::empty());
        assert forall|x: usize| order_by_size(keys, n).contains(x) <==> x < n by {
            assert(order_by_size(keys, 0) == Seq::<usize>::empty());
        }
    } else {
        lemma_order_is_permutation(pieces, keys, n - 1);
        let prev = order_by_size(keys, n - 1);
        lemma_insert_by_size_props(pieces, prev, (n - 1) as usize, keys);
        assert forall|x: usize| order_by_size(keys, n).contains(x) <==> x < n by {
            assert(prev.contains(x) <==> x < n - 1);
        }
        assert(!prev.contains((n - 1) as usize));
        assert(pieces.take(n).drop_last() == pieces.take(n - 1));
        assert(pieces.take(n).last() == pieces[n - 1]);
    }
}

/// Tags of different pieces differ, and none is 0.
pub proof fn lemma_tags_distinct(c1: u32, i: int, c2: u32, j: int)
    requires
        c1 <= 0x00FF_FFFF,
        c2 <= 0x00FF_FFFF,
        0 <= i < 255,
        0 <= j < 255,
    ensures
        tagged_color(c1, i) != 0,
        i != j ==> tagged_color(c1, i) != tagged_color(c2, j),
{
    let a = (i + 1) as u32;
    let b = (j + 1) as u32;
    assert((c1 | (a << 24u32)) >> 24u32 == a) by (bit_vector)
        requires
            c1 <= 0x00FF_FFFF,
            a < 256,
    ;
    assert((c2 | (b << 24u32)) >> 24u32 == b) by (bit_vector)
        requires
            c2 <= 0x00FF_FFFF,
            b < 256,
    ;
    assert(0u32 >> 24u32 == 0) by (bit_vector);
}

/// The number of non-empty cells of `g`.
pub open spec fn count_nonzero(g: Grid) -> int {
    sum2(|r: int, c: int| if g.at(r, c) != 0 { 1int } else { 0int }, g.nrows() as int, g.ncols as int)
}

pub proof fn lemma_sum2_zero(f: spec_fn(int, int) -> int, rows: int, cols: int)
    requires
        forall|r: int, c: int| 0 <= r < rows && 0 <= c < cols ==> #[trigger] f(r, c) == 0,
    ensures
        sum2(f, rows, cols) == 0,
{
    let fr = |r: int| sum1(|c: int| f(r, c), cols);
    assert forall|r: int| 0 <= r < rows implies #[trigger] fr(r) == 0 by {
        lemma_sum1_zero(|c: int| f(r, c), cols);
    }
    lemma_sum1_zero(fr, rows);
}

/// Terms of at most `bound` sum to at most `n * bound`, and to exactly that
/// only when each is `bound`.
pub proof fn lemma_sum1_bounded(f: spec_fn(int) -> int, n: int, bound: int)
    requires
        n >= 0,
        forall|k: int| 0 <= k < n ==> #[trigger] f(k) <= bound,
    ensures
        sum1(f, n) <= n * bound,
        sum1(f, n) == n * bound ==> forall|k: int| 0 <= k < n ==> #[trigger] f(k) == bound,
    decreases n,
{
    if n > 0 {
        lemma_sum1_bounded(f, n - 1, bound);
        assert(n * bound == (n - 1) * bound + bound) by (nonlinear_arith);
    } else {
        assert(n * bound == 0) by (nonlinear_arith)
            requires
                n == 0,
        ;
    }
}

/// A grid of `rows * cols` non-empty cells among `rows` x `cols` has no
/// empty cell.
pub proof fn lemma_full_count(g: Grid)
    requires
        g.wf(),
        count_nonzero(g) == g.nrows() * g.ncols,
    ensures
        forall|r: int, c: int| 0 <= r < g.nrows() && 0 <= c < g.ncols ==> #[trigger] g.at(r, c) != 0,
{
    let n = g.nrows() as int;
    let m = g.ncols as int;
    let ind = |r: int, c: int| if g.at(r, c) != 0 { 1int } else { 0int };
    let row = |r: int| sum1(|c: int| ind(r, c), m);
    lemma_sum2_ext(|r: int, c: int| if g.at(r, c) != 0 { 1int } else { 0int }, ind, n, m);
    assert(sum2(ind, n, m) == sum1(row, n));
    assert(sum1(row, n) == n * m);
    assert forall|r: int| 0 <= r < n implies #[trigger] row(r) <= m by {
        lemma_sum1_indicator(|c: int| ind(r, c), m);
    }
    lemma_sum1_bounded(row, n, m);
    assert forall|r: int, c: int| 0 <= r < n && 0 <= c < m implies #[trigger] g.at(r, c) != 0 by {
        assert(row(r) == m);
        let rowf = |k: int| ind(r, k);
        lemma_sum1_ext(rowf, |k: int| ind(r, k), m);
        assert(sum1(rowf, m) == m);
        lemma_sum1_indicator(rowf, m);
        assert(rowf(c) == 1);
        assert(ind(r, c) == 1);
    }
}

/// What holds of every board the search builds from the pieces at
/// `placed`: a board-sized grid, non-empty exactly where the mask has its
/// bit, each piece's tag on as many cells as the piece has when it is
/// placed and on none otherwise, and as many non-empty cells as the placed
/// pieces have.
pub open spec fn board_ok(
    b: Placed,
    pieces: Seq<Piece>,
    placed: Seq<usize>,
    rows: int,
    cols: int,
) -> bool {
    &&& b.1.wf()
    &&& b.1.nrows() == rows
    &&& b.1.ncols == cols
    &&& forall|r: int, c: int|
        0 <= r < rows && 0 <= c < cols ==> (bit_set(b.0, r * cols + c) <==> #[trigger] b.1.at(r, c) != 0)
    &&& forall|i: int|
        0 <= i < pieces.len() ==> #[trigger] count_of(b.1, tagged_color(pieces[i].color, i)) == if placed.contains(
            i as usize,
        ) {
            pieces[i].cell_count()
        } else {
            0
        }
    &&& count_nonzero(b.1) == cells_at(pieces, placed)
}

/// The tags of the pieces: distinct, non-zero, with 24-bit colors below.
pub open spec fn tags_ok(pieces: Seq<Piece>) -> bool {
    &&& pieces.len() < 255
    &&& forall|i: int| 0 <= i < pieces.len() ==> (#[trigger] pieces[i]).color <= 0x00FF_FFFF
}

/// Laying `q`, whose cells are 0 or `tc`, over `g` where they share no
/// non-empty cell adds the counts of any non-zero value.
proof fn lemma_overlay_count(g: Grid, q: Grid, t: u32, tc: u32, rows: int, cols: int)
    requires
        g.nrows() == rows,
        g.ncols == cols,
        t != 0,
        forall|r: int, c: int| 0 <= r < rows && 0 <= c < cols ==> !(#[trigger] g.at(r, c) != 0 && q.at(r, c) != 0),
        forall|r: int, c: int|
            0 <= r < rows && 0 <= c < cols ==> (#[trigger] q.at(r, c) == 0 || q.at(r, c) == tc),
        q.nrows() == rows,
        q.ncols == cols,
    ensures
        count_of(overlay(g, q), t) == count_of(g, t) + if t == tc {
            count_of(q, tc)
        } else {
            0
        },
{
    let o = overlay(g, q);
    let fg = |r: int, c: int| if g.at(r, c) == t { 1int } else { 0int };
    let fq = |r: int, c: int| if q.at(r, c) == t { 1int } else { 0int };
    let fo = |r: int, c: int| if o.at(r, c) == t { 1int } else { 0int };
    assert forall|r: int, c: int| 0 <= r < rows && 0 <= c < cols implies #[trigger] fo(r, c) == fg(r, c) + fq(r, c) by {
        assert(!(g.at(r, c) != 0 && q.at(r, c) != 0));
    }
    lemma_sum2_add(fg, fq, rows, cols);
    lemma_sum2_ext(fo, |r: int, c: int| fg(r, c) + fq(r, c), rows, cols);
    lemma_sum2_ext(|r: int, c: int| if o.at(r, c) == t { 1int } else { 0int }, fo, rows, cols);
    lemma_sum2_ext(|r: int, c: int| if g.at(r, c) == t { 1int } else { 0int }, fg, rows, cols);
    lemma_sum2_ext(|r: int, c: int| if q.at(r, c) == t { 1int } else { 0int }, fq, rows, cols);
    if t != tc {
        assert forall|r: int, c: int| 0 <= r < rows && 0 <= c < cols implies #[trigger] fq(r, c) == 0 by {
            assert(q.at(r, c) == 0 || q.at(r, c) == tc);
        }
        lemma_sum2_zero(fq, rows, cols);
    }
}

/// Merging a fitting placement of piece `i` into a board keeps `board_ok`,
/// with `i` added to the placed pieces.
pub proof fn lemma_merge_ok(
    b: Placed,
    p: Placed,
    pieces: Seq<Piece>,
    placed: Seq<usize>,
    i: usize,
    rows: int,
    cols: int,
)
    requires
        board_ok(b, pieces, placed, rows, cols),
        tags_ok(pieces),
        i < pieces.len(),
        !placed.contains(i),
        placement_facts(p, tagged_color(pieces[i as int].color, i as int), pieces[i as int].cell_count(), rows, cols),
        fits(b, p),
        rows * cols <= 64,
    ensures
        board_ok(merge(b, p), pieces, placed.push(i), rows, cols),
{
    let tc = tagged_color(pieces[i as int].color, i as int);
    lemma_tags_distinct(pieces[i as int].color, i as int, pieces[i as int].color, i as int);
    let g = b.1;
    let q = p.1;
    let m = merge(b, p);
    let o = m.1;
    assert(o == overlay(g, q));
    assert forall|r: int, c: int| 0 <= r < rows && 0 <= c < cols implies !(#[trigger] g.at(r, c) != 0 && q.at(r, c)
        != 0) by {
        lemma_cell_index(r, c, rows, cols);
        lemma_bit_disjoint(b.0, p.0, r * cols + c);
    }
    assert forall|r: int, c: int| 0 <= r < rows && 0 <= c < cols implies (bit_set(m.0, r * cols + c) <==> #[trigger] o.at(
        r,
        c,
    ) != 0) by {
        lemma_cell_index(r, c, rows, cols);
        lemma_bit_union(b.0, p.0, r * cols + c);
    }
    assert forall|j: int| 0 <= j < pieces.len() implies #[trigger] count_of(o, tagged_color(pieces[j].color, j))
        == if placed.push(i).contains(j as usize) {
        pieces[j].cell_count()
    } else {
        0
    } by {
        let t = tagged_color(pieces[j].color, j);
        lemma_tags_distinct(pieces[j].color, j, pieces[i as int].color, i as int);
        lemma_overlay_count(g, q, t, tc, rows, cols);
        lemma_push_contains(placed, i, j as usize);
        assert(count_of(g, t) == if placed.contains(j as usize) {
            pieces[j].cell_count()
        } else {
            0
        });
        if j == i {
            assert(!placed.contains(j as usize));
        }
    }
    let ng = |r: int, c: int| if g.at(r, c) != 0 { 1int } else { 0int };
    let nq = |r: int, c: int| if q.at(r, c) != 0 { 1int } else { 0int };
    let no = |r: int, c: int| if o.at(r, c) != 0 { 1int } else { 0int };
    let tq = |r: int, c: int| if q.at(r, c) == tc { 1int } else { 0int };
    assert forall|r: int, c: int| 0 <= r < rows && 0 <= c < cols implies #[trigger] no(r, c) == ng(r, c) + nq(r, c) by {
        assert(!(g.at(r, c) != 0 && q.at(r, c) != 0));
    }
    assert forall|r: int, c: int| 0 <= r < rows && 0 <= c < cols implies #[trigger] nq(r, c) == tq(r, c) by {
        assert(q.at(r, c) == 0 || q.at(r, c) == tc);
    }
    lemma_sum2_add(ng, nq, rows, cols);
    lemma_sum2_ext(no, |r: int, c: int| ng(r, c) + nq(r, c), rows, cols);
    lemma_sum2_ext(nq, tq, rows, cols);
    assert(placed.push(i).drop_last() == placed);
    assert(placed.push(i).last() == i);
}

/// Every board of `s` is `board_ok` with the pieces at `placed`.
pub open spec fn all_ok(s: Seq<Placed>, pieces: Seq<Piece>, placed: Seq<usize>, rows: int, cols: int) -> bool {
    forall|k: int| 0 <= k < s.len() ==> board_ok(#[trigger] s[k], pieces, placed, rows, cols)
}

proof fn lemma_all_ok_concat(
    a: Seq<Placed>,
    b: Seq<Placed>,
    pieces: Seq<Piece>,
    placed: Seq<usize>,
    rows: int,
    cols: int,
)
    requires
        all_ok(a, pieces, placed, rows, cols),
        all_ok(b, pieces, placed, rows, cols),
    ensures
        all_ok(a + b, pieces, placed, rows, cols),
{
    assert forall|k: int| 0 <= k < (a + b).len() implies board_ok(#[trigger] (a + b)[k], pieces, placed, rows, cols) by {
        if k < a.len() {
            assert((a + b)[k] == a[k]);
        } else {
            assert((a + b)[k] == b[k - a.len()]);
        }
    }
}

proof fn lemma_children_ok(
    b: Placed,
    ps: Seq<Placed>,
    pieces: Seq<Piece>,
    placed: Seq<usize>,
    i: usize,
    rows: int,
    cols: int,
)
    requires
        board_ok(b, pieces, placed, rows, cols),
        tags_ok(pieces),
        i < pieces.len(),
        !placed.contains(i),
        all_facts(ps, tagged_color(pieces[i as int].color, i as int), pieces[i as int].cell_count(), rows, cols),
        rows * cols <= 64,
    ensures
        all_ok(children(b, ps), pieces, placed.push(i), rows, cols),
    decreases ps.len(),
{
    if ps.len() > 0 {
        let d = ps.drop_last();
        assert(all_facts(d, tagged_color(pieces[i as int].color, i as int), pieces[i as int].cell_count(), rows, cols)) by {
            assert forall|k: int| 0 <= k < d.len() implies placement_facts(
                #[trigger] d[k],
                tagged_color(pieces[i as int].color, i as int),
                pieces[i as int].cell_count(),
                rows,
                cols,
            ) by {
                assert(d[k] == ps[k]);
            }
        }
        lemma_children_ok(b, d, pieces, placed, i, rows, cols);
        if fits(b, ps.last()) {
            assert(placement_facts(
                ps[ps.len() - 1],
                tagged_color(pieces[i as int].color, i as int),
                pieces[i as int].cell_count(),
                rows,
                cols,
            ));
            lemma_merge_ok(b, ps.last(), pieces, placed, i, rows, cols);
            lemma_all_ok_concat(children(b, d), seq![merge(b, ps.last())], pieces, placed.push(i), rows, cols);
            assert(children(b, d) + seq![merge(b, ps.last())] == children(b, d).push(merge(b, ps.last())));
        }
    }
}

proof fn lemma_expand_ok(
    f: Seq<Placed>,
    ps: Seq<Placed>,
    pieces: Seq<Piece>,
    placed: Seq<usize>,
    i: usize,
    rows: int,
    cols: int,
)
    requires
        all_ok(f, pieces, placed, rows, cols),
        tags_ok(pieces),
        i < pieces.len(),
        !placed.contains(i),
        all_facts(ps, tagged_color(pieces[i as int].color, i as int), pieces[i as int].cell_count(), rows, cols),
        rows * cols <= 64,
    ensures
        all_ok(expand(f, ps), pieces, placed.push(i), rows, cols),
    decreases f.len(),
{
    if f.len() > 0 {
        let d = f.drop_last();
        assert(all_ok(d, pieces, placed, rows, cols)) by {
            assert forall|k: int| 0 <= k < d.len() implies board_ok(#[trigger] d[k], pieces, placed, rows, cols) by {
                assert(d[k] == f[k]);
            }
        }
        lemma_expand_ok(d, ps, pieces, placed, i, rows, cols);
        assert(board_ok(f[f.len() - 1], pieces, placed, rows, cols));
        lemma_children_ok(f.last(), ps, pieces, placed, i, rows, cols);
        lemma_all_ok_concat(expand(d, ps), children(f.last(), ps), pieces, placed.push(i), rows, cols);
    }
}

/// The facts the search needs of a solvable, valid game.
proof fn lemma_game_facts(game: Game)
    requires
        solvable(game),
        game.valid(),
    ensures
        game.board_rows() >= 0,
        game.board_rows() * game.columns <= 64,
        game.total_cells() == game.board_rows() * game.columns,
        tags_ok(game.pieces@),
        forall|x: usize| placement_order(game).contains(x) <==> x < game.pieces@.len(),
        placement_order(game).no_duplicates(),
        placement_order(game).len() == game.pieces@.len(),
        cells_at(game.pieces@, placement_order(game)) == game.total_cells(),
{
    let pieces = game.pieces@;
    assert forall|i: int| 0 <= i < pieces.len() implies (#[trigger] pieces[i]).cell_count() >= 1 by {
        assert(pieces[i].wf());
    }
    lemma_pieces_at_most_cells(pieces);
    crate::models::lemma_pieces_cells_nonneg(pieces);
    assert(game.board_rows() >= 0) by (nonlinear_arith)
        requires
            game.total_cells() >= 0,
            game.columns > 0,
            game.board_rows() == game.total_cells() / (game.columns as int),
    ;
    assert forall|i: int| 0 <= i < pieces.len() implies (#[trigger] pieces[i]).color <= 0x00FF_FFFF by {
        assert(pieces[i].wf());
    }
    lemma_order_is_permutation(pieces, piece_keys(game), pieces.len() as int);
    assert(pieces.take(pieces.len() as int) == pieces);
    crate::game_resolver::lemma_order_len(piece_keys(game), pieces.len() as int);
}

/// After the first `d` pieces in placement order, every board of the
/// frontier is `board_ok` with those pieces placed.
proof fn lemma_frontier_ok(game: Game, d: int)
    requires
        solvable(game),
        game.valid(),
        0 <= d <= game.pieces@.len(),
    ensures
        all_ok(
            frontier(
                empty_board(game.board_rows(), game.columns as int),
                placement_lists(game, game.board_rows(), game.columns as int),
                d,
            ),
            game.pieces@,
            placement_order(game).take(d),
            game.board_rows(),
            game.columns as int,
        ),
    decreases d,
{
    let rows = game.board_rows();
    let cols = game.columns as int;
    let pieces = game.pieces@;
    let ord = placement_order(game);
    let lists = placement_lists(game, rows, cols);
    let start = empty_board(rows, cols);
    lemma_game_facts(game);
    if d == 0 {
        let z = start.1;
        assert(ord.take(0) =~= Seq::<usize>::empty());
        assert forall|r: int, c: int| 0 <= r < rows && 0 <= c < cols implies (bit_set(start.0, r * cols + c)
            <==> #[trigger] z.at(r, c) != 0) by {
            lemma_cell_index(r, c, rows, cols);
            lemma_bit_zero((r * cols + c) as u64);
        }
        assert forall|i: int| 0 <= i < pieces.len() implies #[trigger] count_of(z, tagged_color(pieces[i].color, i))
            == 0 by {
            lemma_tags_distinct(pieces[i].color, i, pieces[i].color, i);
            lemma_sum2_zero(
                |r: int, c: int| if z.at(r, c) == tagged_color(pieces[i].color, i) { 1int } else { 0int },
                rows,
                cols,
            );
        }
        lemma_sum2_zero(|r: int, c: int| if z.at(r, c) != 0 { 1int } else { 0int }, rows, cols);
        assert(board_ok(seq![start][0], pieces, ord.take(0), rows, cols));
    } else {
        lemma_frontier_ok(game, d - 1);
        let i = ord[d - 1];
        let p = pieces[i as int];
        assert(ord.contains(i));
        assert(p.wf());
        lemma_tags_distinct(p.color, i as int, p.color, i as int);
        lemma_grid_sum_is_cell_sum(p.matrix@);
        lemma_piece_placement_facts(p.matrix@, tagged_color(p.color, i as int), rows, cols);
        assert(ord.take(d) == ord.take(d - 1).push(i));
        assert(!ord.take(d - 1).contains(i)) by {
            if ord.take(d - 1).contains(i) {
                let k = choose|k: int| 0 <= k < d - 1 && #[trigger] ord.take(d - 1)[k] == i;
                assert(ord[k] == ord[d - 1]);
            }
        }
        assert(lists[d - 1] == piece_placements(p.matrix@, tagged_color(p.color, i as int), rows, cols));
        lemma_expand_ok(
            frontier(start, lists, d - 1),
            lists[d - 1],
            pieces,
            ord.take(d - 1),
            i,
            rows,
            cols,
        );
    }
}

/// Every solution of a valid game tiles the board: no cell is empty, each
/// piece's tagged color covers exactly as many cells as the piece has, and
/// the tags of different pieces differ, so the pieces' cells do not
/// overlap.
pub proof fn lemma_solutions_tile_the_board(game: Game, k: int)
    requires
        solvable(game),
        game.valid(),
        0 <= k < solutions(game).len(),
    ensures
        ({
            let s = solutions(game)[k];
            &&& s.nrows() == game.board_rows()
            &&& s.ncols == game.columns
            &&& forall|r: int, c: int|
                0 <= r < game.board_rows() && 0 <= c < game.columns ==> #[trigger] s.at(r, c) != 0
            &&& forall|i: int|
                0 <= i < game.pieces@.len() ==> #[trigger] count_of(s, tagged_color(game.pieces@[i].color, i))
                    == game.pieces@[i].cell_count()
            &&& forall|i: int, j: int|
                0 <= i < game.pieces@.len() && 0 <= j < game.pieces@.len() && i != j ==> #[trigger] tagged_color(
                    game.pieces@[i].color,
                    i,
                ) != #[trigger] tagged_color(game.pieces@[j].color, j)
        }),
{
    let n = game.pieces@.len() as int;
    let rows = game.board_rows();
    let cols = game.columns as int;
    let pieces = game.pieces@;
    let ord = placement_order(game);
    lemma_game_facts(game);
    lemma_frontier_ok(game, n);
    assert(ord.take(n) == ord);
    let boards = solution_boards(game);
    assert(board_ok(boards[k], pieces, ord, rows, cols));
    let s = solutions(game)[k];
    assert(s == boards[k].1);
    lemma_full_count(s);
    assert forall|i: int| 0 <= i < n implies #[trigger] count_of(s, tagged_color(pieces[i].color, i))
        == pieces[i].cell_count() by {
        assert(ord.contains(i as usize));
    }
    assert forall|i: int, j: int| 0 <= i < n && 0 <= j < n && i != j implies #[trigger] tagged_color(
        pieces[i].color,
        i,
    ) != #[trigger] tagged_color(pieces[j].color, j) by {
        lemma_tags_distinct(pieces[i].color, i, pieces[j].color, j);
    }
}

} // verus!
