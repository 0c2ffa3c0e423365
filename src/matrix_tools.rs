//! Orientation variants of a piece shape and small whole-matrix operations.
use vstd::prelude::*;

use crate::matrix::{Grid, Matrix};

verus! {

/// The eight orientations of `g` in generation order: the four quarter turns
/// of `g`, then the four quarter turns of its transpose.
pub open spec fn orientation_candidates(g: Grid) -> Seq<Grid> {
    let t = g.transposed();
    seq![
        g,
        g.rotated(),
        g.rotated().rotated(),
        g.rotated().rotated().rotated(),
        t,
        t.rotated(),
        t.rotated().rotated(),
        t.rotated().rotated().rotated(),
    ]
}

/// `s` with every element after its first occurrence left out.
pub open spec fn distinct_in_order<A>(s: Seq<A>) -> Seq<A>
    decreases s.len(),
{
    if s.len() == 0 {
        Seq::empty()
    } else {
        let d = distinct_in_order(s.drop_last());
        if d.contains(s.last()) {
            d
        } else {
            d.push(s.last())
        }
    }
}

/// The distinct orientations of `g`, in generation order.
pub open spec fn orientations(g: Grid) -> Seq<Grid> {
    distinct_in_order(orientation_candidates(g))
}

/// `distinct_in_order` keeps exactly the elements of `s`, each once.
pub proof fn lemma_distinct_in_order<A>(s: Seq<A>)
    ensures
        distinct_in_order(s).no_duplicates(),
        forall|x: A| distinct_in_order(s).contains(x) <==> s.contains(x),
    decreases s.len(),
{
    if s.len() > 0 {
        lemma_distinct_in_order(s.drop_last());
        assert forall|x: A| s.contains(x) <==> s.drop_last().contains(x) || x == s.last() by {
            if s.contains(x) {
                let k = choose|k: int| 0 <= k < s.len() && s[k] == x;
                if k < s.len() - 1 {
                    assert(s.drop_last()[k] == x);
                }
            }
            if s.drop_last().contains(x) {
                let k = choose|k: int| 0 <= k < s.drop_last().len() && s.drop_last()[k] == x;
                assert(s[k] == x);
            }
            if x == s.last() {
                assert(s[s.len() - 1] == x);
            }
        }
        let d = distinct_in_order(s.drop_last());
        if !d.contains(s.last()) {
            assert forall|x: A| d.push(s.last()).contains(x) <==> d.contains(x) || x == s.last() by {
                if d.push(s.last()).contains(x) {
                    let k = choose|k: int| 0 <= k < d.push(s.last()).len() && d.push(s.last())[k] == x;
                    if k < d.len() {
                        assert(d[k] == x);
                    }
                }
                if d.contains(x) {
                    let k = choose|k: int| 0 <= k < d.len() && d[k] == x;
                    assert(d.push(s.last())[k] == x);
                }
                if x == s.last() {
                    assert(d.push(s.last())[d.len() as int] == x);
                }
            }
        }
    }
}

/// A grid of 0 / 1 cells with at least one row and one column.
pub open spec fn is_frame(g: Grid) -> bool {
    &&& g.wf()
    &&& g.nrows() >= 1
    &&& g.ncols >= 1
    &&& forall|r: int, c: int| 0 <= r < g.nrows() && 0 <= c < g.ncols ==> #[trigger] g.at(r, c) <= 1
}

proof fn lemma_turns_keep_frame(g: Grid)
    requires
        is_frame(g),
    ensures
        is_frame(g.rotated()),
        is_frame(g.transposed()),
{
    let r = g.rotated();
    assert forall|i: int, j: int| 0 <= i < r.nrows() && 0 <= j < r.ncols implies #[trigger] r.at(i, j) <= 1 by {
        assert(r.at(i, j) == g.at(g.nrows() - 1 - j, i));
    }
    let t = g.transposed();
    assert forall|i: int, j: int| 0 <= i < t.nrows() && 0 <= j < t.ncols implies #[trigger] t.at(i, j) <= 1 by {
        assert(t.at(i, j) == g.at(j, i));
    }
}

/// Every orientation of a 0 / 1 grid is a 0 / 1 grid with at least one row
/// and one column.
pub proof fn lemma_orientations_frame(g: Grid)
    requires
        is_frame(g),
    ensures
        forall|k: int| 0 <= k < orientations(g).len() ==> is_frame(#[trigger] orientations(g)[k]),
{
    let c = orientation_candidates(g);
    lemma_turns_keep_frame(g);
    lemma_turns_keep_frame(g.rotated());
    lemma_turns_keep_frame(g.rotated().rotated());
    lemma_turns_keep_frame(g.transposed());
    lemma_turns_keep_frame(g.transposed().rotated());
    lemma_turns_keep_frame(g.transposed().rotated().rotated());
    assert forall|k: int| 0 <= k < c.len() implies is_frame(#[trigger] c[k]) by {}
    lemma_distinct_in_order(c);
    assert forall|k: int| 0 <= k < orientations(g).len() implies is_frame(#[trigger] orientations(g)[k]) by {
        assert(orientations(g).contains(orientations(g)[k]));
        assert(c.contains(orientations(g)[k]));
    }
}

pub proof fn lemma_turns_wf(g: Grid)
    requires
        g.wf(),
    ensures
        g.rotated().wf(),
        g.transposed().wf(),
{
}

/// A half turn reads the grid backwards in both directions.
proof fn lemma_half_turn(g: Grid)
    requires
        g.wf(),
    ensures
        g.rotated().rotated() == (Grid {
            ncols: g.ncols,
            cells: Seq::new(
                g.nrows(),
                |i: int| Seq::new(g.ncols, |j: int| g.cells[g.nrows() - 1 - i][g.ncols - 1 - j]),
            ),
        }),
{
    let h = g.rotated().rotated();
    let e = Grid {
        ncols: g.ncols,
        cells: Seq::new(
            g.nrows(),
            |i: int| Seq::new(g.ncols, |j: int| g.cells[g.nrows() - 1 - i][g.ncols - 1 - j]),
        ),
    };
    assert(h.cells =~~= e.cells);
}

/// Four quarter turns give the grid back.
proof fn lemma_full_turn(g: Grid)
    requires
        g.wf(),
    ensures
        g.rotated().rotated().rotated().rotated() == g,
{
    lemma_half_turn(g);
    let h = g.rotated().rotated();
    lemma_turns_wf(g);
    lemma_turns_wf(g.rotated());
    lemma_half_turn(h);
    assert(h.rotated().rotated().cells =~~= g.cells);
}

/// Transposing twice gives the grid back.
proof fn lemma_transpose_twice(g: Grid)
    requires
        g.wf(),
    ensures
        g.transposed().transposed() == g,
{
    assert(g.transposed().transposed().cells =~~= g.cells);
}

/// Transposing after a quarter turn is three quarter turns after
/// transposing.
proof fn lemma_transpose_turn(g: Grid)
    requires
        g.wf(),
    ensures
        g.rotated().transposed() == g.transposed().rotated().rotated().rotated(),
{
    let t = g.transposed();
    lemma_turns_wf(g);
    lemma_turns_wf(t);
    lemma_half_turn(t);
    let lhs = g.rotated().transposed();
    let rhs = t.rotated().rotated().rotated();
    assert(lhs.cells =~~= rhs.cells);
}

/// `x` is one of the eight orientations of `g` in generation order.
pub open spec fn in_orbit(g: Grid, x: Grid) -> bool {
    let c = orientation_candidates(g);
    x == c[0] || x == c[1] || x == c[2] || x == c[3] || x == c[4] || x == c[5] || x == c[6] || x == c[7]
}

pub proof fn lemma_candidates_contains(g: Grid, x: Grid)
    ensures
        orientation_candidates(g).contains(x) <==> in_orbit(g, x),
{
    let c = orientation_candidates(g);
    if in_orbit(g, x) {
        if x == c[0] { assert(c[0] == x); } else if x == c[1] { assert(c[1] == x); }
        else if x == c[2] { assert(c[2] == x); } else if x == c[3] { assert(c[3] == x); }
        else if x == c[4] { assert(c[4] == x); } else if x == c[5] { assert(c[5] == x); }
        else if x == c[6] { assert(c[6] == x); } else { assert(c[7] == x); }
    }
}

/// Orientations are closed under further turning and reflecting: any
/// orientation of `g` has exactly the orientations of `g`. So the generator
/// is idempotent and does not depend on which orientation it starts from.
pub proof fn lemma_orientations_closed(g: Grid, h: Grid)
    requires
        g.wf(),
        orientations(g).contains(h),
    ensures
        forall|x: Grid| orientations(h).contains(x) <==> orientations(g).contains(x),
{
    let g1 = g.rotated();
    let g2 = g1.rotated();
    let g3 = g2.rotated();
    let t0 = g.transposed();
    let t1 = t0.rotated();
    let t2 = t1.rotated();
    let t3 = t2.rotated();
    lemma_turns_wf(g);
    lemma_turns_wf(g1);
    lemma_turns_wf(g2);
    lemma_turns_wf(t0);
    lemma_turns_wf(t1);
    lemma_turns_wf(t2);
    lemma_full_turn(g);
    lemma_full_turn(t0);
    lemma_transpose_twice(g);
    lemma_transpose_turn(g);
    lemma_transpose_turn(g1);
    lemma_transpose_turn(g2);
    lemma_transpose_turn(t0);
    lemma_transpose_turn(t1);
    lemma_transpose_turn(t2);
    assert(g1.transposed() == t3);
    assert(g2.transposed() == t2);
    assert(g3.transposed() == t1);
    assert(t1.transposed() == g3);
    assert(t2.transposed() == g2);
    assert(t3.transposed() == g1);
    lemma_distinct_in_order(orientation_candidates(g));
    lemma_distinct_in_order(orientation_candidates(h));
    lemma_candidates_contains(g, h);
    assert forall|x: Grid| orientations(h).contains(x) <==> orientations(g).contains(x) by {
        lemma_candidates_contains(g, x);
        lemma_candidates_contains(h, x);
    }
}

/// One more element of `s` taken into `distinct_in_order`.
proof fn lemma_distinct_step<A>(s: Seq<A>, k: int)
    requires
        0 <= k < s.len(),
    ensures
        distinct_in_order(s.take(k + 1)) == (if distinct_in_order(s.take(k)).contains(s[k]) {
            distinct_in_order(s.take(k))
        } else {
            distinct_in_order(s.take(k)).push(s[k])
        }),
{
    assert(s.take(k + 1).drop_last() == s.take(k));
    assert(s.take(k + 1).last() == s[k]);
}

pub open spec fn views(v: Seq<Matrix>) -> Seq<Grid> {
    v.map_values(|m: Matrix| m@)
}

pub open spec fn all_wf(v: Seq<Matrix>) -> bool {
    forall|k: int| 0 <= k < v.len() ==> (#[trigger] v[k]).wf()
}

/// Appends `m` unless a matrix equal to it is already in `variants`.
fn push_distinct(variants: &mut Vec<Matrix>, m: Matrix)
    requires
        m.wf(),
        all_wf(old(variants)@),
    ensures
        all_wf(final(variants)@),
        views(final(variants)@) == (if views(old(variants)@).contains(m@) {
            views(old(variants)@)
        } else {
            views(old(variants)@).push(m@)
        }),
{
    let mut found = false;
    for k in 0..variants.len()
        invariant
            m.wf(),
            all_wf(variants@),
            found <==> exists|j: int| 0 <= j < k && (#[trigger] variants@[j])@ == m@,
    {
        if variants[k].same_as(&m) {
            found = true;
        }
    }
    proof {
        if found {
            let j = choose|j: int| 0 <= j < variants.len() && (#[trigger] variants@[j])@ == m@;
            assert(views(variants@)[j] == m@);
        } else {
            assert forall|j: int| 0 <= j < views(variants@).len() implies views(variants@)[j] != m@ by {
                assert(variants@[j]@ == views(variants@)[j]);
            }
        }
    }
    if !found {
        let ghost before = variants@;
        variants.push(m);
        assert(views(variants@) == views(before).push(m@));
    }
}

/// The distinct orientations of `matrix` under quarter turns and reflection:
/// the turns of `matrix`, then those of its transpose, each kept only the
/// first time it appears.
pub fn rotation_variants(matrix: &Matrix) -> (variants: Vec<Matrix>)
    requires
        matrix.wf(),
    ensures
        all_wf(variants@),
        views(variants@) == orientations(matrix@),
{
    let ghost c = orientation_candidates(matrix@);
    let mut variants: Vec<Matrix> = Vec::new();
    assert(views(variants@) == distinct_in_order(c.take(0)));
    let m0 = matrix.duplicate();
    let m1 = m0.rotate();
    push_distinct(&mut variants, m0);
    proof { lemma_distinct_step(c, 0); }
    let m2 = m1.rotate();
    push_distinct(&mut variants, m1);
    proof { lemma_distinct_step(c, 1); }
    let m3 = m2.rotate();
    push_distinct(&mut variants, m2);
    proof { lemma_distinct_step(c, 2); }
    push_distinct(&mut variants, m3);
    proof { lemma_distinct_step(c, 3); }
    let t0 = matrix.transpose();
    let t1 = t0.rotate();
    push_distinct(&mut variants, t0);
    proof { lemma_distinct_step(c, 4); }
    let t2 = t1.rotate();
    push_distinct(&mut variants, t1);
    proof { lemma_distinct_step(c, 5); }
    let t3 = t2.rotate();
    push_distinct(&mut variants, t2);
    proof { lemma_distinct_step(c, 6); }
    push_distinct(&mut variants, t3);
    proof { lemma_distinct_step(c, 7); }
    assert(c.take(8) == c);
    variants
}

/// Quarter turn clockwise of `matrix`: the last column of the result is its
/// first row.
pub fn rotate_matrix(matrix: &Matrix) -> (t: Matrix)
    requires
        matrix.wf(),
    ensures
        t.wf(),
        t@ == matrix@.rotated(),
{
    matrix.rotate()
}

/// Every cell of `matrix` clamped to at most `max_val`.
pub fn max_matrix(matrix: &Matrix, max_val: u32) -> (t: Matrix)
    requires
        matrix.wf(),
    ensures
        t.wf(),
        t@.ncols == matrix@.ncols,
        t@.nrows() == matrix@.nrows(),
        forall|r: int, c: int|
            0 <= r < matrix@.nrows() && 0 <= c < matrix@.ncols ==> #[trigger] t@.at(r, c) == if matrix@.at(r, c)
                <= max_val {
                matrix@.at(r, c)
            } else {
                max_val
            },
{
    let mut rows: Vec<Vec<u32>> = Vec::new();
    for r in 0..matrix.rows.len()
        invariant
            matrix.wf(),
            rows.len() == r,
            forall|k: int| 0 <= k < r ==> (#[trigger] rows@[k])@.len() == matrix.ncols,
            forall|k: int, c: int|
                0 <= k < r && 0 <= c < matrix.ncols ==> #[trigger] rows@[k]@[c] == if matrix@.at(k, c)
                    <= max_val {
                    matrix@.at(k, c)
                } else {
                    max_val
                },
    {
        assert(matrix@.cells[r as int].len() == matrix.ncols);
        let mut row: Vec<u32> = Vec::new();
        for c in 0..matrix.ncols
            invariant
                matrix.wf(),
                r < matrix@.nrows(),
                matrix@.cells[r as int].len() == matrix.ncols,
                row@.len() == c,
                forall|k: int|
                    0 <= k < c ==> #[trigger] row@[k] == if matrix@.at(r as int, k) <= max_val {
                        matrix@.at(r as int, k)
                    } else {
                        max_val
                    },
        {
            let v = matrix.rows[r][c];
            row.push(if v <= max_val { v } else { max_val });
        }
        rows.push(row);
    }
    Matrix { ncols: matrix.ncols, rows }
}

} // verus!
