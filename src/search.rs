//! The search model: frontiers of partial boards, their expansion by the
//! placements of one piece, and the depth-first completions of a board.
use vstd::prelude::*;

use crate::matrix::Grid;

verus! {

/// A board state or a placement: the mask of the covered cells and the
/// colored grid.
pub type Placed = (u64, Grid);

/// `patch` laid over `board`: the patch's non-zero cells, the board's
/// cells elsewhere.
pub open spec fn overlay(board: Grid, patch: Grid) -> Grid {
    Grid {
        ncols: board.ncols,
        cells: Seq::new(
            board.nrows(),
            |r: int|
                Seq::new(
                    board.ncols,
                    |c: int|
                        if patch.at(r, c) != 0 {
                            patch.at(r, c)
                        } else {
                            board.at(r, c)
                        },
                ),
        ),
    }
}

/// Placement `p` and `board` share no cell.
pub open spec fn fits(board: Placed, p: Placed) -> bool {
    board.0 & p.0 == 0
}

/// `board` with placement `p` merged in.
pub open spec fn merge(board: Placed, p: Placed) -> Placed {
    (board.0 | p.0, overlay(board.1, p.1))
}

/// The boards made from `board` by each placement of `ps` that fits it, in
/// the order of `ps`.
pub open spec fn children(board: Placed, ps: Seq<Placed>) -> Seq<Placed>
    decreases ps.len(),
{
    if ps.len() == 0 {
        Seq::empty()
    } else if fits(board, ps.last()) {
        children(board, ps.drop_last()).push(merge(board, ps.last()))
    } else {
        children(board, ps.drop_last())
    }
}

/// One breadth step: the children of every board of `frontier`, board after
/// board.
pub open spec fn expand(frontier: Seq<Placed>, ps: Seq<Placed>) -> Seq<Placed>
    decreases frontier.len(),
{
    if frontier.len() == 0 {
        Seq::empty()
    } else {
        expand(frontier.drop_last(), ps) + children(frontier.last(), ps)
    }
}

/// The frontier after the pieces whose placement lists are `lists[0..k)`
/// have been placed, starting from `start`.
pub open spec fn frontier(start: Placed, lists: Seq<Seq<Placed>>, k: int) -> Seq<Placed>
    decreases k,
{
    if k <= 0 {
        seq![start]
    } else {
        expand(frontier(start, lists, k - 1), lists[k - 1])
    }
}

/// The complete boards reached depth-first from each board of `boards`,
/// which have the pieces before `depth` placed.
pub open spec fn completions(boards: Seq<Placed>, lists: Seq<Seq<Placed>>, depth: int) -> Seq<Placed>
    decreases lists.len() - depth, boards.len(),
{
    if depth >= lists.len() || depth < 0 {
        boards
    } else if boards.len() == 0 {
        Seq::empty()
    } else {
        completions(boards.drop_last(), lists, depth) + completions(
            children(boards.last(), lists[depth]),
            lists,
            depth + 1,
        )
    }
}

/// The elements of `s` whose running number, counting from `first` for
/// `s[0]`, lies in `[start, end)`.
pub open spec fn window<A>(s: Seq<A>, first: int, start: int, end: int) -> Seq<A> {
    s.subrange(clamp(start - first, s.len() as int), clamp(end - first, s.len() as int))
}

/// `x` brought into `[0, hi]`.
pub open spec fn clamp(x: int, hi: int) -> int {
    if x < 0 {
        0
    } else if x > hi {
        hi
    } else {
        x
    }
}

pub proof fn lemma_window_concat<A>(a: Seq<A>, b: Seq<A>, first: int, start: int, end: int)
    requires
        start <= end,
    ensures
        window(a + b, first, start, end) == window(a, first, start, end) + window(
            b,
            first + a.len(),
            start,
            end,
        ),
{
    let lo = clamp(start - first, (a + b).len() as int);
    let hi = clamp(end - first, (a + b).len() as int);
    let alo = clamp(start - first, a.len() as int);
    let ahi = clamp(end - first, a.len() as int);
    let blo = clamp(start - first - a.len(), b.len() as int);
    let bhi = clamp(end - first - a.len(), b.len() as int);
    assert((a + b).subrange(lo, hi) =~= a.subrange(alo, ahi) + b.subrange(blo, bhi));
}

/// `children` distributes over concatenation of the placements.
pub proof fn lemma_children_concat(board: Placed, a: Seq<Placed>, b: Seq<Placed>)
    ensures
        children(board, a + b) == children(board, a) + children(board, b),
    decreases b.len(),
{
    if b.len() == 0 {
        assert(a + b == a);
        assert(children(board, a) + Seq::empty() == children(board, a));
    } else {
        assert((a + b).drop_last() == a + b.drop_last());
        assert((a + b).last() == b.last());
        lemma_children_concat(board, a, b.drop_last());
    }
}

/// `completions` distributes over concatenation of the boards.
pub proof fn lemma_completions_concat(a: Seq<Placed>, b: Seq<Placed>, lists: Seq<Seq<Placed>>, depth: int)
    ensures
        completions(a + b, lists, depth) == completions(a, lists, depth) + completions(b, lists, depth),
    decreases b.len(),
{
    if depth >= lists.len() || depth < 0 {
    } else if b.len() == 0 {
        assert(a + b == a);
        assert(completions(a, lists, depth) + Seq::empty() == completions(a, lists, depth));
    } else {
        assert((a + b).drop_last() == a + b.drop_last());
        assert((a + b).last() == b.last());
        lemma_completions_concat(a, b.drop_last(), lists, depth);
    }
}

/// Completing a frontier depth-first is completing its breadth expansion.
pub proof fn lemma_completions_expand(boards: Seq<Placed>, lists: Seq<Seq<Placed>>, depth: int)
    requires
        0 <= depth < lists.len(),
    ensures
        completions(boards, lists, depth) == completions(
            expand(boards, lists[depth]),
            lists,
            depth + 1,
        ),
    decreases boards.len(),
{
    if boards.len() > 0 {
        lemma_completions_expand(boards.drop_last(), lists, depth);
        lemma_completions_concat(
            expand(boards.drop_last(), lists[depth]),
            children(boards.last(), lists[depth]),
            lists,
            depth + 1,
        );
    }
}

/// The breadth frontier after every piece is the list of depth-first
/// completions of the start board.
pub proof fn lemma_frontier_is_completions(start: Placed, lists: Seq<Seq<Placed>>, k: int)
    requires
        0 <= k <= lists.len(),
    ensures
        completions(frontier(start, lists, k), lists, k) == completions(seq![start], lists, 0),
    decreases k,
{
    if k > 0 {
        lemma_frontier_is_completions(start, lists, k - 1);
        lemma_completions_expand(frontier(start, lists, k - 1), lists, k - 1);
    }
}

} // verus!
