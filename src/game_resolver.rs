//! The solver: piece ordering, placement lists, and the breadth-first and
//! paged depth-first searches over them.
use vstd::prelude::*;

use crate::bitboard::{
    all_positions,
    generate_positions,
    lemma_positions_board_sized,
    placements_view,
    BitBoard,
};
use crate::matrix::{zero_grid, Grid, Matrix};
use crate::matrix_tools::{
    all_wf,
    is_frame,
    lemma_orientations_frame,
    orientations,
    rotation_variants,
    views,
};
use crate::models::{
    lemma_piece_within_total,
    lemma_pieces_at_most_cells,
    lemma_pieces_cells_prefix,
    grid_sum,
    lemma_grid_sum_nonneg,
    pieces_cells,
    Game,
    Piece,
    MAX_COLOR,
};
use crate::search::{
    children,
    completions,
    expand,
    frontier,
    lemma_children_concat,
    lemma_completions_concat,
    lemma_frontier_is_completions,
    lemma_window_concat,
    merge,
    overlay,
    window,
    Placed,
};

verus! {

/// `x` put into `sorted` after every element with a mask no greater than
/// its own.
pub open spec fn insert_by_mask(sorted: Seq<Placed>, x: Placed) -> Seq<Placed>
    decreases sorted.len(),
{
    if sorted.len() == 0 {
        seq![x]
    } else if sorted.last().0 <= x.0 {
        sorted.push(x)
    } else {
        insert_by_mask(sorted.drop_last(), x).push(sorted.last())
    }
}

/// `s` stably sorted by ascending mask.
pub open spec fn sort_by_mask(s: Seq<Placed>) -> Seq<Placed>
    decreases s.len(),
{
    if s.len() == 0 {
        Seq::empty()
    } else {
        insert_by_mask(sort_by_mask(s.drop_last()), s.last())
    }
}

/// Index `i` put into `sorted` after every index whose key is at least
/// `keys[i]`.
pub open spec fn insert_by_size(sorted: Seq<usize>, i: usize, keys: Seq<u32>) -> Seq<usize>
    decreases sorted.len(),
{
    if sorted.len() == 0 {
        seq![i]
    } else if keys[sorted.last() as int] >= keys[i as int] {
        sorted.push(i)
    } else {
        insert_by_size(sorted.drop_last(), i, keys).push(sorted.last())
    }
}

/// The indices `0..n` by descending key, equal keys in index order.
pub open spec fn order_by_size(keys: Seq<u32>, n: int) -> Seq<usize>
    decreases n,
{
    if n <= 0 {
        Seq::empty()
    } else {
        insert_by_size(order_by_size(keys, n - 1), (n - 1) as usize, keys)
    }
}

/// The placements of every grid of `vs`, grid after grid.
pub open spec fn variant_positions(vs: Seq<Grid>, color: u32, rows: int, cols: int) -> Seq<Placed>
    decreases vs.len(),
{
    if vs.len() == 0 {
        Seq::empty()
    } else {
        variant_positions(vs.drop_last(), color, rows, cols) + all_positions(vs.last(), color, rows, cols)
    }
}

/// Every placement of every orientation of `g`, by ascending mask.
pub open spec fn piece_placements(g: Grid, color: u32, rows: int, cols: int) -> Seq<Placed> {
    sort_by_mask(variant_positions(orientations(g), color, rows, cols))
}

/// The color of piece `i` with the piece's number `i + 1` in its high byte.
pub open spec fn tagged_color(color: u32, i: int) -> u32 {
    color | (((i + 1) as u32) << 24u32)
}

/// The cell counts of the pieces.
pub open spec fn piece_keys(game: Game) -> Seq<u32> {
    Seq::new(game.pieces@.len(), |i: int| game.pieces@[i].cell_count() as u32)
}

/// The order in which the pieces are placed: largest first, equal sizes in
/// the order of the game.
pub open spec fn placement_order(game: Game) -> Seq<usize> {
    order_by_size(piece_keys(game), game.pieces@.len() as int)
}

/// For each piece in placement order, its placements with its tagged color.
pub open spec fn placement_lists(game: Game, rows: int, cols: int) -> Seq<Seq<Placed>> {
    Seq::new(
        game.pieces@.len(),
        |k: int|
            {
                let i = placement_order(game)[k] as int;
                piece_placements(
                    game.pieces@[i].matrix@,
                    tagged_color(game.pieces@[i].color, i),
                    rows,
                    cols,
                )
            },
    )
}

/// The empty `rows` x `cols` board.
pub open spec fn empty_board(rows: int, cols: int) -> Placed {
    (0u64, zero_grid(rows as nat, cols as nat))
}

/// Every board with all the pieces of `game` placed, in the canonical
/// order: depth-first over the pieces in placement order, each piece's
/// placements by ascending mask.
pub open spec fn solution_boards(game: Game) -> Seq<Placed> {
    let rows = game.board_rows();
    let cols = game.columns as int;
    frontier(empty_board(rows, cols), placement_lists(game, rows, cols), game.pieces@.len() as int)
}

/// The colored grids of the solutions of `game`; none when it is invalid.
pub open spec fn solutions(game: Game) -> Seq<Grid> {
    if !game.valid() {
        Seq::empty()
    } else {
        solution_boards(game).map_values(|b: Placed| b.1)
    }
}

/// The input the solver takes: positive columns, well-formed pieces, a cell
/// total within `u32` and a board of at most 64 cells.
pub open spec fn solvable(game: Game) -> bool {
    &&& game.columns > 0
    &&& forall|i: int| 0 <= i < game.pieces@.len() ==> (#[trigger] game.pieces@[i]).wf()
    &&& game.total_cells() <= u32::MAX
    &&& game.board_rows() * game.columns <= 64
}

/// Whether the solver takes `game`: what its searches require, tested.
pub fn is_solvable(game: &Game) -> (b: bool)
    ensures
        b == solvable(*game),
{
    if game.columns == 0 {
        return false;
    }
    let n = game.pieces.len();
    let mut total: u32 = 0;
    for i in 0..n
        invariant
            n == game.pieces@.len(),
            game.columns > 0,
            forall|k: int| 0 <= k < i ==> (#[trigger] game.pieces@[k]).wf(),
            total == pieces_cells(game.pieces@.take(i as int)),
    {
        let p = &game.pieces[i];
        proof {
            lemma_pieces_cells_prefix(game.pieces@, i + 1);
            assert(game.pieces@.take(i + 1).drop_last() == game.pieces@.take(i as int));
            assert(game.pieces@.take(i + 1).last() == game.pieces@[i as int]);
        }
        if !p.matrix.is_well_formed() {
            return false;
        }
        if p.matrix.nrows() == 0 || p.matrix.ncols() == 0 || !p.matrix.is_zero_one() || p.color > MAX_COLOR {
            return false;
        }
        match p.checked_cells() {
            None => {
                return false;
            },
            Some(c) => {
                if c == 0 {
                    return false;
                }
                match total.checked_add(c) {
                    None => {
                        return false;
                    },
                    Some(t) => {
                        total = t;
                    },
                }
            },
        }
        assert(p.matrix.wf());
        assert(is_frame(p.matrix@));
        proof {
            lemma_grid_sum_nonneg(p.matrix@.cells);
        }
        assert(grid_sum(p.matrix@.cells) >= 1);
        assert(p.wf());
        assert(total == pieces_cells(game.pieces@.take(i + 1)));
    }
    assert(game.pieces@.take(n as int) == game.pieces@);
    let rows = total / game.columns;
    let cols = game.columns;
    assert((rows as u64) * (cols as u64) <= u64::MAX) by (nonlinear_arith)
        requires
            rows <= u32::MAX,
            cols <= u32::MAX,
    ;
    (rows as u64) * (cols as u64) <= 64
}

/// Masks never decrease along `s`.
pub open spec fn ascending_masks(s: Seq<Placed>) -> bool {
    forall|a: int, b: int| 0 <= a < b < s.len() ==> (#[trigger] s[a]).0 <= (#[trigger] s[b]).0
}

proof fn lemma_insert_by_mask_sorted(sorted: Seq<Placed>, x: Placed)
    requires
        ascending_masks(sorted),
    ensures
        ascending_masks(insert_by_mask(sorted, x)),
        insert_by_mask(sorted, x).len() == sorted.len() + 1,
        forall|k: int|
            0 <= k < insert_by_mask(sorted, x).len() ==> #[trigger] insert_by_mask(sorted, x)[k] == x || sorted.contains(
                insert_by_mask(sorted, x)[k],
            ),
    decreases sorted.len(),
{
    if sorted.len() > 0 && sorted.last().0 > x.0 {
        let d = sorted.drop_last();
        let y = sorted.last();
        lemma_insert_by_mask_sorted(d, x);
        let e = insert_by_mask(d, x);
        assert forall|k: int| 0 <= k < e.len() implies (#[trigger] e[k]).0 <= y.0 by {
            if e[k] != x {
                let j = choose|j: int| 0 <= j < d.len() && d[j] == e[k];
                assert(sorted[j] == d[j]);
                assert(sorted[sorted.len() - 1] == y);
            }
        }
        assert forall|k: int| 0 <= k < e.push(y).len() implies #[trigger] e.push(y)[k] == x || sorted.contains(
            e.push(y)[k],
        ) by {
            if k == e.len() {
                assert(sorted[sorted.len() - 1] == y);
            } else if e[k] != x {
                let j = choose|j: int| 0 <= j < d.len() && d[j] == e[k];
                assert(sorted[j] == d[j]);
            }
        }
    } else {
        assert forall|k: int| 0 <= k < sorted.push(x).len() implies #[trigger] sorted.push(x)[k] == x
            || sorted.contains(sorted.push(x)[k]) by {
            if k < sorted.len() {
                assert(sorted[k] == sorted.push(x)[k]);
            }
        }
        if sorted.len() == 0 {
            assert(seq![x] == sorted.push(x));
        }
    }
}

/// `sort_by_mask` orders by ascending mask and keeps the length.
pub proof fn lemma_sort_by_mask_sorted(s: Seq<Placed>)
    ensures
        ascending_masks(sort_by_mask(s)),
        sort_by_mask(s).len() == s.len(),
    decreases s.len(),
{
    if s.len() > 0 {
        lemma_sort_by_mask_sorted(s.drop_last());
        lemma_insert_by_mask_sorted(sort_by_mask(s.drop_last()), s.last());
    }
}

/// Each placement list is in ascending mask order.
pub proof fn lemma_placement_lists_sorted(game: Game, rows: int, cols: int)
    ensures
        forall|k: int|
            0 <= k < game.pieces@.len() ==> ascending_masks(#[trigger] placement_lists(game, rows, cols)[k]),
{
    assert forall|k: int| 0 <= k < game.pieces@.len() implies ascending_masks(
        #[trigger] placement_lists(game, rows, cols)[k],
    ) by {
        let i = placement_order(game)[k] as int;
        lemma_sort_by_mask_sorted(
            variant_positions(
                orientations(game.pieces@[i].matrix@),
                tagged_color(game.pieces@[i].color, i),
                rows,
                cols,
            ),
        );
    }
}

/// Along `s`, keys never increase, and equal keys come in index order.
pub open spec fn descending_stable(s: Seq<usize>, keys: Seq<u32>) -> bool {
    forall|a: int, b: int|
        0 <= a < b < s.len() ==> keys[(#[trigger] s[a]) as int] > keys[(#[trigger] s[b]) as int] || (keys[s[a] as int]
            == keys[s[b] as int] && s[a] < s[b])
}

proof fn lemma_insert_by_size_sorted(sorted: Seq<usize>, i: usize, keys: Seq<u32>)
    requires
        descending_stable(sorted, keys),
        forall|k: int| 0 <= k < sorted.len() ==> #[trigger] sorted[k] < i,
    ensures
        descending_stable(insert_by_size(sorted, i, keys), keys),
        forall|k: int|
            0 <= k < insert_by_size(sorted, i, keys).len() ==> #[trigger] insert_by_size(sorted, i, keys)[k] == i
                || sorted.contains(insert_by_size(sorted, i, keys)[k]),
    decreases sorted.len(),
{
    if sorted.len() == 0 {
    } else if keys[sorted.last() as int] >= keys[i as int] {
        let t = sorted.push(i);
        assert forall|a: int, b: int| 0 <= a < b < t.len() implies keys[(#[trigger] t[a]) as int] > keys[(
        #[trigger] t[b]) as int] || (keys[t[a] as int] == keys[t[b] as int] && t[a] < t[b]) by {
            if b == sorted.len() {
                assert(t[a] == sorted[a]);
                if a < sorted.len() - 1 {
                    assert(sorted[sorted.len() - 1] == sorted.last());
                }
            } else {
                assert(t[a] == sorted[a] && t[b] == sorted[b]);
            }
        }
        assert forall|k: int| 0 <= k < t.len() implies #[trigger] t[k] == i || sorted.contains(t[k]) by {
            if k < sorted.len() {
                assert(sorted[k] == t[k]);
            }
        }
    } else {
        let d = sorted.drop_last();
        let y = sorted.last();
        assert(descending_stable(d, keys)) by {
            assert forall|a: int, b: int| 0 <= a < b < d.len() implies keys[(#[trigger] d[a]) as int] > keys[(
            #[trigger] d[b]) as int] || (keys[d[a] as int] == keys[d[b] as int] && d[a] < d[b]) by {
                assert(d[a] == sorted[a] && d[b] == sorted[b]);
            }
        }
        lemma_insert_by_size_sorted(d, i, keys);
        let e = insert_by_size(d, i, keys);
        let t = e.push(y);
        assert forall|k: int| 0 <= k < e.len() implies keys[(#[trigger] e[k]) as int] > keys[y as int] || (keys[e[k] as int]
            == keys[y as int] && e[k] < y) by {
            if e[k] != i {
                let j = choose|j: int| 0 <= j < d.len() && d[j] == e[k];
                assert(sorted[j] == d[j]);
                assert(sorted[sorted.len() - 1] == y);
            }
        }
        assert forall|a: int, b: int| 0 <= a < b < t.len() implies keys[(#[trigger] t[a]) as int] > keys[(
        #[trigger] t[b]) as int] || (keys[t[a] as int] == keys[t[b] as int] && t[a] < t[b]) by {
            assert(t[a] == e[a]);
            if b < e.len() {
                assert(t[b] == e[b]);
            }
        }
        assert forall|k: int| 0 <= k < t.len() implies #[trigger] t[k] == i || sorted.contains(t[k]) by {
            if k == e.len() {
                assert(sorted[sorted.len() - 1] == y);
            } else if e[k] != i {
                let j = choose|j: int| 0 <= j < d.len() && d[j] == e[k];
                assert(sorted[j] == d[j]);
            }
        }
    }
}

/// The placement order puts larger pieces first, and pieces of the same
/// size in the order of the game.
pub proof fn lemma_order_by_size_sorted(keys: Seq<u32>, n: int)
    requires
        0 <= n <= usize::MAX,
    ensures
        descending_stable(order_by_size(keys, n), keys),
        forall|k: int| 0 <= k < order_by_size(keys, n).len() ==> #[trigger] order_by_size(keys, n)[k] < n,
    decreases n,
{
    if n > 0 {
        lemma_order_by_size_sorted(keys, n - 1);
        let prev = order_by_size(keys, n - 1);
        lemma_insert_by_size_sorted(prev, (n - 1) as usize, keys);
        let cur = order_by_size(keys, n);
        assert forall|k: int| 0 <= k < cur.len() implies #[trigger] cur[k] < n by {
            if cur[k] != (n - 1) as usize {
                let j = choose|j: int| 0 <= j < prev.len() && prev[j] == cur[k];
            }
        }
    }
}

/// Every matrix of a placement list is a well-formed `rows` x `cols` grid.
pub open spec fn board_sized(v: Seq<(BitBoard, Matrix)>, rows: int, cols: int) -> bool {
    forall|k: int|
        0 <= k < v.len() ==> {
            &&& (#[trigger] v[k]).1.wf()
            &&& v[k].1@.nrows() == rows
            &&& v[k].1@.ncols == cols
        }
}

/// Inserts `x` after every placement of `sorted` whose mask is no greater.
fn insert_placement(sorted: &mut Vec<(BitBoard, Matrix)>, x: (BitBoard, Matrix), rows: Ghost<int>, cols: Ghost<int>)
    requires
        board_sized(old(sorted)@, rows@, cols@),
        board_sized(seq![x], rows@, cols@),
    ensures
        board_sized(final(sorted)@, rows@, cols@),
        placements_view(final(sorted)@) == insert_by_mask(placements_view(old(sorted)@), (x.0, x.1@)),
{
    let ghost xv: Placed = (x.0, x.1@);
    let ghost target = insert_by_mask(placements_view(sorted@), xv);
    let mut tail: Vec<(BitBoard, Matrix)> = Vec::new();
    assert(placements_view(tail@).reverse() =~= Seq::<Placed>::empty());
    assert(target =~= target + placements_view(tail@).reverse());
    while sorted.len() > 0 && sorted[sorted.len() - 1].0 > x.0
        invariant
            board_sized(sorted@, rows@, cols@),
            board_sized(tail@, rows@, cols@),
            xv == (x.0, x.1@),
            target == insert_by_mask(placements_view(sorted@), xv) + placements_view(tail@).reverse(),
        decreases sorted.len(),
    {
        let ghost s0 = sorted@;
        let ghost t0 = tail@;
        let e = sorted.pop().unwrap();
        assert(s0 == sorted@.push(e));
        assert(placements_view(sorted@) == placements_view(s0).drop_last());
        tail.push(e);
        assert(placements_view(tail@).reverse() =~= seq![(e.0, e.1@)] + placements_view(t0).reverse());
    }
    assert(insert_by_mask(placements_view(sorted@), xv) == placements_view(sorted@).push(xv));
    let ghost s1 = sorted@;
    sorted.push(x);
    assert(placements_view(sorted@) == placements_view(s1).push(xv));
    assert(seq![x][0] == x);
    assert forall|k: int| 0 <= k < sorted@.len() implies {
        &&& (#[trigger] sorted@[k]).1.wf()
        &&& sorted@[k].1@.nrows() == rows@
        &&& sorted@[k].1@.ncols == cols@
    } by {
        if k < s1.len() {
            assert(sorted@[k] == s1[k]);
        } else {
            assert(sorted@[k] == seq![x][0]);
        }
    }
    while tail.len() > 0
        invariant
            board_sized(sorted@, rows@, cols@),
            board_sized(tail@, rows@, cols@),
            target == placements_view(sorted@) + placements_view(tail@).reverse(),
        decreases tail.len(),
    {
        let ghost s0 = sorted@;
        let ghost t0 = tail@;
        let e = tail.pop().unwrap();
        assert(t0 == tail@.push(e));
        assert(placements_view(t0).reverse() =~= seq![(e.0, e.1@)] + placements_view(tail@).reverse());
        sorted.push(e);
        assert(placements_view(sorted@) =~= placements_view(s0).push((e.0, e.1@)));
    }
    assert(placements_view(tail@).reverse() =~= Seq::<Placed>::empty());
    assert(target =~= placements_view(sorted@));
}

/// The placements of `list`, stably sorted by ascending mask.
fn sort_placements(list: Vec<(BitBoard, Matrix)>, rows: Ghost<int>, cols: Ghost<int>) -> (sorted: Vec<
    (BitBoard, Matrix),
>)
    requires
        board_sized(list@, rows@, cols@),
    ensures
        board_sized(sorted@, rows@, cols@),
        placements_view(sorted@) == sort_by_mask(placements_view(list@)),
{
    let ghost all = placements_view(list@);
    let n: usize = list.len();
    let mut rest = list;
    let mut sorted: Vec<(BitBoard, Matrix)> = Vec::new();
    let mut k: usize = 0;
    while rest.len() > 0
        invariant
            board_sized(rest@, rows@, cols@),
            board_sized(sorted@, rows@, cols@),
            k <= all.len(),
            all.len() == n,
            placements_view(rest@) == all.skip(k as int),
            placements_view(sorted@) == sort_by_mask(all.take(k as int)),
        decreases rest.len(),
    {
        let ghost r0 = rest@;
        assert(placements_view(r0).len() == r0.len());
        assert(k < all.len());
        let x = rest.remove(0);
        assert(rest@ =~= r0.skip(1));
        assert(placements_view(rest@) =~= placements_view(r0).skip(1));
        assert(placements_view(rest@) =~= all.skip(k + 1));
        assert(all.take(k + 1).drop_last() == all.take(k as int));
        assert(r0[0] == x);
        assert(all[k as int] == placements_view(r0)[0]);
        assert(all.take(k + 1).last() == (x.0, x.1@));
        insert_placement(&mut sorted, x, rows, cols);
        k = k + 1;
    }
    assert(all.take(k as int) == all);
    sorted
}

/// Inserts index `i` after every index of `sorted` whose key is at least
/// `keys[i]`.
fn insert_index(sorted: &mut Vec<usize>, i: usize, keys: &Vec<u32>)
    requires
        i < keys@.len(),
        forall|k: int| 0 <= k < old(sorted)@.len() ==> #[trigger] old(sorted)@[k] < keys@.len(),
    ensures
        forall|k: int| 0 <= k < final(sorted)@.len() ==> #[trigger] final(sorted)@[k] < keys@.len(),
        final(sorted)@ == insert_by_size(old(sorted)@, i, keys@),
{
    let ghost target = insert_by_size(sorted@, i, keys@);
    let mut tail: Vec<usize> = Vec::new();
    assert(tail@.reverse() =~= Seq::<usize>::empty());
    assert(target =~= target + tail@.reverse());
    while sorted.len() > 0 && keys[sorted[sorted.len() - 1]] < keys[i]
        invariant
            i < keys@.len(),
            forall|k: int| 0 <= k < sorted@.len() ==> #[trigger] sorted@[k] < keys@.len(),
            forall|k: int| 0 <= k < tail@.len() ==> #[trigger] tail@[k] < keys@.len(),
            target == insert_by_size(sorted@, i, keys@) + tail@.reverse(),
        decreases sorted.len(),
    {
        let ghost s0 = sorted@;
        let ghost t0 = tail@;
        let e = sorted.pop().unwrap();
        assert(s0 == sorted@.push(e));
        tail.push(e);
        assert(tail@.reverse() =~= seq![e] + t0.reverse());
    }
    sorted.push(i);
    while tail.len() > 0
        invariant
            forall|k: int| 0 <= k < sorted@.len() ==> #[trigger] sorted@[k] < keys@.len(),
            forall|k: int| 0 <= k < tail@.len() ==> #[trigger] tail@[k] < keys@.len(),
            target == sorted@ + tail@.reverse(),
        decreases tail.len(),
    {
        let ghost t0 = tail@;
        let e = tail.pop().unwrap();
        assert(t0 == tail@.push(e));
        assert(t0.reverse() =~= seq![e] + tail@.reverse());
        sorted.push(e);
    }
    assert(tail@.reverse() =~= Seq::<usize>::empty());
    assert(target =~= sorted@);
}

/// The indices of `keys` by descending key, equal keys in index order.
fn order_indices(keys: &Vec<u32>) -> (order: Vec<usize>)
    ensures
        order@ == order_by_size(keys@, keys@.len() as int),
        forall|k: int| 0 <= k < order@.len() ==> #[trigger] order@[k] < keys@.len(),
{
    let mut order: Vec<usize> = Vec::new();
    for i in 0..keys.len()
        invariant
            order@ == order_by_size(keys@, i as int),
            forall|k: int| 0 <= k < order@.len() ==> #[trigger] order@[k] < keys@.len(),
    {
        insert_index(&mut order, i, keys);
    }
    order
}

proof fn lemma_insert_by_size_len(sorted: Seq<usize>, i: usize, keys: Seq<u32>)
    ensures
        insert_by_size(sorted, i, keys).len() == sorted.len() + 1,
    decreases sorted.len(),
{
    if sorted.len() > 0 {
        lemma_insert_by_size_len(sorted.drop_last(), i, keys);
    }
}

/// The placement order has one index per piece.
pub proof fn lemma_order_len(keys: Seq<u32>, n: int)
    requires
        n >= 0,
    ensures
        order_by_size(keys, n).len() == n,
    decreases n,
{
    if n > 0 {
        lemma_order_len(keys, n - 1);
        lemma_insert_by_size_len(order_by_size(keys, n - 1), (n - 1) as usize, keys);
    }
}

/// The orientations of `piece`, each with the piece's colors.
fn variants_of(piece: &Piece) -> (variants: Vec<Piece>)
    requires
        piece.matrix.wf(),
    ensures
        variants@.len() == orientations(piece.matrix@).len(),
        forall|k: int|
            0 <= k < variants@.len() ==> {
                &&& (#[trigger] variants@[k]).matrix.wf()
                &&& variants@[k].matrix@ == orientations(piece.matrix@)[k]
                &&& variants@[k].color == piece.color
                &&& variants@[k].tui_color == piece.tui_color
            },
{
    let mut matrices = rotation_variants(&piece.matrix);
    let ghost all = views(matrices@);
    let n: usize = matrices.len();
    let mut variants: Vec<Piece> = Vec::new();
    let mut k: usize = 0;
    while matrices.len() > 0
        invariant
            all == orientations(piece.matrix@),
            all.len() == n,
            all_wf(matrices@),
            variants@.len() + matrices@.len() == n,
            k == variants@.len(),
            views(matrices@) == all.skip(k as int),
            forall|j: int|
                0 <= j < k ==> {
                    &&& (#[trigger] variants@[j]).matrix.wf()
                    &&& variants@[j].matrix@ == all[j]
                    &&& variants@[j].color == piece.color
                    &&& variants@[j].tui_color == piece.tui_color
                },
        decreases matrices.len(),
    {
        let ghost m0 = matrices@;
        let matrix = matrices.remove(0);
        assert(matrices@ =~= m0.skip(1));
        assert(views(m0)[0] == m0[0]@);
        assert(views(matrices@) =~= views(m0).skip(1));
        assert(m0[0].wf());
        variants.push(Piece { matrix, color: piece.color, tui_color: piece.tui_color });
        k = k + 1;
    }
    variants
}

/// Every placement of every orientation of `piece`, by ascending mask.
fn placements_of(piece: &Piece, rows: usize, cols: usize) -> (list: Vec<(BitBoard, Matrix)>)
    requires
        piece.matrix.wf(),
        is_frame(piece.matrix@),
        rows * cols <= 64,
    ensures
        board_sized(list@, rows as int, cols as int),
        placements_view(list@) == piece_placements(piece.matrix@, piece.color, rows as int, cols as int),
{
    let ghost vs = orientations(piece.matrix@);
    proof {
        lemma_orientations_frame(piece.matrix@);
    }
    let variants = variants_of(piece);
    let mut list: Vec<(BitBoard, Matrix)> = Vec::new();
    for v in 0..variants.len()
        invariant
            rows * cols <= 64,
            vs == orientations(piece.matrix@),
            variants@.len() == vs.len(),
            forall|k: int| 0 <= k < vs.len() ==> is_frame(#[trigger] vs[k]),
            forall|k: int|
                0 <= k < variants@.len() ==> {
                    &&& (#[trigger] variants@[k]).matrix.wf()
                    &&& variants@[k].matrix@ == vs[k]
                    &&& variants@[k].color == piece.color
                },
            board_sized(list@, rows as int, cols as int),
            placements_view(list@) == variant_positions(vs.take(v as int), piece.color, rows as int, cols as int),
    {
        let variant = &variants[v];
        assert(is_frame(vs[v as int]));
        let mut ps = generate_positions(variant, rows, cols);
        proof {
            lemma_positions_board_sized(vs[v as int], piece.color, rows as int, cols as int);
            assert(vs.take(v + 1).drop_last() == vs.take(v as int));
            assert(vs.take(v + 1).last() == vs[v as int]);
        }
        let ghost l0 = list@;
        let ghost p0 = ps@;
        assert forall|k: int| 0 <= k < p0.len() implies {
            &&& (#[trigger] p0[k]).1.wf()
            &&& p0[k].1@.nrows() == rows
            &&& p0[k].1@.ncols == cols
        } by {
            assert(placements_view(p0)[k] == (p0[k].0, p0[k].1@));
        }
        list.append(&mut ps);
        assert(list@ == l0 + p0);
        assert(placements_view(list@) =~= placements_view(l0) + placements_view(p0));
        assert forall|k: int| 0 <= k < list@.len() implies {
            &&& (#[trigger] list@[k]).1.wf()
            &&& list@[k].1@.nrows() == rows
            &&& list@[k].1@.ncols == cols
        } by {
            if k < l0.len() {
                assert(list@[k] == l0[k]);
            } else {
                assert(list@[k] == p0[k - l0.len()]);
            }
        }
    }
    assert(vs.take(variants@.len() as int) == vs);
    sort_placements(list, Ghost(rows as int), Ghost(cols as int))
}

/// Models of a list of placement lists.
pub open spec fn lists_view(lists: Seq<Vec<(BitBoard, Matrix)>>) -> Seq<Seq<Placed>> {
    Seq::new(lists.len(), |k: int| placements_view(lists[k]@))
}

/// Every list of `lists` is board-sized.
pub open spec fn lists_board_sized(lists: Seq<Vec<(BitBoard, Matrix)>>, rows: int, cols: int) -> bool {
    forall|k: int| 0 <= k < lists.len() ==> board_sized(#[trigger] lists[k]@, rows, cols)
}

/// The placement list of every piece of `game`, in placement order.
fn placement_lists_for(game: &Game, rows: usize, cols: usize) -> (lists: Vec<Vec<(BitBoard, Matrix)>>)
    requires
        solvable(*game),
        rows == game.board_rows(),
        cols == game.columns,
    ensures
        lists_board_sized(lists@, rows as int, cols as int),
        lists_view(lists@) == placement_lists(*game, rows as int, cols as int),
{
    let n = game.pieces.len();
    proof {
        lemma_pieces_at_most_cells(game.pieces@);
    }
    let mut keys: Vec<u32> = Vec::new();
    for i in 0..n
        invariant
            solvable(*game),
            n == game.pieces@.len(),
            keys@ == piece_keys(*game).take(i as int),
    {
        proof {
            lemma_piece_within_total(game.pieces@, i as int);
        }
        let c = game.pieces[i].cells();
        keys.push(c);
        assert(keys@ == piece_keys(*game).take(i + 1));
    }
    assert(keys@ == piece_keys(*game));
    let order = order_indices(&keys);
    proof {
        lemma_order_len(keys@, n as int);
    }
    let ghost target = placement_lists(*game, rows as int, cols as int);
    let mut lists: Vec<Vec<(BitBoard, Matrix)>> = Vec::new();
    for k in 0..n
        invariant
            solvable(*game),
            n == game.pieces@.len(),
            n <= u32::MAX,
            rows == game.board_rows(),
            cols == game.columns,
            keys@ == piece_keys(*game),
            order@ == placement_order(*game),
            order@.len() == n,
            forall|j: int| 0 <= j < order@.len() ==> #[trigger] order@[j] < keys@.len(),
            target == placement_lists(*game, rows as int, cols as int),
            lists@.len() == k,
            lists_board_sized(lists@, rows as int, cols as int),
            forall|j: int| 0 <= j < k ==> placements_view((#[trigger] lists@[j])@) == target[j],
    {
        let i = order[k];
        let piece = &game.pieces[i];
        assert(piece.wf());
        let piece_id: u32 = (i as u32) + 1;
        let tagged = Piece {
            matrix: piece.matrix.duplicate(),
            color: piece.color | (piece_id << 24),
            tui_color: piece.tui_color,
        };
        assert(tagged.color == tagged_color(piece.color, i as int));
        proof {
            assert(rows * cols <= 64);
        }
        let list = placements_of(&tagged, rows, cols);
        lists.push(list);
    }
    assert(lists_view(lists@) == target);
    lists
}

/// The frontier after `depth` pieces is empty from the first empty one on.
proof fn lemma_frontier_stays_empty(start: Placed, lists: Seq<Seq<Placed>>, d: int, m: int)
    requires
        0 <= d <= m,
        frontier(start, lists, d).len() == 0,
    ensures
        frontier(start, lists, m).len() == 0,
    decreases m - d,
{
    if m > d {
        lemma_frontier_stays_empty(start, lists, d, m - 1);
        assert(frontier(start, lists, m - 1) == Seq::<Placed>::empty());
    }
}

/// Breadth-first search: the frontier after every piece of `lists`.
fn search_all(lists: &Vec<Vec<(BitBoard, Matrix)>>, rows: usize, cols: usize) -> (boards: Vec<
    (BitBoard, Matrix),
>)
    requires
        lists_board_sized(lists@, rows as int, cols as int),
    ensures
        board_sized(boards@, rows as int, cols as int),
        placements_view(boards@) == frontier(
            empty_board(rows as int, cols as int),
            lists_view(lists@),
            lists@.len() as int,
        ),
{
    let ghost lv = lists_view(lists@);
    let ghost start = empty_board(rows as int, cols as int);
    let mut boards: Vec<(BitBoard, Matrix)> = Vec::new();
    let empty = Matrix::zeros(rows, cols);
    assert(empty@ == start.1);
    boards.push((0, empty));
    assert(placements_view(boards@) == seq![start]);
    let mut d: usize = 0;
    while d < lists.len() && boards.len() > 0
        invariant
            lists_board_sized(lists@, rows as int, cols as int),
            lv == lists_view(lists@),
            d <= lists@.len(),
            board_sized(boards@, rows as int, cols as int),
            placements_view(boards@) == frontier(start, lv, d as int),
        decreases lists@.len() - d,
    {
        let ps = &lists[d];
        assert(board_sized(ps@, rows as int, cols as int));
        assert(placements_view(ps@) == lv[d as int]);
        let ghost bv = placements_view(boards@);
        let mut next: Vec<(BitBoard, Matrix)> = Vec::new();
        for b in 0..boards.len()
            invariant
                board_sized(boards@, rows as int, cols as int),
                board_sized(ps@, rows as int, cols as int),
                placements_view(ps@) == lv[d as int],
                bv == placements_view(boards@),
                board_sized(next@, rows as int, cols as int),
                placements_view(next@) == expand(bv.take(b as int), lv[d as int]),
        {
            let board = &boards[b];
            assert(bv[b as int] == (board.0, board.1@));
            let ghost before = placements_view(next@);
            for j in 0..ps.len()
                invariant
                    board_sized(boards@, rows as int, cols as int),
                    board_sized(ps@, rows as int, cols as int),
                    placements_view(ps@) == lv[d as int],
                    bv == placements_view(boards@),
                    b < boards@.len(),
                    board == boards@[b as int],
                    bv[b as int] == (board.0, board.1@),
                    board_sized(next@, rows as int, cols as int),
                    placements_view(next@) == before + children(bv[b as int], lv[d as int].take(j as int)),
            {
                let p = &ps[j];
                let ghost pv = (p.0, p.1@);
                assert(lv[d as int][j as int] == pv);
                assert(lv[d as int].take(j + 1).drop_last() == lv[d as int].take(j as int));
                assert(lv[d as int].take(j + 1).last() == pv);
                if board.0 & p.0 == 0 {
                    let merged = overlay_matrix(&board.1, &p.1);
                    let ghost n0 = next@;
                    next.push((board.0 | p.0, merged));
                    assert(placements_view(next@) == placements_view(n0).push(merge(bv[b as int], pv)));
                    assert forall|k: int| 0 <= k < next@.len() implies {
                        &&& (#[trigger] next@[k]).1.wf()
                        &&& next@[k].1@.nrows() == rows
                        &&& next@[k].1@.ncols == cols
                    } by {
                        if k < n0.len() {
                            assert(next@[k] == n0[k]);
                        }
                    }
                }
            }
            assert(lv[d as int].take(ps@.len() as int) == lv[d as int]);
            assert(bv.take(b + 1).drop_last() == bv.take(b as int));
            assert(bv.take(b + 1).last() == bv[b as int]);
        }
        assert(bv.take(boards@.len() as int) == bv);
        boards = next;
        d = d + 1;
    }
    proof {
        if d < lists@.len() {
            lemma_frontier_stays_empty(start, lv, d as int, lists@.len() as int);
            assert(placements_view(boards@) =~= frontier(start, lv, lists@.len() as int));
        }
    }
    boards
}

/// The grids of a sequence of boards.
pub open spec fn grids(boards: Seq<Placed>) -> Seq<Grid> {
    boards.map_values(|b: Placed| b.1)
}

proof fn lemma_grids_concat(a: Seq<Placed>, b: Seq<Placed>)
    ensures
        grids(a + b) == grids(a) + grids(b),
{
    assert(grids(a + b) =~= grids(a) + grids(b));
}

/// Depth-first search from `board` at `depth`, counting complete boards in
/// `count` and collecting those whose running number lies in
/// `[start, end)`; it stops once the count reaches `end`, and then returns
/// `true`.
fn dfs_page(
    precomputed: &Vec<Vec<(BitBoard, Matrix)>>,
    start: usize,
    end: usize,
    depth: usize,
    boards_bits: BitBoard,
    boards_matrix: &Matrix,
    results: &mut Vec<Matrix>,
    count: &mut usize,
    rows: Ghost<int>,
    cols: Ghost<int>,
) -> (stop: bool)
    requires
        start <= end,
        *old(count) <= end,
        depth <= precomputed@.len(),
        lists_board_sized(precomputed@, rows@, cols@),
        boards_matrix.wf(),
        boards_matrix@.nrows() == rows@,
        boards_matrix@.ncols == cols@,
        all_wf(old(results)@),
    ensures
        ({
            let c = completions(seq![(boards_bits, boards_matrix@)], lists_view(precomputed@), depth as int);
            &&& *final(count) == if *old(count) + c.len() < end {
                *old(count) + c.len()
            } else {
                end as int
            }
            &&& views(final(results)@) == views(old(results)@) + grids(
                window(c, *old(count) as int, start as int, end as int),
            )
        }),
        all_wf(final(results)@),
        stop == (*final(count) >= end),
    decreases precomputed@.len() - depth,
{
    let ghost lv = lists_view(precomputed@);
    let ghost b: Placed = (boards_bits, boards_matrix@);
    let ghost c = completions(seq![b], lv, depth as int);
    let ghost c0 = *count as int;
    let ghost r0 = views(results@);
    if *count >= end {
        assert(window(c, c0, start as int, end as int) =~= Seq::<Placed>::empty());
        assert(views(results@) =~= r0 + grids(Seq::<Placed>::empty()));
        return true;
    }
    if depth == precomputed.len() {
        assert(c == seq![b]);
        if *count >= start {
            let ghost old_results = results@;
            results.push(boards_matrix.duplicate());
            assert(views(results@) =~= views(old_results).push(b.1));
            assert(window(c, c0, start as int, end as int) =~= seq![b]);
            assert(grids(seq![b]) =~= seq![b.1]);
        } else {
            assert(window(c, c0, start as int, end as int) =~= Seq::<Placed>::empty());
            assert(views(results@) =~= r0 + grids(Seq::<Placed>::empty()));
        }
        *count = *count + 1;
        return *count >= end;
    }
    let ps = &precomputed[depth];
    let ghost l = lv[depth as int];
    assert(placements_view(ps@) == l);
    assert(board_sized(ps@, rows@, cols@));
    let n = precomputed.len();
    assert(seq![b].drop_last() =~= Seq::<Placed>::empty());
    assert(seq![b].last() == b);
    assert(lv.len() == precomputed@.len());
    assert(completions(Seq::<Placed>::empty(), lv, depth as int) == Seq::<Placed>::empty());
    assert(Seq::<Placed>::empty() + completions(children(b, l), lv, depth + 1) =~= completions(
        children(b, l),
        lv,
        depth + 1,
    ));
    assert(c == completions(children(b, l), lv, depth + 1));
    for j in 0..ps.len()
        invariant
            start <= end,
            depth < precomputed@.len(),
            n == precomputed@.len(),
            lv == lists_view(precomputed@),
            lists_board_sized(precomputed@, rows@, cols@),
            ps == precomputed@[depth as int],
            placements_view(ps@) == l,
            l == lv[depth as int],
            board_sized(ps@, rows@, cols@),
            boards_matrix.wf(),
            boards_matrix@.nrows() == rows@,
            boards_matrix@.ncols == cols@,
            b == (boards_bits, boards_matrix@),
            c == completions(children(b, l), lv, depth + 1),
            c == completions(seq![b], lv, depth as int),
            c0 == *old(count),
            r0 == views(old(results)@),
            all_wf(results@),
            ({
                let a = completions(children(b, l.take(j as int)), lv, depth + 1);
                &&& *count == c0 + a.len()
                &&& *count < end
                &&& views(results@) == r0 + grids(window(a, c0, start as int, end as int))
            }),
    {
        let ghost a = completions(children(b, l.take(j as int)), lv, depth + 1);
        let p = &ps[j];
        let ghost pv: Placed = (p.0, p.1@);
        assert(l[j as int] == pv);
        assert(l.take(j + 1).drop_last() == l.take(j as int));
        assert(l.take(j + 1).last() == pv);
        if boards_bits & p.0 == 0 {
            let new_bits = boards_bits | p.0;
            let new_matrix = overlay_matrix(boards_matrix, &p.1);
            let ghost m = merge(b, pv);
            assert(m == (new_bits, new_matrix@));
            let ghost x = completions(seq![m], lv, depth + 1);
            let ghost count_before = *count as int;
            let ghost results_before = views(results@);
            let stopped = dfs_page(
                precomputed,
                start,
                end,
                depth + 1,
                new_bits,
                &new_matrix,
                results,
                count,
                rows,
                cols,
            );
            proof {
                assert(children(b, l.take(j + 1)) == children(b, l.take(j as int)).push(m));
                assert(children(b, l.take(j as int)).push(m) == children(b, l.take(j as int)) + seq![m]);
                lemma_completions_concat(children(b, l.take(j as int)), seq![m], lv, depth + 1);
                lemma_window_concat(a, x, c0, start as int, end as int);
                lemma_grids_concat(
                    window(a, c0, start as int, end as int),
                    window(x, c0 + a.len(), start as int, end as int),
                );
            }
            if stopped {
                proof {
                    let rest = children(b, l.skip(j + 1));
                    assert(l == l.take(j + 1) + l.skip(j + 1));
                    lemma_children_concat(b, l.take(j + 1), l.skip(j + 1));
                    lemma_completions_concat(children(b, l.take(j + 1)), rest, lv, depth + 1);
                    let r = completions(rest, lv, depth + 1);
                    assert(completions(children(b, l.take(j + 1)), lv, depth + 1) == a + x);
                    assert(children(b, l) == children(b, l.take(j + 1)) + rest);
                    assert(c == (a + x) + r);
                    assert(*count == end);
                    lemma_window_concat(a + x, r, c0, start as int, end as int);
                    assert(window(r, c0 + (a + x).len(), start as int, end as int) =~= Seq::<Placed>::empty());
                    assert(window(a + x, c0, start as int, end as int) + Seq::<Placed>::empty()
                        == window(a + x, c0, start as int, end as int));
                    assert(views(results@) == results_before + grids(
                        window(x, c0 + a.len(), start as int, end as int),
                    ));
                    assert(results_before == r0 + grids(window(a, c0, start as int, end as int)));
                    assert(views(results@) == r0 + grids(window(a + x, c0, start as int, end as int)));
                    assert(window(c, c0, start as int, end as int) == window(a + x, c0, start as int, end as int));
                }
                return true;
            }
        } else {
            assert(children(b, l.take(j + 1)) == children(b, l.take(j as int)));
        }
    }
    assert(l.take(ps@.len() as int) == l);
    false
}

/// `patch` laid over `board`.
fn overlay_matrix(board: &Matrix, patch: &Matrix) -> (m: Matrix)
    requires
        board.wf(),
        patch.wf(),
        patch@.nrows() == board@.nrows(),
        patch@.ncols == board@.ncols,
    ensures
        m.wf(),
        m@ == overlay(board@, patch@),
{
    let ghost target = overlay(board@, patch@);
    let mut rows: Vec<Vec<u32>> = Vec::new();
    for r in 0..board.rows.len()
        invariant
            board.wf(),
            patch.wf(),
            patch@.nrows() == board@.nrows(),
            patch@.ncols == board@.ncols,
            target == overlay(board@, patch@),
            rows@.len() == r,
            forall|k: int| 0 <= k < r ==> (#[trigger] rows@[k])@ == target.cells[k],
    {
        assert(board@.cells[r as int].len() == board.ncols);
        assert(patch@.cells[r as int].len() == board.ncols);
        let mut row: Vec<u32> = Vec::new();
        for c in 0..board.ncols
            invariant
                board.wf(),
                patch.wf(),
                patch@.nrows() == board@.nrows(),
                patch@.ncols == board@.ncols,
                target == overlay(board@, patch@),
                r < board@.nrows(),
                board@.cells[r as int].len() == board.ncols,
                patch@.cells[r as int].len() == board.ncols,
                row@ == target.cells[r as int].take(c as int),
        {
            let p = patch.rows[r][c];
            row.push(if p != 0 { p } else { board.rows[r][c] });
            assert(row@ == target.cells[r as int].take(c + 1));
        }
        assert(row@ == target.cells[r as int]);
        rows.push(row);
    }
    let m = Matrix { ncols: board.ncols, rows };
    assert(m@.cells == target.cells);
    m
}

/// The running number of the first solution of page `page_index`, at most
/// `usize::MAX`.
pub open spec fn page_start(page_index: int, page_size: int) -> int {
    if page_index * page_size > usize::MAX {
        usize::MAX as int
    } else {
        page_index * page_size
    }
}

/// One past the running number of the last solution of page `page_index`,
/// at most `usize::MAX`.
pub open spec fn page_end(page_index: int, page_size: int) -> int {
    if page_start(page_index, page_size) + page_size > usize::MAX {
        usize::MAX as int
    } else {
        page_start(page_index, page_size) + page_size
    }
}

/// The solutions of page `page_index` of `page_size` solutions each.
pub open spec fn solution_page(game: Game, page_index: int, page_size: int) -> Seq<Grid> {
    if page_size == 0 {
        Seq::empty()
    } else {
        window(solutions(game), 0, page_start(page_index, page_size), page_end(page_index, page_size))
    }
}

/// Pages `0..k` of `page_size` solutions each, one after the other.
pub open spec fn pages_up_to(game: Game, page_size: int, k: int) -> Seq<Grid>
    decreases k,
{
    if k <= 0 {
        Seq::empty()
    } else {
        pages_up_to(game, page_size, k - 1) + solution_page(game, k - 1, page_size)
    }
}

/// Paging reproduces the solution list: pages `0..k` of `page_size`
/// solutions, one after the other, are the first `k * page_size` solutions in
/// order, and all of them, each once, as soon as `k * page_size` reaches their
/// number.
pub proof fn lemma_pages_concatenate(game: Game, page_size: int, k: int)
    requires
        page_size > 0,
        k >= 0,
        k * page_size <= usize::MAX,
    ensures
        pages_up_to(game, page_size, k) == solutions(game).take(
            if k * page_size < solutions(game).len() {
                k * page_size
            } else {
                solutions(game).len() as int
            },
        ),
        k * page_size >= solutions(game).len() ==> pages_up_to(game, page_size, k) == solutions(game),
    decreases k,
{
    let sol = solutions(game);
    if k > 0 {
        assert((k - 1) * page_size == k * page_size - page_size) by (nonlinear_arith);
        lemma_pages_concatenate(game, page_size, k - 1);
        let lo = if (k - 1) * page_size < sol.len() { (k - 1) * page_size } else { sol.len() as int };
        let hi = if k * page_size < sol.len() { k * page_size } else { sol.len() as int };
        assert(page_start(k - 1, page_size) == (k - 1) * page_size);
        assert(page_end(k - 1, page_size) == k * page_size);
        assert(solution_page(game, k - 1, page_size) == sol.subrange(lo, hi));
        assert(sol.take(lo) + sol.subrange(lo, hi) =~= sol.take(hi));
        assert(pages_up_to(game, page_size, k) == pages_up_to(game, page_size, k - 1) + solution_page(
            game,
            k - 1,
            page_size,
        ));
        assert(pages_up_to(game, page_size, k - 1) == sol.take(lo));
        assert(pages_up_to(game, page_size, k) == sol.take(hi));
    } else {
        assert(k == 0);
        assert(k * page_size == 0) by (nonlinear_arith)
            requires
                k == 0,
        ;
        assert(sol.take(0) =~= Seq::<Grid>::empty());
        assert(pages_up_to(game, page_size, k) == Seq::<Grid>::empty());
    }
    if k * page_size >= sol.len() {
        assert(sol.take(sol.len() as int) == sol);
    }
}

/// Solvers of the puzzle: all solutions, their number, a page of them, and
/// the orientations of a piece.
pub trait GameResolverTrait {
    /// Finds all valid solutions for the given game, in the canonical order.
    fn resolve(&self, game: &Game) -> (found: Vec<Matrix>)
        requires
            solvable(*game),
        ensures
            all_wf(found@),
            views(found@) == solutions(*game),
            found@.len() == solutions(*game).len(),
            !game.valid() ==> found@.len() == 0,
    ;

    /// The number of solutions of the given game.
    fn resolve_count(&self, game: &Game) -> (n: u32)
        requires
            solvable(*game),
            solutions(*game).len() <= u32::MAX,
        ensures
            n == solutions(*game).len(),
    ;

    /// Generates all unique variants (rotations and reflections) of a piece.
    fn piece_variants(&self, piece: &Piece) -> (variants: Vec<Piece>)
        requires
            piece.matrix.wf(),
        ensures
            variants@.len() == orientations(piece.matrix@).len(),
            forall|k: int|
                0 <= k < variants@.len() ==> {
                    &&& (#[trigger] variants@[k]).matrix.wf()
                    &&& variants@[k].matrix@ == orientations(piece.matrix@)[k]
                    &&& variants@[k].color == piece.color
                    &&& variants@[k].tui_color == piece.tui_color
                },
    ;

    /// Returns page `page_index` of `page_size` solutions, found depth-first
    /// without building the solutions before the page.
    fn resolve_page(&self, game: &Game, page_index: usize, page_size: usize) -> (page: Vec<Matrix>)
        requires
            solvable(*game),
        ensures
            all_wf(page@),
            views(page@) == solution_page(*game, page_index as int, page_size as int),
            page@.len() <= page_size,
    ;
}

/// A solver for the puzzle: breadth-first expansion for all solutions,
/// bounded depth-first search for a page of them.
pub struct GameResolver;

impl GameResolverTrait for GameResolver {
    fn resolve(&self, game: &Game) -> (found: Vec<Matrix>) {
        let rows = game.rows() as usize;
        let cols = game.columns as usize;
        if !game.is_valid() {
            return Vec::new();
        }
        let lists = placement_lists_for(game, rows, cols);
        let boards = search_all(&lists, rows, cols);
        assert(lists_view(lists@).len() == lists@.len());
        assert(placements_view(boards@) == solution_boards(*game));
        let ghost all = grids(placements_view(boards@));
        let mut found: Vec<Matrix> = Vec::new();
        for k in 0..boards.len()
            invariant
                board_sized(boards@, rows as int, cols as int),
                all == grids(placements_view(boards@)),
                all_wf(found@),
                views(found@) == all.take(k as int),
        {
            assert(all[k as int] == boards@[k as int].1@);
            let ghost f0 = found@;
            found.push(boards[k].1.duplicate());
            assert(views(found@) =~= views(f0).push(all[k as int]));
            assert(views(found@) =~= all.take(k + 1));
        }
        assert(all.take(boards@.len() as int) == all);
        assert(views(found@).len() == found@.len());
        found
    }

    fn resolve_count(&self, game: &Game) -> (n: u32) {
        let found = self.resolve(game);
        assert(views(found@).len() == found@.len());
        found.len() as u32
    }

    fn piece_variants(&self, piece: &Piece) -> (variants: Vec<Piece>) {
        variants_of(piece)
    }

    fn resolve_page(&self, game: &Game, page_index: usize, page_size: usize) -> (page: Vec<Matrix>) {
        if page_size == 0 {
            return Vec::new();
        }
        let rows = game.rows() as usize;
        let cols = game.columns as usize;
        if !game.is_valid() {
            return Vec::new();
        }
        let lists = placement_lists_for(game, rows, cols);
        let start: usize = if page_index > usize::MAX / page_size {
            usize::MAX
        } else {
            assert(page_index * page_size <= usize::MAX) by (nonlinear_arith)
                requires
                    page_index <= usize::MAX / page_size,
                    page_size > 0,
            ;
            page_index * page_size
        };
        proof {
            if page_index > usize::MAX / page_size {
                assert(page_index * page_size > usize::MAX) by (nonlinear_arith)
                    requires
                        page_index > usize::MAX / page_size,
                        page_size > 0,
                ;
            }
        }
        let end: usize = start.saturating_add(page_size);
        let mut results: Vec<Matrix> = Vec::new();
        let mut count: usize = 0;
        let empty = Matrix::zeros(rows, cols);
        dfs_page(
            &lists,
            start,
            end,
            0,
            0,
            &empty,
            &mut results,
            &mut count,
            Ghost(rows as int),
            Ghost(cols as int),
        );
        proof {
            let lv = lists_view(lists@);
            let st = empty_board(rows as int, cols as int);
            let n = lv.len() as int;
            lemma_frontier_is_completions(st, lv, n);
            let c = completions(seq![st], lv, 0);
            assert(c == frontier(st, lv, n));
            assert(grids(window(c, 0, start as int, end as int)) =~= window(grids(c), 0, start as int, end as int));
            assert(views(results@).len() == results@.len());
        }
        results
    }
}

} // verus!
