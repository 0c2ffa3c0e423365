use gtp_lib::bitboard::{bitboard_to_matrix, generate_positions, matrix_to_bitboard};
use gtp_lib::matrix_tools::{rotate_matrix, rotation_variants};
use gtp_lib::svg_renderer::{cell_borders, from_rgb_u32};
use gtp_lib::{Game, GameResolver, GameResolverTrait, Matrix, Piece, PieceName};

fn piece(rows: usize, cols: usize, values: &[u32], color: u32) -> Piece {
    Piece {
        matrix: Matrix::from_row_slice(rows, cols, values),
        color,
        tui_color: color,
    }
}

fn contains_matrix(list: &[Matrix], m: &Matrix) -> bool {
    list.iter().any(|x| x == m)
}

fn same_set(a: &[Matrix], b: &[Matrix]) -> bool {
    a.len() == b.len() && a.iter().all(|m| contains_matrix(b, m))
}

fn three_bars() -> Game {
    Game {
        columns: 2,
        pieces: vec![
            piece(1, 2, &[1, 1], 0x10),
            piece(1, 2, &[1, 1], 0x20),
            piece(1, 2, &[1, 1], 0x30),
        ],
    }
}

#[test]
fn scenario_two_bars_on_two_columns() {
    let game = Game {
        columns: 2,
        pieces: vec![piece(1, 2, &[1, 1], 0xAA), piece(1, 2, &[1, 1], 0xAA)],
    };
    assert!(game.is_valid());
    assert_eq!(game.cells(), 4);
    assert_eq!(game.rows(), 2);
    let solutions = GameResolver.resolve(&game);
    // Two layouts, each once per way of assigning the two tagged pieces.
    assert_eq!(solutions.len(), 4);
    let mut layouts: Vec<Vec<bool>> = Vec::new();
    for s in &solutions {
        assert!(s.values().iter().all(|&x| x != 0));
        let v = s.values();
        let layout = vec![v[0] == v[1], v[0] == v[2]];
        if !layouts.contains(&layout) {
            layouts.push(layout);
        }
    }
    assert_eq!(layouts.len(), 2);
    assert!(layouts.contains(&vec![true, false]));
    assert!(layouts.contains(&vec![false, true]));
}

#[test]
fn scenario_tall_bar_does_not_fit() {
    let game = Game {
        columns: 2,
        pieces: vec![piece(3, 1, &[1, 1, 1], 1), piece(1, 1, &[1], 1)],
    };
    // Four cells fill a 2 x 2 board, so the game counts as valid; the bar is
    // just too tall for it.
    assert!(game.is_valid());
    assert_eq!(game.rows(), 2);
    assert!(GameResolver.resolve(&game).is_empty());
    assert_eq!(GameResolver.resolve_count(&game), 0);
}

#[test]
fn scenario_square_and_corner_variants() {
    let square = Matrix::from_row_slice(2, 2, &[1, 1, 1, 1]);
    assert_eq!(rotation_variants(&square).len(), 1);
    let corner = Matrix::from_row_slice(2, 2, &[1, 0, 1, 1]);
    let variants = rotation_variants(&corner);
    assert_eq!(variants.len(), 4);
    let expected = vec![
        Matrix::from_row_slice(2, 2, &[1, 0, 1, 1]),
        Matrix::from_row_slice(2, 2, &[1, 1, 1, 0]),
        Matrix::from_row_slice(2, 2, &[1, 1, 0, 1]),
        Matrix::from_row_slice(2, 2, &[0, 1, 1, 1]),
    ];
    assert!(same_set(&variants, &expected));
}

#[test]
fn variants_of_unit_square_and_bar() {
    assert_eq!(rotation_variants(&Matrix::from_row_slice(1, 1, &[1])).len(), 1);
    let bar = rotation_variants(&Matrix::from_row_slice(1, 2, &[1, 1]));
    assert_eq!(bar.len(), 2);
    assert!(contains_matrix(&bar, &Matrix::from_row_slice(2, 1, &[1, 1])));
}

#[test]
fn variants_of_a_variant_are_the_same_set() {
    let s = Matrix::from_row_slice(3, 3, &[0, 1, 1, 0, 1, 0, 1, 1, 0]);
    let variants = rotation_variants(&s);
    assert_eq!(variants.len(), 4);
    for v in &variants {
        assert!(same_set(&rotation_variants(v), &variants));
    }
    let l = Matrix::from_row_slice(4, 2, &[1, 0, 1, 0, 1, 0, 1, 1]);
    let lv = rotation_variants(&l);
    assert_eq!(lv.len(), 8);
    assert_eq!(rotation_variants(&l), lv);
    for v in &lv {
        assert!(same_set(&rotation_variants(v), &lv));
    }
}

#[test]
fn count_equals_number_of_solutions() {
    let game = three_bars();
    let solutions = GameResolver.resolve(&game);
    assert_eq!(solutions.len(), 18);
    assert_eq!(GameResolver.resolve_count(&game) as usize, solutions.len());
}

#[test]
fn pages_concatenate_to_all_solutions() {
    let game = three_bars();
    let all = GameResolver.resolve(&game);
    for size in 1..6usize {
        let mut joined: Vec<Matrix> = Vec::new();
        let mut k = 0usize;
        loop {
            let page = GameResolver.resolve_page(&game, k, size);
            assert!(page.len() <= size);
            if page.is_empty() {
                break;
            }
            joined.extend(page);
            k += 1;
        }
        assert_eq!(joined, all);
    }
    assert!(GameResolver.resolve_page(&game, 0, 0).is_empty());
    assert!(GameResolver.resolve_page(&game, usize::MAX, 2).is_empty());
}

#[test]
fn invalid_puzzles_have_no_solutions() {
    let single = Game { columns: 2, pieces: vec![piece(1, 2, &[1, 1], 1)] };
    assert!(!single.is_valid());
    assert!(GameResolver.resolve(&single).is_empty());
    let short = Game {
        columns: 2,
        pieces: vec![piece(1, 2, &[1, 1], 1), piece(1, 1, &[1], 1)],
    };
    assert!(!short.is_valid());
    assert!(GameResolver.resolve(&short).is_empty());
    assert!(GameResolver.resolve_page(&short, 0, 5).is_empty());
}

#[test]
fn solutions_fill_the_board_with_each_piece_once() {
    let game = Game {
        columns: 3,
        pieces: vec![
            piece(2, 2, &[1, 0, 1, 1], 0x11),
            piece(1, 2, &[1, 1], 0x22),
            piece(1, 1, &[1], 0x33),
        ],
    };
    assert!(game.is_valid());
    let solutions = GameResolver.resolve(&game);
    assert!(!solutions.is_empty());
    for s in &solutions {
        let v = s.values();
        assert_eq!(v.len(), 6);
        assert!(v.iter().all(|&x| x != 0));
        for (i, p) in game.pieces.iter().enumerate() {
            let tag = (i as u32 + 1) << 24 | p.color;
            let n = v.iter().filter(|&&x| x == tag).count();
            assert_eq!(n as u32, p.cells());
        }
    }
}

#[test]
fn largest_piece_is_placed_first() {
    let game = Game {
        columns: 3,
        pieces: vec![piece(1, 1, &[1], 0x33), piece(1, 2, &[1, 1], 0x22), piece(2, 2, &[1, 0, 1, 1], 0x11)],
    };
    let first = GameResolver.resolve_page(&game, 0, 1);
    assert_eq!(first.len(), 1);
    // The corner piece takes its lowest mask first (cells 0, 1 and 3), then
    // the bar its lowest fitting one (cells 2 and 5).
    let corner = 3u32 << 24 | 0x11;
    let bar = 2u32 << 24 | 0x22;
    let unit = 1u32 << 24 | 0x33;
    assert_eq!(first[0].values(), vec![corner, corner, bar, corner, unit, bar]);
    assert_eq!(first, vec![GameResolver.resolve(&game)[0].clone()]);
}

#[test]
fn piece_variants_keep_colors() {
    let p = piece(1, 2, &[1, 1], 0x123456);
    let variants = GameResolver.piece_variants(&p);
    assert_eq!(variants.len(), 2);
    for v in &variants {
        assert_eq!(v.color, 0x123456);
        assert_eq!(v.cells(), 2);
    }
}

#[test]
fn positions_are_row_major_with_colored_patches() {
    let p = piece(1, 2, &[1, 1], 7);
    let positions = generate_positions(&p, 2, 3);
    let masks: Vec<u64> = positions.iter().map(|(b, _)| *b).collect();
    assert_eq!(masks, vec![0b11, 0b110, 0b11000, 0b110000]);
    let (_, patch) = &positions[3];
    assert_eq!(patch.values(), vec![0, 0, 0, 0, 7, 7]);
}

#[test]
fn bitboard_round_trip() {
    let m = Matrix::from_row_slice(2, 2, &[1, 0, 0, 1]);
    let bits = matrix_to_bitboard(&m, 3, 3, 1, 0);
    assert_eq!(bits, (1 << 3) | (1 << 7));
    let back = bitboard_to_matrix(bits, 3, 3);
    assert_eq!(back.values(), vec![0, 0, 0, 1, 0, 0, 0, 1, 0]);
}

#[test]
fn rotation_turns_clockwise() {
    let m = Matrix::from_row_slice(2, 3, &[1, 2, 3, 4, 5, 6]);
    let r = rotate_matrix(&m);
    assert_eq!(r, Matrix::from_row_slice(3, 2, &[4, 1, 5, 2, 6, 3]));
    assert_eq!(m.transpose(), Matrix::from_row_slice(3, 2, &[1, 4, 2, 5, 3, 6]));
}

#[test]
fn rgb_components() {
    assert_eq!(from_rgb_u32(0x00DA_0022), (0xDA, 0x00, 0x22));
    assert_eq!(from_rgb_u32(0x0312_3456), (0x12, 0x34, 0x56));
}

#[test]
fn borders_follow_piece_outlines() {
    let m = Matrix::from_row_slice(2, 2, &[5, 5, 6, 5]);
    let b = cell_borders(&m, 0, 0);
    assert!(b.top && !b.right && b.bottom && b.left);
    let c = cell_borders(&m, 1, 1);
    assert!(!c.top && c.right && c.bottom && c.left);
}

#[test]
fn full_game_catalog() {
    let game = Game::game_with_all_pieces();
    assert_eq!(game.columns, 5);
    assert_eq!(game.pieces.len(), 18);
    assert_eq!(game.cells(), 67);
    assert!(!game.is_valid());
    assert_eq!(game.missing_cells(), 3);
    assert_eq!(PieceName::BlueS5.piece().cells(), 5);
    assert_eq!(PieceName::RedSquare1.piece().color, 0x00DA_0022);
    assert_eq!(game.piece_ids().len(), 18);
    assert!(game.piece(18).is_none());
    assert_eq!(game.piece(2).map(|p| p.cells()), Some(2));
}

#[test]
fn sample_game_has_solutions() {
    let game = Game {
        columns: 5,
        pieces: vec![
            PieceName::RedSquare1.piece(),
            PieceName::OrangeBar3.piece(),
            PieceName::BrownL3.piece(),
            PieceName::YellowZigZag4.piece(),
            PieceName::BlueT4.piece(),
        ],
    };
    assert!(game.is_valid());
    let n = GameResolver.resolve_count(&game);
    assert!(n > 0);
    assert_eq!(GameResolver.resolve_page(&game, 0, n as usize).len(), n as usize);
}

#[test]
fn oversized_board_is_rejected() {
    let unit = piece(1, 1, &[1], 1);
    let big = Game { columns: 1, pieces: vec![unit.clone(); 65] };
    assert!(!gtp_lib::game_resolver::is_solvable(&big));
    let fits = Game { columns: 1, pieces: vec![unit.clone(); 64] };
    assert!(gtp_lib::game_resolver::is_solvable(&fits));
    let wide = Game { columns: 8, pieces: vec![piece(1, 8, &[1; 8], 1); 9] };
    assert!(!gtp_lib::game_resolver::is_solvable(&wide));
}

#[test]
fn malformed_pieces_are_rejected() {
    let two = Game { columns: 2, pieces: vec![piece(1, 2, &[1, 2], 1), piece(1, 2, &[1, 1], 1)] };
    assert!(!gtp_lib::game_resolver::is_solvable(&two));
    let empty = Game { columns: 2, pieces: vec![piece(1, 2, &[0, 0], 1), piece(1, 2, &[1, 1], 1)] };
    assert!(!gtp_lib::game_resolver::is_solvable(&empty));
    let bright = Game { columns: 2, pieces: vec![piece(1, 2, &[1, 1], 0x0100_0000), piece(1, 2, &[1, 1], 1)] };
    assert!(!gtp_lib::game_resolver::is_solvable(&bright));
    let no_columns = Game { columns: 0, pieces: vec![piece(1, 2, &[1, 1], 1)] };
    assert!(!gtp_lib::game_resolver::is_solvable(&no_columns));
    assert!(gtp_lib::game_resolver::is_solvable(&three_bars()));
}

#[test]
fn checked_cells_counts_or_gives_up() {
    assert_eq!(piece(2, 2, &[1, 0, 1, 1], 1).checked_cells(), Some(3));
    let huge = piece(1, 2, &[u32::MAX, 1], 1);
    assert_eq!(huge.checked_cells(), None);
}
