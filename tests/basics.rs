use gtp_lib::bitboard::{bitboard_to_matrix, generate_positions, matrix_to_bitboard};
use gtp_lib::matrix_tools::{max_matrix, rotate_matrix, rotation_variants};
use gtp_lib::{Game, GameResolver, GameResolverTrait, Matrix, Piece};

fn create_matrix(rows: usize, cols: usize, values: &[u32]) -> Matrix {
    Matrix::from_row_slice(rows, cols, values)
}

fn create_piece(rows: usize, cols: usize, values: &[u32]) -> Piece {
    Piece {
        matrix: Matrix::from_row_slice(rows, cols, values),
        color: 0,
        tui_color: 0,
    }
}

fn create_colored_piece(rows: usize, cols: usize, values: &[u32]) -> Piece {
    Piece {
        matrix: Matrix::from_row_slice(rows, cols, values),
        color: 1,
        tui_color: 1,
    }
}

#[test]
fn test_matrix_to_bitboard() {
    let matrix = create_matrix(1, 2, &[1, 1]);
    let bits = matrix_to_bitboard(&matrix, 3, 3, 1, 1);
    let expected = (1u64 << 4) | (1u64 << 5);
    assert_eq!(bits, expected);
}

#[test]
fn test_bitboard_to_matrix() {
    let bits = (1u64 << 4) | (1u64 << 5);
    let matrix = bitboard_to_matrix(bits, 3, 3);
    assert_eq!(matrix.get(1, 1), 1);
    assert_eq!(matrix.get(1, 2), 1);
    assert_eq!(matrix.get(0, 0), 0);
    assert_eq!(matrix.nrows(), 3);
    assert_eq!(matrix.ncols(), 3);
}

#[test]
fn test_generate_positions() {
    let piece = Piece {
        matrix: create_matrix(1, 1, &[1]),
        color: 0xFF_0000,
        tui_color: 0,
    };
    let positions = generate_positions(&piece, 2, 2);
    assert_eq!(positions.len(), 4);
    let (bits, mat) = &positions[0];
    assert_eq!(*bits, 1u64 << 0);
    assert_eq!(mat.get(0, 0), 0xFF_0000);
}

#[test]
fn test_generate_positions_large_piece() {
    let piece = Piece {
        matrix: create_matrix(3, 3, &[1; 9]),
        color: 0,
        tui_color: 0,
    };
    let positions = generate_positions(&piece, 2, 2);
    assert!(positions.is_empty());
}

#[test]
fn test_resolve_simple_game() {
    let p1 = create_colored_piece(1, 2, &[1, 1]);
    let p2 = create_colored_piece(1, 2, &[1, 1]);
    let game = Game {
        columns: 2,
        pieces: vec![p1, p2],
    };
    let resolver = GameResolver;
    let solutions = resolver.resolve(&game);
    assert!(!solutions.is_empty());
    let solution = &solutions[0];
    assert_eq!(solution.nrows(), 2);
    assert_eq!(solution.ncols(), 2);
    assert!(solution.values().iter().all(|&x| x > 0));
}

#[test]
fn test_resolve_impossible_game() {
    let p1 = create_colored_piece(3, 1, &[1, 1, 1]);
    let p2 = create_colored_piece(1, 1, &[1]);
    let game = Game {
        columns: 2,
        pieces: vec![p1, p2],
    };
    let resolver = GameResolver;
    let solutions = resolver.resolve(&game);
    assert!(solutions.is_empty());
}

#[test]
fn test_rotate_matrix() {
    let matrix = create_matrix(2, 2, &[1, 2, 3, 4]);
    let rotated = rotate_matrix(&matrix);
    assert_eq!(rotated, create_matrix(2, 2, &[3, 1, 4, 2]));
}

#[test]
fn test_rotation_variants() {
    let matrix = create_matrix(2, 2, &[1, 0, 1, 1]);
    let _variants = rotation_variants(&matrix);
    let square = create_matrix(2, 2, &[1, 1, 1, 1]);
    let square_variants = rotation_variants(&square);
    assert_eq!(square_variants.len(), 1);
    let rect = create_matrix(1, 2, &[1, 1]);
    let rect_variants = rotation_variants(&rect);
    assert_eq!(rect_variants.len(), 2);
}

#[test]
fn test_max_matrix() {
    let matrix = create_matrix(2, 2, &[1, 5, 10, 0]);
    let max_val = 5;
    let clamped = max_matrix(&matrix, max_val);
    assert_eq!(clamped, create_matrix(2, 2, &[1, 5, 5, 0]));
}

#[test]
fn test_piece_cells() {
    let piece = create_piece(2, 2, &[1, 0, 1, 1]);
    assert_eq!(piece.cells(), 3);
}

#[test]
fn test_game_is_valid() {
    let p1 = create_piece(1, 2, &[1, 1]);
    let p2 = create_piece(1, 2, &[1, 1]);
    let game = Game {
        columns: 2,
        pieces: vec![p1, p2],
    };
    assert!(game.is_valid());
    assert_eq!(game.rows(), 2);
    assert_eq!(game.cells(), 4);
    assert_eq!(game.missing_cells(), 0);
}

#[test]
fn test_game_invalid() {
    let p1 = create_piece(1, 2, &[1, 1]);
    let game = Game {
        columns: 2,
        pieces: vec![p1],
    };
    assert!(!game.is_valid());
}

#[test]
fn test_game_missing_cells() {
    let p1 = create_piece(1, 2, &[1, 1]);
    let p2 = create_piece(1, 1, &[1]);
    let game = Game {
        columns: 2,
        pieces: vec![p1, p2],
    };
    assert_eq!(game.missing_cells(), 1);
}

#[test]
fn test_game_from_game() {
    let p1 = create_piece(1, 1, &[1]);
    let p2 = create_piece(1, 1, &[1]);
    let game = Game {
        columns: 2,
        pieces: vec![p1, p2],
    };
    let sub_game = Game::game_from_game(&game, vec![0]);
    assert_eq!(sub_game.pieces.len(), 1);
    assert_eq!(sub_game.pieces[0].cells(), 1);
}
