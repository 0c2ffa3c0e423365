//! The pieces of the boxed game and the game that uses all of them.
use vstd::prelude::*;

use crate::matrix::{Grid, Matrix};
use crate::matrix_tools::is_frame;
use crate::models::{grid_sum, seq_sum, Game, Piece};

verus! {

/// Fill colors of the pieces, 24-bit RGB.
pub const COLOR_RED: u32 = 0x00DA_0022;
pub const COLOR_TAN: u32 = 0x00F1_955A;
pub const COLOR_BROWN: u32 = 0x0057_1C11;
pub const COLOR_BROWN_DARK: u32 = 0x0057_0C01;
pub const COLOR_ORANGE: u32 = 0x00EB_700F;
pub const COLOR_ORANGE_DARK: u32 = 0x00E0_6000;
pub const COLOR_PINK: u32 = 0x00E1_6BA4;
pub const COLOR_PINK_DARK: u32 = 0x00E0_0BA4;
pub const COLOR_GREEN: u32 = 0x008D_C69E;
pub const COLOR_BLUE: u32 = 0x0036_B0EA;
pub const COLOR_BLUE_DARK: u32 = 0x0006_3679;
pub const COLOR_BLUE_LIGHT: u32 = 0x0026_A0EA;
pub const COLOR_YELLOW: u32 = 0x00FE_DA3C;
pub const COLOR_YELLOW_DARK: u32 = 0x00EE_CA2C;
pub const COLOR_VIOLET: u32 = 0x00A3_6FAD;
pub const COLOR_VIOLET_GREEN: u32 = 0x0003_6F0D;

/// The different piece types of the game, named by color, shape and
/// number of cells.
#[derive(Debug, Clone, Copy, PartialEq, Eq)]
pub enum PieceName {
    RedSquare1,
    TanBar2,
    BrownL3,
    OrangeBar3,
    PinkBar4,
    GreenL4,
    BlueT4,
    YellowZigZag4,
    VioletSquare4,
    OrangeL5,
    BrownT5,
    VioletZigZag5,
    BlueL5,
    PinkNotSquare5,
    YellowU5,
    BlueS5,
}

/// The rows of the shape of each piece.
pub open spec fn shape_rows(name: PieceName) -> Seq<Seq<u32>> {
    match name {
        PieceName::RedSquare1 => seq![seq![1u32]],
        PieceName::TanBar2 => seq![seq![1u32], seq![1u32]],
        PieceName::BrownL3 => seq![seq![1u32, 0u32], seq![1u32, 1u32]],
        PieceName::OrangeBar3 => seq![seq![1u32], seq![1u32], seq![1u32]],
        PieceName::PinkBar4 => seq![seq![1u32], seq![1u32], seq![1u32], seq![1u32]],
        PieceName::GreenL4 => seq![seq![1u32, 0u32], seq![1u32, 0u32], seq![1u32, 1u32]],
        PieceName::BlueT4 => seq![seq![1u32, 0u32], seq![1u32, 1u32], seq![1u32, 0u32]],
        PieceName::YellowZigZag4 => seq![seq![0u32, 1u32], seq![1u32, 1u32], seq![1u32, 0u32]],
        PieceName::VioletSquare4 => seq![seq![1u32, 1u32], seq![1u32, 1u32]],
        PieceName::OrangeL5 => seq![seq![1u32, 0u32], seq![1u32, 0u32], seq![1u32, 0u32], seq![1u32, 1u32]],
        PieceName::BrownT5 => seq![seq![0u32, 1u32], seq![1u32, 1u32], seq![0u32, 1u32], seq![0u32, 1u32]],
        PieceName::VioletZigZag5 => seq![seq![0u32, 1u32], seq![0u32, 1u32], seq![1u32, 1u32], seq![1u32, 0u32]],
        PieceName::BlueL5 => seq![seq![1u32, 0u32, 0u32], seq![1u32, 0u32, 0u32], seq![1u32, 1u32, 1u32]],
        PieceName::PinkNotSquare5 => seq![seq![0u32, 1u32], seq![1u32, 1u32], seq![1u32, 1u32]],
        PieceName::YellowU5 => seq![seq![1u32, 1u32], seq![1u32, 0u32], seq![1u32, 1u32]],
        PieceName::BlueS5 => seq![seq![0u32, 1u32, 1u32], seq![0u32, 1u32, 0u32], seq![1u32, 1u32, 0u32]],
    }
}

/// The fill color of each piece.
pub open spec fn fill_color(name: PieceName) -> u32 {
    match name {
        PieceName::RedSquare1 => COLOR_RED,
        PieceName::TanBar2 => COLOR_TAN,
        PieceName::BrownL3 => COLOR_BROWN,
        PieceName::OrangeBar3 => COLOR_ORANGE,
        PieceName::PinkBar4 => COLOR_PINK,
        PieceName::GreenL4 => COLOR_GREEN,
        PieceName::BlueT4 => COLOR_BLUE,
        PieceName::YellowZigZag4 => COLOR_YELLOW,
        PieceName::VioletSquare4 => COLOR_VIOLET,
        PieceName::OrangeL5 => COLOR_ORANGE,
        PieceName::BrownT5 => COLOR_BROWN,
        PieceName::VioletZigZag5 => COLOR_VIOLET,
        PieceName::BlueL5 => COLOR_BLUE_DARK,
        PieceName::PinkNotSquare5 => COLOR_PINK,
        PieceName::YellowU5 => COLOR_YELLOW,
        PieceName::BlueS5 => COLOR_BLUE,
    }
}

/// The color of each piece on a terminal.
pub open spec fn display_color(name: PieceName) -> u32 {
    match name {
        PieceName::RedSquare1 => COLOR_RED,
        PieceName::TanBar2 => COLOR_TAN,
        PieceName::BrownL3 => COLOR_BROWN,
        PieceName::OrangeBar3 => COLOR_ORANGE,
        PieceName::PinkBar4 => COLOR_PINK,
        PieceName::GreenL4 => COLOR_GREEN,
        PieceName::BlueT4 => COLOR_BLUE,
        PieceName::YellowZigZag4 => COLOR_YELLOW,
        PieceName::VioletSquare4 => COLOR_VIOLET,
        PieceName::OrangeL5 => COLOR_ORANGE_DARK,
        PieceName::BrownT5 => COLOR_BROWN_DARK,
        PieceName::VioletZigZag5 => COLOR_VIOLET_GREEN,
        PieceName::BlueL5 => COLOR_BLUE_DARK,
        PieceName::PinkNotSquare5 => COLOR_PINK_DARK,
        PieceName::YellowU5 => COLOR_YELLOW_DARK,
        PieceName::BlueS5 => COLOR_BLUE_LIGHT,
    }
}

/// The shape of each piece as a grid.
pub open spec fn shape_grid(name: PieceName) -> Grid {
    Grid { ncols: shape_rows(name)[0].len(), cells: shape_rows(name) }
}

/// Every catalog shape is a 0 / 1 grid with at least one cell.
proof fn lemma_catalog_shapes(name: PieceName)
    ensures
        is_frame(shape_grid(name)),
        grid_sum(shape_grid(name).cells) >= 1,
{
    reveal_with_fuel(grid_sum, 5);
    reveal_with_fuel(seq_sum, 4);
    match name {
        PieceName::RedSquare1 => {},
        PieceName::TanBar2 => {},
        PieceName::BrownL3 => {},
        PieceName::OrangeBar3 => {},
        PieceName::PinkBar4 => {},
        PieceName::GreenL4 => {},
        PieceName::BlueT4 => {},
        PieceName::YellowZigZag4 => {},
        PieceName::VioletSquare4 => {},
        PieceName::OrangeL5 => {},
        PieceName::BrownT5 => {},
        PieceName::VioletZigZag5 => {},
        PieceName::BlueL5 => {},
        PieceName::PinkNotSquare5 => {},
        PieceName::YellowU5 => {},
        PieceName::BlueS5 => {},
    }
}

fn shape(ncols: usize, rows: Vec<Vec<u32>>) -> (m: Matrix)
    requires
        forall|r: int| 0 <= r < rows@.len() ==> (#[trigger] rows@[r])@.len() == ncols,
    ensures
        m.wf(),
        m@.ncols == ncols,
        m@.cells == rows@.map_values(|row: Vec<u32>| row@),
{
    Matrix::from_rows(ncols, rows)
}

impl PieceName {
    /// Creates the `Piece` of this name.
    pub fn piece(&self) -> (p: Piece)
        ensures
            p.wf(),
            p.matrix@ == shape_grid(*self),
            p.color == fill_color(*self),
            p.tui_color == display_color(*self),
    {
        let p = match *self {
            PieceName::RedSquare1 => Piece {
                matrix: shape(1, vec![vec![1]]),
                color: COLOR_RED,
                tui_color: COLOR_RED,
            },
            PieceName::TanBar2 => Piece {
                matrix: shape(1, vec![vec![1], vec![1]]),
                color: COLOR_TAN,
                tui_color: COLOR_TAN,
            },
            PieceName::BrownL3 => Piece {
                matrix: shape(2, vec![vec![1, 0], vec![1, 1]]),
                color: COLOR_BROWN,
                tui_color: COLOR_BROWN,
            },
            PieceName::OrangeBar3 => Piece {
                matrix: shape(1, vec![vec![1], vec![1], vec![1]]),
                color: COLOR_ORANGE,
                tui_color: COLOR_ORANGE,
            },
            PieceName::PinkBar4 => Piece {
                matrix: shape(1, vec![vec![1], vec![1], vec![1], vec![1]]),
                color: COLOR_PINK,
                tui_color: COLOR_PINK,
            },
            PieceName::GreenL4 => Piece {
                matrix: shape(2, vec![vec![1, 0], vec![1, 0], vec![1, 1]]),
                color: COLOR_GREEN,
                tui_color: COLOR_GREEN,
            },
            PieceName::BlueT4 => Piece {
                matrix: shape(2, vec![vec![1, 0], vec![1, 1], vec![1, 0]]),
                color: COLOR_BLUE,
                tui_color: COLOR_BLUE,
            },
            PieceName::YellowZigZag4 => Piece {
                matrix: shape(2, vec![vec![0, 1], vec![1, 1], vec![1, 0]]),
                color: COLOR_YELLOW,
                tui_color: COLOR_YELLOW,
            },
            PieceName::VioletSquare4 => Piece {
                matrix: shape(2, vec![vec![1, 1], vec![1, 1]]),
                color: COLOR_VIOLET,
                tui_color: COLOR_VIOLET,
            },
            PieceName::OrangeL5 => Piece {
                matrix: shape(2, vec![vec![1, 0], vec![1, 0], vec![1, 0], vec![1, 1]]),
                color: COLOR_ORANGE,
                tui_color: COLOR_ORANGE_DARK,
            },
            PieceName::BrownT5 => Piece {
                matrix: shape(2, vec![vec![0, 1], vec![1, 1], vec![0, 1], vec![0, 1]]),
                color: COLOR_BROWN,
                tui_color: COLOR_BROWN_DARK,
            },
            PieceName::VioletZigZag5 => Piece {
                matrix: shape(2, vec![vec![0, 1], vec![0, 1], vec![1, 1], vec![1, 0]]),
                color: COLOR_VIOLET,
                tui_color: COLOR_VIOLET_GREEN,
            },
            PieceName::BlueL5 => Piece {
                matrix: shape(3, vec![vec![1, 0, 0], vec![1, 0, 0], vec![1, 1, 1]]),
                color: COLOR_BLUE_DARK,
                tui_color: COLOR_BLUE_DARK,
            },
            PieceName::PinkNotSquare5 => Piece {
                matrix: shape(2, vec![vec![0, 1], vec![1, 1], vec![1, 1]]),
                color: COLOR_PINK,
                tui_color: COLOR_PINK_DARK,
            },
            PieceName::YellowU5 => Piece {
                matrix: shape(2, vec![vec![1, 1], vec![1, 0], vec![1, 1]]),
                color: COLOR_YELLOW,
                tui_color: COLOR_YELLOW_DARK,
            },
            PieceName::BlueS5 => Piece {
                matrix: shape(3, vec![vec![0, 1, 1], vec![0, 1, 0], vec![1, 1, 0]]),
                color: COLOR_BLUE,
                tui_color: COLOR_BLUE_LIGHT,
            },
        };
        assert(p.matrix@.cells =~~= shape_rows(*self));
        proof {
            lemma_catalog_shapes(*self);
        }
        p
    }
}

/// The pieces of the full game, in order.
pub open spec fn full_set() -> Seq<PieceName> {
    seq![
        PieceName::RedSquare1,
        PieceName::RedSquare1,
        PieceName::TanBar2,
        PieceName::TanBar2,
        PieceName::BrownL3,
        PieceName::OrangeBar3,
        PieceName::PinkBar4,
        PieceName::GreenL4,
        PieceName::BlueT4,
        PieceName::YellowZigZag4,
        PieceName::VioletSquare4,
        PieceName::OrangeL5,
        PieceName::BrownT5,
        PieceName::VioletZigZag5,
        PieceName::BlueL5,
        PieceName::PinkNotSquare5,
        PieceName::YellowU5,
        PieceName::BlueS5,
    ]
}

impl Game {
    /// The game with all the pieces of the box on a board five columns wide.
    pub fn game_with_all_pieces() -> (game: Self)
        ensures
            game.columns == 5,
            game.pieces@.len() == full_set().len(),
            forall|k: int|
                0 <= k < full_set().len() ==> {
                    &&& (#[trigger] game.pieces@[k]).wf()
                    &&& game.pieces@[k].matrix@ == shape_grid(full_set()[k])
                    &&& game.pieces@[k].color == fill_color(full_set()[k])
                    &&& game.pieces@[k].tui_color == display_color(full_set()[k])
                },
    {
        let mut pieces: Vec<Piece> = Vec::new();
        pieces.push(PieceName::RedSquare1.piece());
        pieces.push(PieceName::RedSquare1.piece());
        pieces.push(PieceName::TanBar2.piece());
        pieces.push(PieceName::TanBar2.piece());
        pieces.push(PieceName::BrownL3.piece());
        pieces.push(PieceName::OrangeBar3.piece());
        pieces.push(PieceName::PinkBar4.piece());
        pieces.push(PieceName::GreenL4.piece());
        pieces.push(PieceName::BlueT4.piece());
        pieces.push(PieceName::YellowZigZag4.piece());
        pieces.push(PieceName::VioletSquare4.piece());
        pieces.push(PieceName::OrangeL5.piece());
        pieces.push(PieceName::BrownT5.piece());
        pieces.push(PieceName::VioletZigZag5.piece());
        pieces.push(PieceName::BlueL5.piece());
        pieces.push(PieceName::PinkNotSquare5.piece());
        pieces.push(PieceName::YellowU5.piece());
        pieces.push(PieceName::BlueS5.piece());
        let game = Game { columns: 5, pieces };
        assert forall|k: int|
            0 <= k < full_set().len() implies {
                &&& (#[trigger] game.pieces@[k]).wf()
                &&& game.pieces@[k].matrix@ == shape_grid(full_set()[k])
                &&& game.pieces@[k].color == fill_color(full_set()[k])
                &&& game.pieces@[k].tui_color == display_color(full_set()[k])
            } by {}
        game
    }
}

} // verus!
