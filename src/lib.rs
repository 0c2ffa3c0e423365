//! Exact-cover polyomino tiling: orientation variants of piece shapes,
//! placement enumeration on a bit-mask board, and a breadth / depth-first
//! search over the placements of every piece.
use vstd::prelude::*;

pub mod bitboard;
pub mod game_data;
pub mod game_resolver;
pub mod matrix;
pub mod matrix_tools;
pub mod models;
pub mod search;
pub mod svg_renderer;
pub mod tiling;

pub use game_data::PieceName;
pub use game_resolver::{GameResolver, GameResolverTrait};
pub use matrix::Matrix;
pub use models::{Game, Piece};

verus! {

} // verus!
