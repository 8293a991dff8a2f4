use vstd::prelude::*;

/// Boards: cells, canonical relabelling of fungible pieces, and the text format.
pub mod board;
/// One turn of play: sliding a piece, with chained pushes, from the empty cells.
pub mod moves;
/// Goal test, estimate of the turns left, and the shortest-path search.
pub mod search;

pub use board::{board_from_text, normalize, parse_board, try_parse_board, Board};
pub use moves::{perform_moves, Dir};
pub use search::{cost, expand, matches_target, solve};

verus! {

} // verus!
