//! Boards used as examples of reachable and unreachable targets.

use vstd::prelude::*;
use super::{Board, in_bounds, state_of_code};

verus! {

/// The cell codes (0 empty, 1 white, 2 black) of `reachable_1_step`.
pub open spec fn reachable_1_step_codes() -> Seq<Seq<u8>> {
    seq![
        seq![0u8, 0, 0, 0, 0, 0],
        seq![0u8, 0, 0, 0, 0, 0],
        seq![0u8, 2, 2, 2, 0, 0],
        seq![0u8, 0, 2, 1, 0, 0],
        seq![0u8, 0, 0, 0, 0, 0],
        seq![0u8, 0, 0, 0, 0, 0],
    ]
}

/// The cell codes of `unreachable_2_steps`.
pub open spec fn unreachable_2_steps_codes() -> Seq<Seq<u8>> {
    seq![
        seq![0u8, 0, 0, 0, 0, 0],
        seq![0u8, 0, 0, 0, 0, 0],
        seq![0u8, 2, 2, 1, 1, 0],
        seq![0u8, 0, 2, 1, 0, 0],
        seq![0u8, 0, 0, 0, 0, 0],
        seq![0u8, 0, 0, 0, 0, 0],
    ]
}

/// The cell codes of `unreachable_broken`.
pub open spec fn unreachable_broken_codes() -> Seq<Seq<u8>> {
    seq![
        seq![1u8, 1, 1, 1, 1, 1],
        seq![0u8, 0, 0, 0, 0, 0],
        seq![0u8, 0, 0, 0, 0, 0],
        seq![0u8, 0, 0, 0, 0, 0],
        seq![0u8, 0, 0, 0, 0, 0],
        seq![2u8, 2, 2, 2, 2, 2],
    ]
}

/// The initial board after Black plays B3.
pub fn reachable_1_step() -> (board: Board)
    ensures
        forall|y: int, x: int| in_bounds(x, y) ==> #[trigger] board.cell(x, y) == state_of_code(reachable_1_step_codes()[y][x]),
{
    let board = Board::from_012_array([
        /*       A  B  C  D  E  F */
        /* 1 */ [0, 0, 0, 0, 0, 0],
        /* 2 */ [0, 0, 0, 0, 0, 0],
        /* 3 */ [0, 2, 2, 2, 0, 0],  // B3
        /* 4 */ [0, 0, 2, 1, 0, 0],
        /* 5 */ [0, 0, 0, 0, 0, 0],
        /* 6 */ [0, 0, 0, 0, 0, 0],
    ]);
    board
}

/// A board that only the record B3E3 could lead to, though B3E3 leads
/// elsewhere.
pub fn unreachable_2_steps() -> (board: Board)
    ensures
        forall|y: int, x: int| in_bounds(x, y) ==> #[trigger] board.cell(x, y) == state_of_code(unreachable_2_steps_codes()[y][x]),
{
    let board = Board::from_012_array([
        /*       A  B  C  D  E  F */
        /* 1 */ [0, 0, 0, 0, 0, 0],
        /* 2 */ [0, 0, 0, 0, 0, 0],
        /* 3 */ [0, 2, 2, 1, 1, 0],  // must have B3E3 as the game record but B3E3 does not lead to this state
        /* 4 */ [0, 0, 2, 1, 0, 0],
        /* 5 */ [0, 0, 0, 0, 0, 0],
        /* 6 */ [0, 0, 0, 0, 0, 0],
    ]);
    board
}

/// A board with empty center cells, which no game leaves empty.
pub fn unreachable_broken() -> (board: Board)
    ensures
        forall|y: int, x: int| in_bounds(x, y) ==> #[trigger] board.cell(x, y) == state_of_code(unreachable_broken_codes()[y][x]),
{
    let board = Board::from_012_array([
        [1, 1, 1, 1, 1, 1],
        [0, 0, 0, 0, 0, 0],
        [0, 0, 0, 0, 0, 0],  // center cells are never empty in a valid game
        [0, 0, 0, 0, 0, 0],
        [0, 0, 0, 0, 0, 0],
        [2, 2, 2, 2, 2, 2],
    ]);
    board
}

} // verus!
