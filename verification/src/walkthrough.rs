//! Stepping through a progression one move at a time, deciding for each
//! move who plays it and whether it may be played, as the programs that
//! debug and display progressions do.

use vstd::prelude::*;
use crate::board::{Board, CellCoord, PlacementMask, PlayerColor};
use crate::game::{acting_player, lemma_allowed_moves_nonempty, mask_for, moves_available_with_mask};

verus! {

/// What becomes of one move of a progression.
pub enum StepOutcome {
    /// `player` played the move, after the player to move passed if
    /// `skipped`, and `board` is the board after it.
    Played { player: PlayerColor, skipped: bool, board: Board },
    /// The mask of `player`, who would play the move, does not allow it.
    MaskViolation { player: PlayerColor },
    /// The move is not among the moves available.
    NotAvailable { player: PlayerColor },
    /// The move is not legal for `player`.
    Illegal { player: PlayerColor },
}

/// A two-character move of a displayed progression.
pub enum DisplayMove {
    /// `--`: the player to move passes.
    Pass,
    /// A column letter `A`..`F` and a row digit `1`..`6`.
    Cell(CellCoord),
    /// Anything else, which names no cell of the board.
    OffBoard,
}

/// The move that the characters `first`, `second` (as bytes) name.
pub open spec fn display_move(first: u8, second: u8) -> DisplayMove {
    if first == 45 && second == 45 {
        DisplayMove::Pass
    } else if 65 <= first < 71 && 49 <= second < 55 {
        DisplayMove::Cell(CellCoord::at(first - 65, second - 49))
    } else {
        DisplayMove::OffBoard
    }
}

/// Reads one two-character move of a displayed progression (see
/// `display_move`).
pub fn read_display_move(first: u8, second: u8) -> (m: DisplayMove)
    ensures
        m == display_move(first, second),
{
    if first == 45 && second == 45 {
        DisplayMove::Pass
    } else if 65 <= first && first < 71 && 49 <= second && second < 55 {
        DisplayMove::Cell(CellCoord::new(first - 65, second - 49))
    } else {
        DisplayMove::OffBoard
    }
}

/// Whether `cell` is one of `cells`.
fn contains_cell(cells: &Vec<CellCoord>, cell: CellCoord) -> (found: bool)
    ensures
        found == cells@.contains(cell),
{
    let mut i: usize = 0;
    while i < cells.len()
        invariant
            i <= cells@.len(),
            forall|j: int| 0 <= j < i ==> cells@[j] != cell,
        decreases cells@.len() - i,
    {
        if cells[i] == cell {
            return true;
        }
        i += 1;
    }
    false
}

/// The outcome of a move of a progression being debugged: the player to
/// move plays it if it has a legal move, else its opponent; the move must be
/// allowed by that player's mask, then be one of its legal moves.
pub open spec fn debug_outcome(
    board: Board,
    current: PlayerColor,
    cell: CellCoord,
    black_mask: PlacementMask,
    white_mask: PlacementMask,
) -> StepOutcome {
    let skipped = board.legal_moves(current).len() == 0;
    let player = if skipped { current.other() } else { current };
    if !mask_for(player, black_mask, white_mask).allows_cell(cell) {
        StepOutcome::MaskViolation { player }
    } else if !board.legal_moves(player).contains(cell) {
        StepOutcome::NotAvailable { player }
    } else {
        StepOutcome::Played { player, skipped, board: board.after_move(cell.x(), cell.y(), player)->0 }
    }
}

/// Decides one move of a progression being debugged (see `debug_outcome`).
pub fn debug_step(
    board: &Board,
    current: PlayerColor,
    cell: CellCoord,
    black_mask: &PlacementMask,
    white_mask: &PlacementMask,
) -> (outcome: StepOutcome)
    ensures
        outcome == debug_outcome(*board, current, cell, *black_mask, *white_mask),
{
    let skipped = board.moves_available(&current).len() == 0;
    let player = if skipped {
        current.opponent()
    } else {
        current
    };
    let allowed = match player {
        PlayerColor::Black => black_mask.can_place_at_cell(cell),
        PlayerColor::White => white_mask.can_place_at_cell(cell),
    };
    if !allowed {
        return StepOutcome::MaskViolation { player };
    }
    let available = board.moves_available(&player);
    if !contains_cell(&available, cell) {
        return StepOutcome::NotAvailable { player };
    }
    proof {
        board.lemma_legal_moves_are_legal(player, 36, cell);
        crate::board::CellCoord::lemma_coordinates(cell);
    }
    match board.place_disk(*cell.column(), *cell.row(), &player) {
        Some(next) => StepOutcome::Played { player, skipped, board: next },
        None => StepOutcome::Illegal { player },
    }
}

/// The player of an outcome.
pub open spec fn outcome_player(o: StepOutcome) -> PlayerColor {
    match o {
        StepOutcome::Played { player, .. } => player,
        StepOutcome::MaskViolation { player } => player,
        StepOutcome::NotAvailable { player } => player,
        StepOutcome::Illegal { player } => player,
    }
}

/// Whether `p` has a legal move anywhere on `board`.
pub open spec fn can_move(board: Board, p: PlayerColor) -> bool {
    exists|x: int, y: int| #[trigger] board.is_legal_move(x, y, p)
}

/// `p` has a legal move exactly where its list of legal moves is not empty.
proof fn lemma_can_move(board: Board, p: PlayerColor)
    ensures
        can_move(board, p) <==> board.legal_moves(p).len() > 0,
{
    if can_move(board, p) {
        let (x, y) = choose|x: int, y: int| #[trigger] board.is_legal_move(x, y, p);
        board.lemma_legal_moves_complete(p, 36, x, y);
    }
    if board.legal_moves(p).len() > 0 {
        let c = board.legal_moves(p)[0];
        assert(board.legal_moves_upto(p, 36).contains(c));
        board.lemma_legal_moves_are_legal(p, 36, c);
        assert(board.is_legal_move(c.x(), c.y(), p));
    }
}

/// `cell` is among the legal moves of `p` exactly where it is a legal move.
proof fn lemma_listed_iff_legal(board: Board, p: PlayerColor, cell: CellCoord)
    ensures
        board.legal_moves(p).contains(cell) <==> board.is_legal_move(cell.x(), cell.y(), p),
{
    CellCoord::lemma_coordinates(cell);
    if board.legal_moves(p).contains(cell) {
        board.lemma_legal_moves_are_legal(p, 36, cell);
    }
    if board.is_legal_move(cell.x(), cell.y(), p) {
        board.lemma_legal_moves_complete(p, 36, cell.x(), cell.y());
    }
}

/// A debugged move is played by the player to move if that player has a
/// legal move anywhere, else by its opponent, whose turn it then is
/// (`skipped`); it is played exactly where that player's mask allows the
/// cell and the cell is a legal move for that player, and then the board is
/// the board after that move.
pub proof fn lemma_debug_player(board: Board, current: PlayerColor, cell: CellCoord, black_mask: PlacementMask, white_mask: PlacementMask)
    ensures
        ({
            let o = debug_outcome(board, current, cell, black_mask, white_mask);
            let player = if can_move(board, current) { current } else { current.other() };
            &&& outcome_player(o) == player
            &&& o is Played <==> mask_for(player, black_mask, white_mask).allows_cell(cell) && board.is_legal_move(
                cell.x(),
                cell.y(),
                player,
            )
            &&& o matches StepOutcome::Played { skipped, board: next, .. } ==> skipped == !can_move(board, current)
                && board.after_move(cell.x(), cell.y(), player) == Some(next)
            &&& !(o is Illegal)
        }),
{
    lemma_can_move(board, current);
    let player = if can_move(board, current) { current } else { current.other() };
    lemma_listed_iff_legal(board, player, cell);
}

/// A displayed move is played by the player to move if it has a legal move
/// that its mask allows (all its legal moves where no masks are given),
/// else by its opponent, as in a replay of the progression.
pub proof fn lemma_display_player(board: Board, current: PlayerColor, cell: CellCoord, masks: Option<(PlacementMask, PlacementMask)>)
    ensures
        ({
            let o = display_outcome(board, current, cell, masks);
            &&& masks matches Some((black_mask, white_mask)) ==> outcome_player(o) == acting_player(board, current, black_mask, white_mask)
            &&& masks is None ==> outcome_player(o) == if can_move(board, current) { current } else { current.other() }
            &&& o matches StepOutcome::Played { player, board: next, .. } ==> {
                &&& board.is_legal_move(cell.x(), cell.y(), player)
                &&& board.after_move(cell.x(), cell.y(), player) == Some(next)
                &&& masks matches Some((black_mask, white_mask)) ==> mask_for(player, black_mask, white_mask).allows_cell(cell)
            }
            &&& (o is Illegal ==> !board.is_legal_move(cell.x(), cell.y(), outcome_player(o)))
        }),
{
    lemma_can_move(board, current);
    if let Some((black_mask, white_mask)) = masks {
        lemma_allowed_moves_nonempty(board, current, mask_for(current, black_mask, white_mask));
    }
}

/// The moves available to `current` when a progression is displayed: its
/// legal moves that its mask allows where masks are given, else all its
/// legal moves.
pub open spec fn displayed_moves(board: Board, current: PlayerColor, masks: Option<(PlacementMask, PlacementMask)>) -> Seq<CellCoord> {
    match masks {
        Some((black_mask, white_mask)) => board.legal_moves(current).filter(
            |c: CellCoord| mask_for(current, black_mask, white_mask).allows_cell(c),
        ),
        None => board.legal_moves(current),
    }
}

/// The outcome of a move of a progression being displayed: the player to
/// move plays it if it has a move available, else its opponent; where the
/// player to move has moves, the move must be one of them; where masks are
/// given, the mover's mask must allow it; and it must be legal for the
/// mover.
pub open spec fn display_outcome(
    board: Board,
    current: PlayerColor,
    cell: CellCoord,
    masks: Option<(PlacementMask, PlacementMask)>,
) -> StepOutcome {
    let moves = displayed_moves(board, current, masks);
    let skipped = moves.len() == 0;
    let player = if skipped { current.other() } else { current };
    if !skipped && !moves.contains(cell) {
        StepOutcome::NotAvailable { player }
    } else if masks matches Some((black_mask, white_mask)) && !mask_for(player, black_mask, white_mask).allows_cell(cell) {
        StepOutcome::MaskViolation { player }
    } else if !board.is_legal_move(cell.x(), cell.y(), player) {
        StepOutcome::Illegal { player }
    } else {
        StepOutcome::Played { player, skipped, board: board.after_move(cell.x(), cell.y(), player)->0 }
    }
}

/// Decides one move of a progression being displayed (see
/// `display_outcome`).
pub fn display_step(
    board: &Board,
    current: PlayerColor,
    cell: CellCoord,
    masks: &Option<(PlacementMask, PlacementMask)>,
) -> (outcome: StepOutcome)
    ensures
        outcome == display_outcome(*board, current, cell, *masks),
{
    let moves = match masks {
        Some((black_mask, white_mask)) => moves_available_with_mask(board, &current, black_mask, white_mask),
        None => board.moves_available(&current),
    };
    let skipped = moves.len() == 0;
    let player = if skipped {
        current.opponent()
    } else {
        current
    };
    if !skipped && !contains_cell(&moves, cell) {
        return StepOutcome::NotAvailable { player };
    }
    if let Some((black_mask, white_mask)) = masks {
        let allowed = match player {
            PlayerColor::Black => black_mask.can_place_at_cell(cell),
            PlayerColor::White => white_mask.can_place_at_cell(cell),
        };
        if !allowed {
            return StepOutcome::MaskViolation { player };
        }
    }
    proof {
        crate::board::CellCoord::lemma_coordinates(cell);
    }
    match board.place_disk(*cell.column(), *cell.row(), &player) {
        Some(next) => StepOutcome::Played { player, skipped, board: next },
        None => StepOutcome::Illegal { player },
    }
}

} // verus!
