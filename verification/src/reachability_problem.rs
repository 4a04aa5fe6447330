//! Reachability problems: can a target board be reached from an initial
//! board by a game in which each player places disks only where its mask
//! allows?

use vstd::prelude::*;
use crate::board::{Board, PlacementMask, PlayerColor};
use crate::game::{UncheckedGameProgression, play_from, players_from, mask_for};

verus! {

pub struct ReachabilityProblem {
    pub target_board: Board,
    pub black_placement_mask: PlacementMask,
    pub white_placement_mask: PlacementMask,
    pub initial_board: Board,
}

impl ReachabilityProblem {
    /// Whether replaying `cells` from the initial board (Black first,
    /// passing when no legal move is allowed by the mover's mask) plays every
    /// move legally, ends on the target board, and places every disk where
    /// the mask of the player who placed it allows.
    pub open spec fn solved_by(self, cells: Seq<crate::board::CellCoord>) -> bool {
        let players = players_from(self.initial_board, PlayerColor::Black, cells, self.black_placement_mask, self.white_placement_mask);
        match play_from(self.initial_board, PlayerColor::Black, cells, self.black_placement_mask, self.white_placement_mask) {
            Some(final_board) => {
                &&& final_board == self.target_board
                &&& forall|i: int| 0 <= i < players.len() ==>
                        mask_for(#[trigger] players[i], self.black_placement_mask, self.white_placement_mask).allows_cell(cells[i])
            },
            None => false,
        }
    }

    pub fn new(
        target_board: Board,
        black_placement_mask: PlacementMask,
        white_placement_mask: PlacementMask,
        initial_board: Board,
    ) -> (problem: Self)
        ensures
            problem.target_board == target_board,
            problem.black_placement_mask == black_placement_mask,
            problem.white_placement_mask == white_placement_mask,
            problem.initial_board == initial_board,
    {
        ReachabilityProblem { target_board, black_placement_mask, white_placement_mask, initial_board }
    }

    /// Whether `progression` solves the problem (see `solved_by`).
    pub fn admits_as_solution(&self, progression: &UncheckedGameProgression) -> (admitted: bool)
        ensures
            admitted == self.solved_by(progression@),
    {
        if let Some(final_board) = progression.play_through(
            &self.black_placement_mask,
            &self.white_placement_mask,
            &self.initial_board,
        ) {
            if !(self.target_board == final_board) {
                return false;
            }
            let moves = progression.to_moves(
                &self.black_placement_mask,
                &self.white_placement_mask,
                &self.initial_board,
            );
            let ghost players = players_from(self.initial_board, PlayerColor::Black, progression@, self.black_placement_mask, self.white_placement_mask);
            let mut i: usize = 0;
            while i < moves.len()
                invariant
                    i <= moves@.len(),
                    moves@ == crate::game::moves_of(progression@, players),
                    players == players_from(self.initial_board, PlayerColor::Black, progression@, self.black_placement_mask, self.white_placement_mask),
                    play_from(self.initial_board, PlayerColor::Black, progression@, self.black_placement_mask, self.white_placement_mask) == Some(final_board),
                    final_board == self.target_board,
                    forall|j: int| 0 <= j < i ==> mask_for(#[trigger] players[j], self.black_placement_mask, self.white_placement_mask).allows_cell(progression@[j]),
                decreases moves@.len() - i,
            {
                let mv = &moves[i];
                let allowed = match mv.player {
                    PlayerColor::Black => self.black_placement_mask.can_place_at_cell(mv.cell),
                    PlayerColor::White => self.white_placement_mask.can_place_at_cell(mv.cell),
                };
                if !allowed {
                    assert(moves@[i as int].player == players[i as int] && moves@[i as int].cell == progression@[i as int]);
                    assert(!mask_for(players[i as int], self.black_placement_mask, self.white_placement_mask).allows_cell(progression@[i as int]));
                    return false;
                }
                i += 1;
            }
            true
        } else {
            false
        }
    }
}

/// What a solver answers: a progression that reaches the target (with data
/// of its own), a proof of unreachability (with data of its own), or no
/// answer.
pub enum ReachabilitySolverResult<ExtraTraceDataOnSAT = (), ExtraTraceDataOnUNSAT = ()> {
    Reachable(UncheckedGameProgression, ExtraTraceDataOnSAT),
    Unreachable(ExtraTraceDataOnUNSAT),
    Unknown,
}

/// A procedure that decides reachability problems.
pub trait ReachabilitySolver {
    type ExtraTraceDataOnSAT;
    type ExtraTraceDataOnUNSAT;

    /// Attempts to solve the given reachability problem.
    fn solve(
        &mut self,
        problem: &ReachabilityProblem,
    ) -> ReachabilitySolverResult<Self::ExtraTraceDataOnSAT, Self::ExtraTraceDataOnUNSAT>;
}

} // verus!
