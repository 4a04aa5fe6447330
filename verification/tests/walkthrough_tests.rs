use reversi_path_finder::board::example_boards::reachable_1_step;
use reversi_path_finder::board::{CellCoord, PlacementMask, PlayerColor};
use reversi_path_finder::game::initial_board;
use reversi_path_finder::walkthrough::{debug_step, display_step, StepOutcome};

fn all_cells() -> PlacementMask {
    PlacementMask([[true; 6]; 6])
}

fn no_cells() -> PlacementMask {
    PlacementMask([[false; 6]; 6])
}

#[test]
fn debug_step_plays_legal_move() {
    let outcome = debug_step(&initial_board(), PlayerColor::Black, CellCoord::new(1, 2), &all_cells(), &all_cells());
    match outcome {
        StepOutcome::Played { player, skipped, board } => {
            assert!(player == PlayerColor::Black);
            assert!(!skipped);
            assert!(board == reachable_1_step());
        }
        _ => panic!("expected the move to be played"),
    }
}

#[test]
fn debug_step_reports_unavailable_move() {
    let outcome = debug_step(&initial_board(), PlayerColor::Black, CellCoord::new(0, 0), &all_cells(), &all_cells());
    assert!(matches!(outcome, StepOutcome::NotAvailable { player: PlayerColor::Black }));
}

#[test]
fn debug_step_reports_mask_violation() {
    let outcome = debug_step(&initial_board(), PlayerColor::Black, CellCoord::new(1, 2), &no_cells(), &all_cells());
    assert!(matches!(outcome, StepOutcome::MaskViolation { player: PlayerColor::Black }));
}

#[test]
fn display_step_without_masks_reports_unavailable_move() {
    let outcome = display_step(&initial_board(), PlayerColor::Black, CellCoord::new(0, 0), &None);
    assert!(matches!(outcome, StepOutcome::NotAvailable { player: PlayerColor::Black }));
}

#[test]
fn display_step_passes_to_opponent() {
    // Black may place nowhere, so White plays D2.
    let masks = Some((no_cells(), all_cells()));
    let outcome = display_step(&initial_board(), PlayerColor::Black, CellCoord::new(3, 1), &masks);
    match outcome {
        StepOutcome::Played { player, skipped, board } => {
            assert!(player == PlayerColor::White);
            assert!(skipped);
            assert_eq!(board.filled_cells_count(), 5);
        }
        _ => panic!("expected White to play"),
    }
}

#[test]
fn display_step_reports_mask_violation() {
    let masks = Some((no_cells(), no_cells()));
    let outcome = display_step(&initial_board(), PlayerColor::Black, CellCoord::new(3, 1), &masks);
    assert!(matches!(outcome, StepOutcome::MaskViolation { player: PlayerColor::White }));
}

#[test]
fn display_step_reports_illegal_move() {
    let masks = Some((no_cells(), all_cells()));
    let outcome = display_step(&initial_board(), PlayerColor::Black, CellCoord::new(0, 0), &masks);
    assert!(matches!(outcome, StepOutcome::Illegal { player: PlayerColor::White }));
}
