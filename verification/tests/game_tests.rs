use reversi_path_finder::board::example_boards::{reachable_1_step, unreachable_2_steps, unreachable_broken};
use reversi_path_finder::board::{BoardCellState, CellCoord, PlacementMask, PlayerColor};
use reversi_path_finder::game::{initial_board, initial_board_at, moves_available_with_mask, UncheckedGameProgression};
use reversi_path_finder::reachability_problem::ReachabilityProblem;

fn everywhere() -> PlacementMask {
    PlacementMask([[true; 6]; 6])
}

#[test]
fn initial_block_at_origin() {
    let board = initial_board_at(CellCoord::new(0, 4));
    assert!(board.0[4][0] == BoardCellState::White);
    assert!(board.0[4][1] == BoardCellState::Black);
    assert!(board.0[5][0] == BoardCellState::Black);
    assert!(board.0[5][1] == BoardCellState::White);
    assert_eq!(board.filled_cells_count(), 4);
}

#[test]
fn default_initial_board_is_centered() {
    assert!(initial_board() == initial_board_at(CellCoord::new(2, 2)));
}

#[test]
fn game_record_round_trip() {
    let progression = UncheckedGameProgression::from_game_record_string("B3B2C2F6");
    assert_eq!(progression.to_game_record_string(), "B3B2C2F6");
}

#[test]
fn empty_game_record() {
    let progression = UncheckedGameProgression::from_game_record_string("");
    assert_eq!(progression.to_game_record_string(), "");
}

#[test]
fn play_through_one_move() {
    let progression = UncheckedGameProgression::from_game_record_string("B3");
    let board = progression.play_through(&everywhere(), &everywhere(), &initial_board()).unwrap();
    assert!(board == reachable_1_step());
}

#[test]
fn play_through_stops_at_illegal_move() {
    let progression = UncheckedGameProgression::from_game_record_string("A1B3");
    assert!(progression.play_through(&everywhere(), &everywhere(), &initial_board()).is_none());
    let moves = progression.to_moves(&everywhere(), &everywhere(), &initial_board());
    assert_eq!(moves.len(), 1);
    assert!(moves[0].player == PlayerColor::Black);
}

#[test]
fn to_moves_alternates_players() {
    let progression = UncheckedGameProgression::from_game_record_string("B3B2");
    let moves = progression.to_moves(&everywhere(), &everywhere(), &initial_board());
    assert_eq!(moves.len(), 2);
    assert!(moves[0].player == PlayerColor::Black);
    assert!(moves[1].player == PlayerColor::White);
    assert_eq!(moves[1].turn_index, 1);
    assert_eq!(moves[1].cell.to_string(), "B2");
}

#[test]
fn masked_player_passes() {
    // Black may not place anywhere, so White moves first.
    let nowhere = PlacementMask([[false; 6]; 6]);
    let progression = UncheckedGameProgression::from_game_record_string("D2");
    let moves = progression.to_moves(&nowhere, &everywhere(), &initial_board());
    assert!(moves[0].player == PlayerColor::White);
    assert!(progression.play_through(&nowhere, &everywhere(), &initial_board()).is_some());
}

#[test]
fn reachable_in_one_step() {
    let problem = ReachabilityProblem::new(reachable_1_step(), everywhere(), everywhere(), initial_board());
    let progression = UncheckedGameProgression::from_game_record_string("B3");
    assert!(problem.admits_as_solution(&progression));
}

#[test]
fn unreachable_in_two_steps() {
    let problem = ReachabilityProblem::new(unreachable_2_steps(), everywhere(), everywhere(), initial_board());
    let progression = UncheckedGameProgression::from_game_record_string("B3E3");
    assert!(!problem.admits_as_solution(&progression));
}

#[test]
fn broken_board_not_admitted() {
    let problem = ReachabilityProblem::new(unreachable_broken(), everywhere(), everywhere(), initial_board());
    let progression = UncheckedGameProgression::from_game_record_string("B3");
    assert!(!problem.admits_as_solution(&progression));
}

#[test]
fn mask_violation_not_admitted() {
    // White may only place where it cannot move, so every move is Black's,
    // but Black's mask forbids B3.
    let mut black = [[true; 6]; 6];
    black[2][1] = false;
    let problem = ReachabilityProblem::new(reachable_1_step(), PlacementMask(black), everywhere(), initial_board());
    let progression = UncheckedGameProgression::from_game_record_string("B3");
    assert!(!problem.admits_as_solution(&progression));
}

#[test]
fn filtered_moves() {
    let mut black = [[false; 6]; 6];
    black[2][1] = true;
    let moves = moves_available_with_mask(&initial_board(), &PlayerColor::Black, &PlacementMask(black), &everywhere());
    assert_eq!(moves.len(), 1);
    assert_eq!(moves[0].to_string(), "B3");
}

#[test]
fn record_with_passes_marks_skipped_turns() {
    // Black may place nowhere, so White plays D2 after Black passes.
    let nowhere = PlacementMask([[false; 6]; 6]);
    let progression = UncheckedGameProgression::from_game_record_string("D2");
    let record = progression.to_game_record_string_with_passes(&nowhere, &everywhere(), &initial_board());
    assert_eq!(record, "--D2");
}

#[test]
fn record_with_passes_without_passes() {
    let progression = UncheckedGameProgression::from_game_record_string("B3");
    let record = progression.to_game_record_string_with_passes(&everywhere(), &everywhere(), &initial_board());
    assert_eq!(record, "B3");
}
