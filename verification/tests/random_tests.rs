use reversi_path_finder::board::PlacementMask;
use reversi_path_finder::game::{initial_board, UncheckedGameProgression};
use reversi_path_finder::random_games::{
    game_record_from_draws, generate_balanced_disjoint_masks, generate_game_record, play_random_game_with_masks,
    randomly_play_in_conformance_to_masks_once,
};
use reversi_path_finder::reachability_problem::ReachabilityProblem;

#[test]
fn balanced_masks_split_the_board() {
    let (black, white) = generate_balanced_disjoint_masks();
    let mut black_count = 0;
    for y in 0..6 {
        for x in 0..6 {
            assert!(black.can_place(x, y) != white.can_place(x, y));
            if black.can_place(x, y) {
                black_count += 1;
            }
        }
    }
    assert_eq!(black_count, 18);
    assert!(white.can_place(2, 2) && white.can_place(3, 3));
    assert!(black.can_place(3, 2) && black.can_place(2, 3));
}

#[test]
fn random_games_are_admitted() {
    let (black, white) = generate_balanced_disjoint_masks();
    let (board, progression) = play_random_game_with_masks(&black, &white);
    let problem = ReachabilityProblem::new(board, black, white, initial_board());
    assert!(problem.admits_as_solution(&progression));
    assert_eq!(board.filled_cells_count(), 4 + progression.to_moves(&black, &white, &initial_board()).len());
}

#[test]
fn random_attempt_is_admitted() {
    let everywhere = PlacementMask([[true; 6]; 6]);
    for _ in 0..5 {
        if let Ok((board, progression)) = randomly_play_in_conformance_to_masks_once(&everywhere, &everywhere) {
            let problem = ReachabilityProblem::new(board, everywhere, everywhere, initial_board());
            assert!(problem.admits_as_solution(&progression));
            assert_eq!(board.filled_cells_count(), 36);
        }
    }
}

#[test]
fn random_records_replay() {
    let everywhere = PlacementMask([[true; 6]; 6]);
    for _ in 0..5 {
        if let Some(record) = generate_game_record() {
            assert_eq!(record.len(), 64);
            let progression = UncheckedGameProgression::from_game_record_string(&record);
            assert!(progression.play_through(&everywhere, &everywhere, &initial_board()).is_some());
        }
    }
}

#[test]
fn record_from_no_draws_is_empty() {
    assert_eq!(game_record_from_draws(&Vec::new()), Some(String::new()));
}

#[test]
fn record_from_zero_draws_takes_first_moves() {
    // Black's first legal move in row-major order is C2; White's first after it is B2.
    let record = game_record_from_draws(&vec![0, 0]).unwrap();
    assert_eq!(&record[0..2], "C2");
    assert_eq!(record.len(), 4);
    let everywhere = PlacementMask([[true; 6]; 6]);
    let progression = UncheckedGameProgression::from_game_record_string(&record);
    assert!(progression.play_through(&everywhere, &everywhere, &initial_board()).is_some());
}

#[test]
fn random_game_ends_stuck() {
    let (black, white) = generate_balanced_disjoint_masks();
    let (board, _) = play_random_game_with_masks(&black, &white);
    let black_moves = reversi_path_finder::game::moves_available_with_mask(&board, &reversi_path_finder::board::PlayerColor::Black, &black, &white);
    let white_moves = reversi_path_finder::game::moves_available_with_mask(&board, &reversi_path_finder::board::PlayerColor::White, &black, &white);
    assert!(black_moves.is_empty() && white_moves.is_empty());
}

#[test]
fn random_attempt_with_no_allowed_cell_is_stuck_at_start() {
    let nowhere = PlacementMask([[false; 6]; 6]);
    match randomly_play_in_conformance_to_masks_once(&nowhere, &nowhere) {
        Err((board, progression)) => {
            assert_eq!(board.to_string_block(), initial_board().to_string_block());
            assert_eq!(progression.to_moves(&nowhere, &nowhere, &initial_board()).len(), 0);
        }
        Ok(_) => panic!("no move is allowed, so the game cannot run 32 moves"),
    }
}
