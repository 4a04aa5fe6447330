use reversi_path_finder::board::{BoardCellState, PlayerColor};
use reversi_path_finder::board::example_boards::{reachable_1_step, unreachable_broken};
use reversi_path_finder::board::PlacementMask;
use reversi_path_finder::game::initial_board;
use reversi_path_finder::reachability_problem::{ReachabilityProblem, ReachabilitySolver, ReachabilitySolverResult};
use reversi_path_finder::smt::SmtResponse;
use reversi_path_finder::yices2_kissat_reachability_solver::{
    answer_from_solver, generate_reversi_constraints, new_yices2_kissat_reachability_solver, GameTrace, SolverTrace,
};

#[test]
fn trace_to_game_steps() {
    let bb = initial_board().to_bitboards();
    let trace = SolverTrace {
        black_bitboards: vec![bb.black, bb.black | (1 << 13) | (1 << 14)],
        white_bitboards: vec![bb.white, bb.white & !(1 << 14)],
        is_black_turns: vec![true],
        move_positions: vec![13],
        passes: vec![false],
    };
    let game = GameTrace::from_solver_trace(&trace);
    assert_eq!(game.steps.len(), 1);
    assert!(game.steps[0].board_before == initial_board());
    assert!(game.steps[0].player == PlayerColor::Black);
    assert_eq!(game.steps[0].move_cell.to_string(), "B3");
    assert!(!game.steps[0].is_pass);
    assert!(game.final_board.0[2][1] == BoardCellState::Black);
    assert!(game.final_board.0[2][2] == BoardCellState::Black);
}

#[test]
fn trace_pass_hands_move_to_other_player() {
    let bb = initial_board().to_bitboards();
    let trace = SolverTrace {
        black_bitboards: vec![bb.black, bb.black],
        white_bitboards: vec![bb.white, bb.white],
        is_black_turns: vec![true],
        move_positions: vec![35],
        passes: vec![true],
    };
    let game = GameTrace::from_solver_trace(&trace);
    assert!(game.steps[0].player == PlayerColor::White);
    assert_eq!(game.steps[0].move_cell.to_string(), "F6");
}

#[test]
fn too_few_disks_is_unreachable() {
    let mut arr = [[0u8; 6]; 6];
    arr[0][0] = 1;
    let target = reversi_path_finder::board::Board::from_012_array(arr);
    let everywhere = PlacementMask([[true; 6]; 6]);
    let problem = ReachabilityProblem::new(target, everywhere, everywhere, initial_board());
    let mut solver = new_yices2_kissat_reachability_solver();
    assert!(matches!(solver.solve(&problem), ReachabilitySolverResult::Unreachable(())));
    let _ = unreachable_broken();
}

fn full_mask() -> PlacementMask {
    PlacementMask([[true; 6]; 6])
}

fn one_step_trace(position: u8) -> SolverTrace {
    let start = initial_board().to_bitboards();
    let end = reachable_1_step().to_bitboards();
    SolverTrace {
        black_bitboards: vec![start.black, end.black],
        white_bitboards: vec![start.white, end.white],
        is_black_turns: vec![true],
        move_positions: vec![position],
        passes: vec![false],
    }
}

#[test]
fn constraints_for_one_move() {
    let encoding = generate_reversi_constraints(&reachable_1_step(), full_mask(), full_mask());
    assert_eq!(encoding.black_boards.len(), 2);
    assert_eq!(encoding.white_boards.len(), 2);
    assert_eq!(encoding.move_positions.len(), 1);
    assert_eq!(encoding.passes.len(), 1);
    assert_eq!(encoding.is_black_turn.len(), 1);
    assert!(encoding.constraints.iter().all(|c| *c < encoding.nodes.len()));
}

#[test]
fn constraints_for_no_move() {
    let encoding = generate_reversi_constraints(&initial_board(), full_mask(), full_mask());
    assert_eq!(encoding.black_boards.len(), 1);
    assert_eq!(encoding.move_positions.len(), 0);
}

#[test]
fn unsat_answer_is_unreachable() {
    let problem = ReachabilityProblem::new(reachable_1_step(), full_mask(), full_mask(), initial_board());
    let result = answer_from_solver(&problem, 1, Some(SmtResponse::Unsat), None);
    assert!(matches!(result, ReachabilitySolverResult::Unreachable(())));
}

#[test]
fn failed_solver_answer_is_unknown() {
    let problem = ReachabilityProblem::new(reachable_1_step(), full_mask(), full_mask(), initial_board());
    assert!(matches!(answer_from_solver(&problem, 1, None, None), ReachabilitySolverResult::Unknown));
    assert!(matches!(
        answer_from_solver(&problem, 1, Some(SmtResponse::Unknown), None),
        ReachabilitySolverResult::Unknown
    ));
    assert!(matches!(answer_from_solver(&problem, 1, Some(SmtResponse::Sat), None), ReachabilitySolverResult::Unknown));
}

#[test]
fn sat_answer_with_solving_model_is_reachable() {
    let problem = ReachabilityProblem::new(reachable_1_step(), full_mask(), full_mask(), initial_board());
    // B3 is column 1, row 2: position 13.
    match answer_from_solver(&problem, 1, Some(SmtResponse::Sat), Some(one_step_trace(13))) {
        ReachabilitySolverResult::Reachable(progression, _) => {
            assert_eq!(progression.to_game_record_string(), "B3");
        }
        _ => panic!("expected a reachable answer"),
    }
}

#[test]
fn sat_answer_with_wrong_model_is_unknown() {
    let problem = ReachabilityProblem::new(reachable_1_step(), full_mask(), full_mask(), initial_board());
    // E4 is a legal first move but does not reach the target.
    assert!(matches!(
        answer_from_solver(&problem, 1, Some(SmtResponse::Sat), Some(one_step_trace(22))),
        ReachabilitySolverResult::Unknown
    ));
    // A position off the board.
    assert!(matches!(
        answer_from_solver(&problem, 1, Some(SmtResponse::Sat), Some(one_step_trace(40))),
        ReachabilitySolverResult::Unknown
    ));
}
