use reversi_path_finder::board::example_boards::reachable_1_step;
use reversi_path_finder::board::{CellCoord, PlacementMask, PlayerColor};
use reversi_path_finder::game::{initial_board, initial_board_at};
use reversi_path_finder::reachability_problem::{ReachabilityProblem, ReachabilitySolver, ReachabilitySolverResult};
use reversi_path_finder::random_games::masks_from_order;
use reversi_path_finder::script::{node_widths, response_of, script_commands, var_name};
use reversi_path_finder::smt::SmtResponse;
use reversi_path_finder::term::{Node, Var};
use reversi_path_finder::text::indent;
use reversi_path_finder::walkthrough::{read_display_move, DisplayMove};
use reversi_path_finder::yices2_kissat_reachability_solver::{generate_reversi_constraints, new_yices2_kissat_reachability_solver};

fn full_mask() -> PlacementMask {
    PlacementMask([[true; 6]; 6])
}

#[test]
fn constraint_count_is_eight_per_move_and_five() {
    let one = generate_reversi_constraints(&reachable_1_step(), full_mask(), full_mask());
    assert_eq!(one.constraints.len(), 13);
    let none = generate_reversi_constraints(&initial_board(), full_mask(), full_mask());
    assert_eq!(none.constraints.len(), 5);
}

#[test]
fn script_of_a_small_arena() {
    let nodes = vec![
        Node::Const(Var::Black(0)),
        Node::Lit { width: 36, value: 0 },
        Node::BvAnd(0, 1),
        Node::Eq(2, 1),
        Node::Const(Var::Pos(3)),
        Node::Const(Var::Turn(1)),
        Node::Not(5),
    ];
    let constraints = vec![3, 6];
    let cmds = script_commands(&nodes, &constraints).expect("widths fit");
    let expected = vec![
        "(set-logic QF_BV)",
        "(declare-const black_bitboard_0 (_ BitVec 36))",
        "(define-fun t1 () (_ BitVec 36) (_ bv0 36))",
        "(define-fun t2 () (_ BitVec 36) (bvand black_bitboard_0 t1))",
        "(define-fun t3 () Bool (= t2 t1))",
        "(declare-const move_pos_3 (_ BitVec 6))",
        "(declare-const is_black_turn_1 Bool)",
        "(define-fun t6 () Bool (not is_black_turn_1))",
        "(assert t3)",
        "(assert t6)",
    ];
    assert_eq!(cmds, expected);
}

#[test]
fn widths_of_a_concatenation() {
    let nodes = vec![
        Node::Lit { width: 30, value: 0 },
        Node::Const(Var::Pos(0)),
        Node::Concat(0, 1, 6),
        Node::BvShl(2, 2),
    ];
    assert_eq!(node_widths(&nodes), Some(vec![30, 6, 36, 36]));
    let cmds = script_commands(&nodes, &vec![]).expect("widths fit");
    assert_eq!(cmds[3], "(define-fun t2 () (_ BitVec 36) (concat t0 move_pos_0))");
}

#[test]
fn widths_that_overflow_give_no_script() {
    let nodes = vec![
        Node::Lit { width: usize::MAX, value: 0 },
        Node::Concat(0, 0, 0),
        Node::Concat(1, 1, 0),
    ];
    assert!(script_commands(&nodes, &vec![]).is_none());
}

#[test]
fn script_of_the_one_move_encoding() {
    let encoding = generate_reversi_constraints(&reachable_1_step(), full_mask(), full_mask());
    let cmds = script_commands(&encoding.nodes, &encoding.constraints).expect("widths fit");
    assert_eq!(cmds.len(), 1 + encoding.nodes.len() + 13);
    assert_eq!(cmds[0], "(set-logic QF_BV)");
    assert!(cmds.iter().any(|c| c == "(declare-const move_pos_0 (_ BitVec 6))"));
    assert!(cmds.iter().any(|c| c == "(declare-const white_bitboard_1 (_ BitVec 36))"));
    assert!(cmds[cmds.len() - 1].starts_with("(assert "));
}

#[test]
fn constant_names() {
    assert_eq!(var_name(Var::White(12)), "white_bitboard_12");
    assert_eq!(var_name(Var::Pass(0)), "pass_0");
}

#[test]
fn other_initial_board_is_unknown() {
    let shifted = initial_board_at(CellCoord::new(0, 0));
    let problem = ReachabilityProblem::new(reachable_1_step(), full_mask(), full_mask(), shifted);
    let mut solver = new_yices2_kissat_reachability_solver();
    assert!(matches!(solver.solve(&problem), ReachabilitySolverResult::Unknown));
}

#[test]
fn indented_block() {
    assert_eq!(indent(&"ab\ncd".to_string()), "\tab\n\tcd");
    assert_eq!(indent(&"x\n".to_string()), "\tx\n\t");
}

#[test]
fn display_moves_read() {
    assert!(matches!(read_display_move(b'-', b'-'), DisplayMove::Pass));
    match read_display_move(b'B', b'3') {
        DisplayMove::Cell(c) => assert_eq!(c.to_string(), "B3"),
        _ => panic!("B3 is a cell"),
    }
    assert!(matches!(read_display_move(b'G', b'1'), DisplayMove::OffBoard));
    assert!(matches!(read_display_move(b'A', b'7'), DisplayMove::OffBoard));
    let _ = PlayerColor::Black;
}

#[test]
fn check_replies_read() {
    assert!(matches!(response_of(&"sat".to_string()), Some(SmtResponse::Sat)));
    assert!(matches!(response_of(&"unsat".to_string()), Some(SmtResponse::Unsat)));
    assert!(matches!(response_of(&"unknown".to_string()), Some(SmtResponse::Unknown)));
    assert!(response_of(&"SAT".to_string()).is_none());
    assert!(response_of(&"(error \"x\")".to_string()).is_none());
}

#[test]
fn masks_from_row_major_order() {
    let mut order = Vec::new();
    for y in 0..6u8 {
        for x in 0..6u8 {
            let block = (x == 2 || x == 3) && (y == 2 || y == 3);
            if !block {
                order.push(CellCoord::new(x, y));
            }
        }
    }
    assert_eq!(order.len(), 32);
    let (black, white) = masks_from_order(&order);
    // The first 16 free cells (rows 1 to 3, less C3 and D3) go to Black.
    for (m, c) in order.iter().enumerate() {
        let x = *c.column() as usize;
        let y = *c.row() as usize;
        assert_eq!(black.can_place(x, y), m < 16);
        assert_eq!(white.can_place(x, y), m >= 16);
    }
    assert!(black.can_place(3, 2) && black.can_place(2, 3));
    assert!(white.can_place(2, 2) && white.can_place(3, 3));
    assert!(!black.can_place(2, 2) && !white.can_place(3, 2));
}
