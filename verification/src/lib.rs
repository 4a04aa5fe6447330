//! Reachability of 6x6 Reversi positions: the board and its rules, game
//! records and their replay, reachability problems, and the bit-vector
//! encoding of the game handed to an SMT solver.

pub mod board;
pub mod encoding;
pub mod game;
pub mod random_games;
pub mod reachability_problem;
pub mod script;
pub mod smt;
pub mod term;
pub mod text;
pub mod walkthrough;
pub mod yices2_kissat_reachability_solver;
