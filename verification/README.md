# reversi_path_finder

Decides whether a position of 6x6 Reversi can be reached from the initial
board when each player may place disks only on the cells that its placement
mask allows, and finds such a game when it can.

The library under `src/` is verified with Verus:

- `board`: the board, cells, players and placement masks; the rules of
  Reversi (legal moves, flips, the board after a move) as spec functions, and
  the executable code proved against them; bitboards and octal text.
- `game`: the initial board, game records, replaying a sequence of moves with
  passes and masks.
- `reachability_problem`: the problem, and the check that a game solves it.
- `random_games`: random games and random placement masks.
- `term`: the SMT terms that the library builds, in an arena of its own,
  with what each term denotes under an assignment of the constants.
- `yices2_kissat_reachability_solver`: the SMT encoding of a game as
  bit-vector constraints (proved to hold under an assignment exactly where
  `encoding::constraints_hold` does), the Yices2 driver, and the reading of
  its answer. A `Reachable` answer is checked against the rules before it is
  given; an `Unreachable` answer is the solver's `unsat` to the commands of
  `script`, which the contract of `solve` names.
- `script`: the SMT-LIB text of each term and constraint, and the
  conversation with the solver (commands sent, answers read) as text.
- `encoding`: the constraints read over concrete values, with the proofs that
  their solutions are exactly the games that solve the problem.
- `walkthrough`: the decisions taken for each move when a progression is
  debugged or displayed step by step.
- `smt`, `text`: the solver session (starting the solver, writing a line,
  reading an answer, through `easy-smt`), and small text helpers.

`app/` holds the command-line programs; `tests/` the tests.
