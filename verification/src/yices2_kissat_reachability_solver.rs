//! Reachability by SMT: the game encoded as bit-vector constraints over one
//! pair of 36-bit bitboards per move, solved by Yices2 (with Kissat), and
//! the solver's model read back as a game.

use vstd::prelude::*;
use crate::board::{BitBoard, Board, CellCoord, PlacementMask, PlayerColor, bit, lemma_bitboards_round_trip, lemma_same_bitboards, within_board_bits};
use crate::game::{
    acting_player, initial_board, lemma_initial_board_disks, lemma_play_prefix, lemma_players_act, lemma_players_len, moves_of, play_from,
    play_state, players_from, standard_initial_board,
    UncheckedGameProgression,
};
use crate::reachability_problem::{ReachabilityProblem, ReachabilitySolver, ReachabilitySolverResult};
use crate::smt::{self, SmtSession, Transcript, close_session, open_session};
use crate::script::{
    acknowledged, lemma_acknowledged_at, lemma_acknowledged_len, lemma_script_has_no_check, response_of_text, texts, answered_value, answered_values, check_sat, log_extends, query_failed, read_values, run_commands, script, script_commands,
    value_text,
};
use crate::term::{
    self, Node, Value, Var, all_below, all_hold, bits_of, eval, extends, lemma_all_hold_extend, lemma_all_hold_push, truth_of,
};
use crate::encoding::{
    BOARD_BITS, advance, all_flips, constraints_hold, direction_flips, edge_for, has_legal_move_value, legal_at, legal_move_among,
    is_replay, lemma_board_has_bitboards, lemma_bitboards_unique, lemma_encoding_complete, lemma_encoding_sound, lemma_mask_has_bits,
    lemma_same_board_word, lemma_walk_state, move_mask, position_cells, transition_holds, walk_state,
};

verus! {

/// Trace of all intermediate SMT variables extracted from the solver
#[derive(Debug, Clone)]
pub struct SolverTrace {
    /// black_bitboard_t for each timestep (0 to max_moves)
    pub black_bitboards: Vec<u64>,
    /// white_bitboard_t for each timestep
    pub white_bitboards: Vec<u64>,
    /// is_black_turn_t for each timestep
    pub is_black_turns: Vec<bool>,
    /// move_pos_t for each transition (0-35)
    pub move_positions: Vec<u8>,
    /// pass_t for each transition
    pub passes: Vec<bool>,
}

/// Represents a single step in the game trace
#[derive(Clone)]
pub struct GameStep {
    /// Board state before this move
    pub board_before: Board,
    /// Player making the move
    pub player: PlayerColor,
    /// Position of the move
    pub move_cell: CellCoord,
    /// Whether this was a pass
    pub is_pass: bool,
}

/// High-level game trace parsed from raw SMT variables
#[derive(Clone)]
pub struct GameTrace {
    pub steps: Vec<GameStep>,
    pub final_board: Board,
}

impl SolverTrace {
    /// Whether the trace has what `GameTrace::from_solver_trace` reads: a
    /// board pair before every move and one after the last, a pass flag for
    /// every move, and move positions on the board.
    pub open spec fn is_readable(self) -> bool {
        &&& self.black_bitboards@.len() > 0
        &&& self.white_bitboards@.len() > 0
        &&& self.black_bitboards@.len() >= self.move_positions@.len()
        &&& self.white_bitboards@.len() >= self.move_positions@.len()
        &&& self.passes@.len() >= self.move_positions@.len()
        &&& forall|t: int| 0 <= t < self.move_positions@.len() ==> #[trigger] self.move_positions@[t] < 36
    }

    /// Whether Black was to move before move `t`; Black where the trace has
    /// no turn flag for it.
    pub open spec fn black_to_move(self, t: int) -> bool {
        if t < self.is_black_turns@.len() {
            self.is_black_turns@[t]
        } else {
            true
        }
    }

    /// The player who makes move `t`: the player to move, or its opponent
    /// where move `t` is a pass.
    pub open spec fn mover(self, t: int) -> PlayerColor {
        if self.black_to_move(t) != self.passes@[t] {
            PlayerColor::Black
        } else {
            PlayerColor::White
        }
    }
}

impl GameTrace {
    /// Converts raw SolverTrace into a high-level GameTrace
    pub fn from_solver_trace(trace: &SolverTrace) -> (game: Self)
        requires
            trace.is_readable(),
        ensures
            game.steps@.len() == trace.move_positions@.len(),
            forall|t: int| 0 <= t < game.steps@.len() ==> {
                let step = #[trigger] game.steps@[t];
                let pos = trace.move_positions@[t] as int;
                &&& step.board_before.decodes(trace.black_bitboards@[t], trace.white_bitboards@[t])
                &&& step.player == trace.mover(t)
                &&& step.move_cell == CellCoord::at(pos % 6, pos / 6)
                &&& step.is_pass == trace.passes@[t]
            },
            game.final_board.decodes(trace.black_bitboards@.last(), trace.white_bitboards@.last()),
    {
        let mut steps: Vec<GameStep> = Vec::new();
        let mut t: usize = 0;
        while t < trace.move_positions.len()
            invariant
                trace.is_readable(),
                t <= trace.move_positions@.len(),
                steps@.len() == t,
                forall|j: int| 0 <= j < t ==> {
                    let step = #[trigger] steps@[j];
                    let pos = trace.move_positions@[j] as int;
                    &&& step.board_before.decodes(trace.black_bitboards@[j], trace.white_bitboards@[j])
                    &&& step.player == trace.mover(j)
                    &&& step.move_cell == CellCoord::at(pos % 6, pos / 6)
                    &&& step.is_pass == trace.passes@[j]
                },
            decreases trace.move_positions@.len() - t,
        {
            let board_before = Board::from_bitboards(trace.black_bitboards[t], trace.white_bitboards[t]);

            let prev_is_black = if t < trace.is_black_turns.len() {
                trace.is_black_turns[t]
            } else {
                true  // Default to black for first move
            };

            let is_pass = trace.passes[t];
            let actual_player_is_black = if is_pass {
                !prev_is_black
            } else {
                prev_is_black
            };

            let player = if actual_player_is_black {
                PlayerColor::Black
            } else {
                PlayerColor::White
            };

            let move_pos = trace.move_positions[t];
            assert(move_pos < 36);
            let col = move_pos % 6;
            let row = move_pos / 6;
            let move_cell = CellCoord::new(col, row);

            steps.push(GameStep { board_before, player, move_cell, is_pass });
            t += 1;
        }

        let final_board = Board::from_bitboards(
            trace.black_bitboards[trace.black_bitboards.len() - 1],
            trace.white_bitboards[trace.white_bitboards.len() - 1],
        );

        GameTrace { steps, final_board }
    }
}

/// Whether `c` is ASCII whitespace (space, tab, line feed, form feed,
/// carriage return).
pub open spec fn is_blank(c: char) -> bool {
    c == ' ' || c == '\t' || c == '\n' || c == '\r' || c == '\x0c'
}

/// The value of `c` as a digit in base `radix`, where it is one.
pub open spec fn digit_value(c: char, radix: int) -> Option<int> {
    let v = if '0' <= c <= '9' {
        c as int - 48
    } else if 'a' <= c <= 'z' {
        c as int - 97 + 10
    } else if 'A' <= c <= 'Z' {
        c as int - 65 + 10
    } else {
        radix
    };
    if v < radix {
        Some(v)
    } else {
        None
    }
}

/// Whether every character of `s` is a digit in base `radix`.
pub open spec fn all_digits(s: Seq<char>, radix: int) -> bool {
    forall|i: int| 0 <= i < s.len() ==> #[trigger] digit_value(s[i], radix) is Some
}

/// The number that the digits `s` (most significant first) write in base
/// `radix`.
pub open spec fn digits_value(s: Seq<char>, radix: int) -> int
    decreases s.len(),
{
    if s.len() == 0 {
        0
    } else {
        digits_value(s.drop_last(), radix) * radix + digit_value(s.last(), radix).unwrap()
    }
}

/// The unsigned number that `t` writes in base `radix`: an optional `+`
/// then at least one digit; `None` for anything else or for a value above
/// `max`.
pub open spec fn unsigned_value(t: Seq<char>, radix: int, max: int) -> Option<int> {
    let body = if t.len() > 0 && t[0] == '+' {
        t.drop_first()
    } else {
        t
    };
    if body.len() > 0 && all_digits(body, radix) && digits_value(body, radix) <= max {
        Some(digits_value(body, radix))
    } else {
        None
    }
}

/// Number of blank characters at the start of `s`.
pub open spec fn leading_blanks(s: Seq<char>) -> int
    decreases s.len(),
{
    if s.len() > 0 && is_blank(s[0]) {
        1 + leading_blanks(s.drop_first())
    } else {
        0
    }
}

/// Number of blank characters at the end of `s`.
pub open spec fn trailing_blanks(s: Seq<char>) -> int
    decreases s.len(),
{
    if s.len() > 0 && is_blank(s.last()) {
        1 + trailing_blanks(s.drop_last())
    } else {
        0
    }
}

/// `s` without blanks at either end.
pub open spec fn trimmed(s: Seq<char>) -> Seq<char> {
    let a = leading_blanks(s);
    if a == s.len() {
        seq![]
    } else {
        s.subrange(a, s.len() - trailing_blanks(s))
    }
}

/// The value that a model gives as text: `#b` then binary digits, `#x`
/// then hexadecimal digits, or decimal digits, with blanks around; `None`
/// for other text or a value above `max`.
pub open spec fn model_number(s: Seq<char>, max: int) -> Option<int> {
    let t = trimmed(s);
    if t.len() >= 2 && t[0] == '#' && t[1] == 'b' {
        unsigned_value(t.subrange(2, t.len() as int), 2, max)
    } else if t.len() >= 2 && t[0] == '#' && t[1] == 'x' {
        unsigned_value(t.subrange(2, t.len() as int), 16, max)
    } else {
        unsigned_value(t, 10, max)
    }
}

/// The truth value that a model gives as text: `true` or `false`, with
/// blanks around; `None` for other text.
pub open spec fn model_bool(s: Seq<char>) -> Option<bool> {
    let t = trimmed(s);
    if t == seq!['t', 'r', 'u', 'e'] {
        Some(true)
    } else if t == seq!['f', 'a', 'l', 's', 'e'] {
        Some(false)
    } else {
        None
    }
}

proof fn lemma_leading_blanks_bound(s: Seq<char>)
    ensures
        0 <= leading_blanks(s) <= s.len(),
        forall|i: int| 0 <= i < leading_blanks(s) ==> is_blank(#[trigger] s[i]),
        leading_blanks(s) < s.len() ==> !is_blank(s[leading_blanks(s)]),
    decreases s.len(),
{
    if s.len() > 0 && is_blank(s[0]) {
        lemma_leading_blanks_bound(s.drop_first());
        assert forall|i: int| 0 <= i < leading_blanks(s) implies is_blank(#[trigger] s[i]) by {
            if i > 0 {
                assert(s[i] == s.drop_first()[i - 1]);
            }
        }
    }
}

proof fn lemma_trailing_blanks_bound(s: Seq<char>)
    ensures
        0 <= trailing_blanks(s) <= s.len(),
        forall|i: int| s.len() - trailing_blanks(s) <= i < s.len() ==> is_blank(#[trigger] s[i]),
        trailing_blanks(s) < s.len() ==> !is_blank(s[s.len() - 1 - trailing_blanks(s)]),
    decreases s.len(),
{
    if s.len() > 0 && is_blank(s.last()) {
        lemma_trailing_blanks_bound(s.drop_last());
        assert forall|i: int| s.len() - trailing_blanks(s) <= i < s.len() implies is_blank(#[trigger] s[i]) by {
            if i < s.len() - 1 {
                assert(s[i] == s.drop_last()[i]);
            }
        }
    }
}

/// A blank-free character stops both counts of blanks.
proof fn lemma_blank_counts(s: Seq<char>, a: int, b: int)
    requires
        0 <= a <= b <= s.len(),
        forall|i: int| 0 <= i < a ==> is_blank(#[trigger] s[i]),
        forall|i: int| b <= i < s.len() ==> is_blank(#[trigger] s[i]),
        a < b ==> !is_blank(s[a]) && !is_blank(s[b - 1]),
        a == b ==> b == s.len(),
    ensures
        trimmed(s) == s.subrange(a, b),
{
    lemma_leading_blanks_bound(s);
    lemma_trailing_blanks_bound(s);
    let la = leading_blanks(s);
    let tb = trailing_blanks(s);
    if a < b {
        assert(la == a) by {
            if la < a {
                assert(is_blank(s[la]));
            } else if la > a {
                assert(is_blank(s[a]));
            }
        }
        assert(s.len() - tb == b) by {
            if s.len() - tb > b {
                assert(is_blank(s[s.len() - 1 - tb]));
            } else if s.len() - tb < b {
                assert(is_blank(s[b - 1]));
            }
        }
    } else {
        assert(la == s.len()) by {
            if la < s.len() {
                assert(is_blank(s[la]));
            }
        }
        assert(s.subrange(a, b) =~= seq![]);
    }
}

/// The position of the first and one past the last character of `s` that
/// is not blank, as `trimmed` cuts it.
fn trim_bounds(s: &str) -> (bounds: (usize, usize))
    ensures
        bounds.0 <= bounds.1 <= s@.len(),
        trimmed(s@) == s@.subrange(bounds.0 as int, bounds.1 as int),
{
    let len = s.unicode_len();
    let mut a: usize = 0;
    while a < len && is_blank_exec(s.get_char(a))
        invariant
            len == s@.len(),
            a <= len,
            forall|i: int| 0 <= i < a ==> is_blank(#[trigger] s@[i]),
        decreases len - a,
    {
        a += 1;
    }
    let mut b: usize = len;
    while b > a && is_blank_exec(s.get_char(b - 1))
        invariant
            len == s@.len(),
            a <= b <= len,
            forall|i: int| b <= i < len ==> is_blank(#[trigger] s@[i]),
        decreases b,
    {
        b -= 1;
    }
    proof {
        lemma_blank_counts(s@, a as int, b as int);
    }
    (a, b)
}

fn is_blank_exec(c: char) -> (blank: bool)
    ensures
        blank == is_blank(c),
{
    c == ' ' || c == '\t' || c == '\n' || c == '\r' || c == '\x0c'
}

fn digit_value_exec(c: char, radix: u32) -> (v: Option<u32>)
    requires
        2 <= radix <= 36,
    ensures
        v matches Some(d) ==> digit_value(c, radix as int) == Some(d as int),
        v is None ==> digit_value(c, radix as int) is None,
{
    let v: u32 = if '0' <= c && c <= '9' {
        c as u32 - 48
    } else if 'a' <= c && c <= 'z' {
        c as u32 - 97 + 10
    } else if 'A' <= c && c <= 'Z' {
        c as u32 - 65 + 10
    } else {
        radix
    };
    if v < radix {
        Some(v)
    } else {
        None
    }
}

/// A value written with digits only grows when digits are appended.
proof fn lemma_digits_value_grows(s: Seq<char>, n: int, radix: int)
    requires
        2 <= radix,
        0 <= n <= s.len(),
        all_digits(s, radix),
    ensures
        0 <= digits_value(s.take(n), radix) <= digits_value(s, radix),
    decreases s.len(),
{
    if s.len() > 0 {
        if n == s.len() {
            assert(s.take(n) =~= s);
            lemma_digits_value_grows(s.drop_last(), s.len() - 1, radix);
            assert(s.drop_last().take(s.len() - 1) =~= s.drop_last());
        } else {
            assert(all_digits(s.drop_last(), radix)) by {
                assert forall|i: int| 0 <= i < s.drop_last().len() implies #[trigger] digit_value(s.drop_last()[i], radix) is Some by {
                    assert(s.drop_last()[i] == s[i]);
                }
            }
            lemma_digits_value_grows(s.drop_last(), n, radix);
            assert(s.drop_last().take(n) =~= s.take(n));
            lemma_digits_value_grows(s.drop_last(), s.len() - 1, radix);
            assert(s.drop_last().take(s.len() - 1) =~= s.drop_last());
            assert(digit_value(s.last(), radix) is Some);
            assert(digits_value(s.drop_last(), radix) * radix >= digits_value(s.drop_last(), radix)) by (nonlinear_arith)
                requires
                    digits_value(s.drop_last(), radix) >= 0,
                    radix >= 2,
            ;
        }
    }
}

/// Parses the characters `from..to` of `s` as an unsigned number in base
/// `radix` (an optional `+`, then digits); `None` where that is not such a
/// number or its value is above `max`.
fn parse_unsigned(s: &str, from: usize, to: usize, radix: u32, max: u64) -> (value: Option<u64>)
    requires
        from <= to <= s@.len(),
        2 <= radix <= 16,
    ensures
        value matches Some(v) ==> unsigned_value(s@.subrange(from as int, to as int), radix as int, max as int) == Some(v as int),
        value is None ==> unsigned_value(s@.subrange(from as int, to as int), radix as int, max as int) is None,
{
    let ghost t = s@.subrange(from as int, to as int);
    let mut start = from;
    if from < to && s.get_char(from) == '+' {
        start = from + 1;
    }
    let ghost body = s@.subrange(start as int, to as int);
    assert(body =~= if t.len() > 0 && t[0] == '+' { t.drop_first() } else { t });
    if start == to {
        return None;
    }
    let mut acc: u64 = 0;
    let mut i: usize = start;
    while i < to
        invariant
            start <= i <= to <= s@.len(),
            start < to,
            2 <= radix <= 16,
            body == s@.subrange(start as int, to as int),
            t == s@.subrange(from as int, to as int),
            body == if t.len() > 0 && t[0] == '+' { t.drop_first() } else { t },
            all_digits(body.take(i - start), radix as int),
            acc == digits_value(body.take(i - start), radix as int),
            acc <= max,
        decreases to - i,
    {
        let c = s.get_char(i);
        let ghost k = i - start;
        assert(body[k] == c);
        match digit_value_exec(c, radix) {
            None => {
                assert(!all_digits(body, radix as int)) by {
                    assert(digit_value(body[k], radix as int) is None);
                }
                return None;
            },
            Some(d) => {
                proof {
                    assert(body.take(k + 1).drop_last() =~= body.take(k));
                    assert(body.take(k + 1).last() == c);
                    assert(all_digits(body.take(k + 1), radix as int)) by {
                        assert forall|j: int| 0 <= j < k + 1 implies #[trigger] digit_value(body.take(k + 1)[j], radix as int) is Some by {
                            if j < k {
                                assert(body.take(k + 1)[j] == body.take(k)[j]);
                            }
                        }
                    }
                }
                assert(acc as u128 * radix as u128 <= u64::MAX as u128 * 16) by (nonlinear_arith)
                    requires
                        acc <= u64::MAX,
                        radix <= 16,
                ;
                let next = acc as u128 * radix as u128 + d as u128;
                assert(next == digits_value(body.take(k + 1), radix as int));
                if next > max as u128 {
                    proof {
                        if all_digits(body, radix as int) {
                            lemma_digits_value_grows(body, k + 1, radix as int);
                        }
                    }
                    return None;
                }
                acc = next as u64;
                i += 1;
            },
        }
    }
    proof {
        assert(body.take(i - start) =~= body);
    }
    Some(acc)
}

/// Parses a bit-vector value from solver output: `#b` then binary digits,
/// `#x` then hexadecimal digits, or decimal digits, with blanks around.
/// `None` where the text is none of these or the value exceeds `max`.
fn parse_model_number(s: &str, max: u64) -> (value: Option<u64>)
    ensures
        value matches Some(v) ==> model_number(s@, max as int) == Some(v as int),
        value is None ==> model_number(s@, max as int) is None,
{
    let (a, b) = trim_bounds(s);
    let ghost t = trimmed(s@);
    assert(t.len() == b - a);
    if b - a >= 2 && s.get_char(a) == '#' && s.get_char(a + 1) == 'b' {
        assert(t.subrange(2, t.len() as int) =~= s@.subrange(a + 2, b as int));
        parse_unsigned(s, a + 2, b, 2, max)
    } else if b - a >= 2 && s.get_char(a) == '#' && s.get_char(a + 1) == 'x' {
        assert(t.subrange(2, t.len() as int) =~= s@.subrange(a + 2, b as int));
        parse_unsigned(s, a + 2, b, 16, max)
    } else {
        parse_unsigned(s, a, b, 10, max)
    }
}

/// Parse a bitvector value from SMT solver output
/// Handles formats like "#b000000", "#x00", "0", etc.
pub(crate) fn parse_bitvector_value(s: &str) -> (value: Option<u8>)
    ensures
        value matches Some(v) ==> model_number(s@, 255) == Some(v as int),
        value is None ==> model_number(s@, 255) is None,
{
    match parse_model_number(s, 255) {
        Some(v) => Some(v as u8),
        None => None,
    }
}

/// Parse a 36-bit bitboard value from SMT solver output
pub(crate) fn parse_bitboard_value(s: &str) -> (value: Option<u64>)
    ensures
        value matches Some(v) ==> model_number(s@, u64::MAX as int) == Some(v as int),
        value is None ==> model_number(s@, u64::MAX as int) is None,
{
    parse_model_number(s, u64::MAX)
}

/// Parse a boolean value from SMT solver output
pub(crate) fn parse_bool_value(s: &str) -> (value: Option<bool>)
    ensures
        value == model_bool(s@),
{
    let (a, b) = trim_bounds(s);
    let ghost t = trimmed(s@);
    assert(t.len() == b - a);
    if b - a == 4 && s.get_char(a) == 't' && s.get_char(a + 1) == 'r' && s.get_char(a + 2) == 'u' && s.get_char(a + 3) == 'e' {
        assert(t =~= seq!['t', 'r', 'u', 'e']);
        Some(true)
    } else if b - a == 5 && s.get_char(a) == 'f' && s.get_char(a + 1) == 'a' && s.get_char(a + 2) == 'l' && s.get_char(a + 3) == 's'
        && s.get_char(a + 4) == 'e' {
        assert(t =~= seq!['f', 'a', 'l', 's', 'e']);
        Some(false)
    } else {
        proof {
            if t == seq!['t', 'r', 'u', 'e'] {
                assert(t[0] == s@[a as int] && t[1] == s@[a + 1] && t[2] == s@[a + 2] && t[3] == s@[a + 3]);
            }
            if t == seq!['f', 'a', 'l', 's', 'e'] {
                assert(t[0] == s@[a as int] && t[1] == s@[a + 1] && t[2] == s@[a + 2] && t[3] == s@[a + 3] && t[4] == s@[a + 4]);
            }
        }
        None
    }
}

/// Column A: bits 0, 6, 12, 18, 24, 30.
pub const LEFT_EDGE: u64 = 0x041041041;

/// Column F: bits 5, 11, 17, 23, 29, 35.
pub const RIGHT_EDGE: u64 = 0x820820820;

/// `LEFT_EDGE` holds exactly the cells of column A, `RIGHT_EDGE` exactly
/// those of column F.
pub proof fn lemma_edge_masks(i: u64)
    requires
        i < 64,
    ensures
        ((LEFT_EDGE >> i) & 1u64 == 1u64) <==> (i < 36 && i % 6 == 0),
        ((RIGHT_EDGE >> i) & 1u64 == 1u64) <==> (i < 36 && i % 6 == 5),
{
    assert(((0x041041041u64 >> i) & 1u64 == 1u64) <==> (i < 36 && i % 6 == 0)) by (bit_vector)
        requires
            i < 64,
    ;
    assert(((0x820820820u64 >> i) & 1u64 == 1u64) <==> (i < 36 && i % 6 == 5)) by (bit_vector)
        requires
            i < 64,
    ;
}

/// Result of generating Reversi constraints for SMT solving: the arena of
/// terms, the constraints, and the terms of the constants.
pub struct ReversiConstraints {
    pub nodes: Vec<Node>,
    pub constraints: Vec<usize>,
    pub move_positions: Vec<usize>,
    pub black_boards: Vec<usize>,
    pub white_boards: Vec<usize>,
    pub is_black_turn: Vec<usize>,
    pub passes: Vec<usize>,
}

/// Helper function to compute which pieces would be flipped in a specific direction.
/// Returns a bitvector mask of pieces that would be flipped.
///
/// The direction is `(dx, dy)`: the step shifts by `6 * dy + dx` cells and
/// first drops the cells of the edge `edge_for(dx)`. The term denotes
/// `direction_flips` of what the move mask and the two boards denote.
fn compute_flips_in_direction(
    nodes: &mut Vec<Node>,
    move_mask: usize,
    player_board: usize,
    opponent_board: usize,
    shift_amount: i32,
    edge_mask: u64,
    Ghost(dx): Ghost<int>,
    Ghost(dy): Ghost<int>,
) -> (flips: usize)
    requires
        move_mask < old(nodes)@.len(),
        player_board < old(nodes)@.len(),
        opponent_board < old(nodes)@.len(),
        -1 <= dx <= 1,
        -1 <= dy <= 1,
        shift_amount == 6 * dy + dx,
        edge_mask == edge_for(dx),
    ensures
        extends(old(nodes)@, final(nodes)@),
        flips < final(nodes)@.len(),
        forall|m: spec_fn(Var) -> Value|
            bits_of(#[trigger] eval(final(nodes)@, flips as int, m)) == direction_flips(
                bits_of(eval(old(nodes)@, move_mask as int, m)),
                bits_of(eval(old(nodes)@, player_board as int, m)),
                bits_of(eval(old(nodes)@, opponent_board as int, m)),
                dx,
                dy,
            ),
{
    let ghost start = nodes@;
    let zero_bv = term::lit(nodes, 36, 0);
    let edge_mask_expr = term::lit(nodes, 36, edge_mask);

    // The step by `shift_amount` cells: a left shift for a positive amount,
    // a logical right shift for a negative one.
    let step_amount: u64 = if shift_amount > 0 {
        shift_amount as u64
    } else {
        (-shift_amount) as u64
    };
    let step_expr = term::lit(nodes, 36, step_amount);

    // Start from the move position
    let mut current = move_mask;

    // Collect positions that might flip
    let mut candidate_flips: Vec<usize> = Vec::new();

    // Traverse up to 5 steps (max distance on 6x6 board)
    let mut step: usize = 0;
    while step < 5
        invariant
            step <= 5,
            candidate_flips@.len() == step,
            extends(start, nodes@),
            move_mask < start.len(),
            player_board < start.len(),
            opponent_board < start.len(),
            zero_bv < nodes@.len(),
            edge_mask_expr < nodes@.len(),
            step_expr < nodes@.len(),
            current < nodes@.len(),
            -1 <= dx <= 1,
            -1 <= dy <= 1,
            shift_amount == 6 * dy + dx,
            edge_mask == edge_for(dx),
            step_amount == if shift_amount > 0 { shift_amount as u64 } else { (-shift_amount) as u64 },
            forall|m: spec_fn(Var) -> Value| #[trigger] eval(nodes@, zero_bv as int, m) == Value::Bits(0),
            forall|m: spec_fn(Var) -> Value| #[trigger] eval(nodes@, edge_mask_expr as int, m) == Value::Bits(edge_mask),
            forall|m: spec_fn(Var) -> Value| #[trigger] eval(nodes@, step_expr as int, m) == Value::Bits(step_amount),
            forall|m: spec_fn(Var) -> Value|
                bits_of(#[trigger] eval(nodes@, current as int, m)) == walk_state(
                    bits_of(eval(start, move_mask as int, m)),
                    bits_of(eval(start, player_board as int, m)),
                    bits_of(eval(start, opponent_board as int, m)),
                    dx,
                    dy,
                    step as nat,
                ).0,
            forall|k: int| 0 <= k < step ==> #[trigger] candidate_flips@[k] < nodes@.len(),
            forall|k: int, m: spec_fn(Var) -> Value|
                0 <= k < step ==> bits_of(#[trigger] eval(nodes@, candidate_flips@[k] as int, m)) == walk_state(
                    bits_of(eval(start, move_mask as int, m)),
                    bits_of(eval(start, player_board as int, m)),
                    bits_of(eval(start, opponent_board as int, m)),
                    dx,
                    dy,
                    (k + 1) as nat,
                ).0,
        decreases 5 - step,
    {
        let ghost before = nodes@;
        let ghost before_cands = candidate_flips@;
        let ghost old_current = current;
        // Apply edge mask BEFORE shifting to prevent wrapping
        let not_edge = term::bv_not(nodes, edge_mask_expr);
        let masked = term::bv_and(nodes, current, not_edge);
        current = if shift_amount > 0 {
            term::bv_shl(nodes, masked, step_expr)
        } else {
            term::bv_lshr(nodes, masked, step_expr)
        };
        candidate_flips.push(current);
        proof {
            assert forall|m: spec_fn(Var) -> Value|
                bits_of(#[trigger] eval(nodes@, current as int, m)) == walk_state(
                    bits_of(eval(start, move_mask as int, m)),
                    bits_of(eval(start, player_board as int, m)),
                    bits_of(eval(start, opponent_board as int, m)),
                    dx,
                    dy,
                    (step + 1) as nat,
                ).0 by {
                let w = walk_state(
                    bits_of(eval(start, move_mask as int, m)),
                    bits_of(eval(start, player_board as int, m)),
                    bits_of(eval(start, opponent_board as int, m)),
                    dx,
                    dy,
                    step as nat,
                );
                assert(bits_of(eval(before, old_current as int, m)) == w.0);
                assert(bits_of(eval(nodes@, current as int, m)) == advance(w.0, dx, dy));
            }
            assert forall|k: int, m: spec_fn(Var) -> Value|
                0 <= k < step + 1 implies bits_of(#[trigger] eval(nodes@, candidate_flips@[k] as int, m)) == walk_state(
                    bits_of(eval(start, move_mask as int, m)),
                    bits_of(eval(start, player_board as int, m)),
                    bits_of(eval(start, opponent_board as int, m)),
                    dx,
                    dy,
                    (k + 1) as nat,
                ).0 by {
                if k < step {
                    assert(candidate_flips@[k] == before_cands[k]);
                    assert(eval(nodes@, candidate_flips@[k] as int, m) == eval(before, candidate_flips@[k] as int, m));
                }
            }
        }
        step += 1;
    }

    // Now check which prefix of candidate_flips forms a valid sandwich
    // We need: opponent+, player (where + means 1 or more)
    let mut result = zero_bv;
    let mut accumulated_opponents = zero_bv;

    // Track whether the chain is still valid (not broken by empty cell or player piece)
    let mut chain_valid = term::eq(nodes, zero_bv, zero_bv);  // Start with true

    let mut k: usize = 0;
    while k < candidate_flips.len()
        invariant
            k <= candidate_flips@.len(),
            candidate_flips@.len() == 5,
            extends(start, nodes@),
            move_mask < start.len(),
            player_board < start.len(),
            opponent_board < start.len(),
            zero_bv < nodes@.len(),
            result < nodes@.len(),
            accumulated_opponents < nodes@.len(),
            chain_valid < nodes@.len(),
            forall|m: spec_fn(Var) -> Value| #[trigger] eval(nodes@, zero_bv as int, m) == Value::Bits(0),
            forall|k2: int| 0 <= k2 < 5 ==> #[trigger] candidate_flips@[k2] < nodes@.len(),
            forall|k2: int, m: spec_fn(Var) -> Value|
                0 <= k2 < 5 ==> bits_of(#[trigger] eval(nodes@, candidate_flips@[k2] as int, m)) == walk_state(
                    bits_of(eval(start, move_mask as int, m)),
                    bits_of(eval(start, player_board as int, m)),
                    bits_of(eval(start, opponent_board as int, m)),
                    dx,
                    dy,
                    (k2 + 1) as nat,
                ).0,
            forall|m: spec_fn(Var) -> Value| {
                let w = walk_state(
                    bits_of(eval(start, move_mask as int, m)),
                    bits_of(eval(start, player_board as int, m)),
                    bits_of(eval(start, opponent_board as int, m)),
                    dx,
                    dy,
                    k as nat,
                );
                &&& bits_of(#[trigger] eval(nodes@, result as int, m)) == w.1
                &&& bits_of(eval(nodes@, accumulated_opponents as int, m)) == w.2
                &&& eval(nodes@, chain_valid as int, m) == Value::Truth(w.3)
            },
        decreases candidate_flips@.len() - k,
    {
        let ghost before = nodes@;
        let candidate_pos = candidate_flips[k];
        // Check what's at this position
        let at_opponent = term::bv_and(nodes, candidate_pos, opponent_board);
        let has_opponent = term::distinct(nodes, at_opponent, zero_bv);
        let at_player = term::bv_and(nodes, candidate_pos, player_board);
        let has_player = term::distinct(nodes, at_player, zero_bv);

        // Only accumulate opponents if chain is still valid
        let extend = term::and(nodes, chain_valid, has_opponent);
        let extended = term::bv_or(nodes, accumulated_opponents, candidate_pos);
        accumulated_opponents = term::ite(nodes, extend, extended, accumulated_opponents);

        // Finalize flips if chain valid and we hit a player cell
        let closes = term::and(nodes, chain_valid, has_player);
        result = term::ite(nodes, closes, accumulated_opponents, result);

        // Keep chain valid only while we see opponent cells
        chain_valid = term::and(nodes, chain_valid, has_opponent);
        proof {
            assert forall|m: spec_fn(Var) -> Value| {
                let w = walk_state(
                    bits_of(eval(start, move_mask as int, m)),
                    bits_of(eval(start, player_board as int, m)),
                    bits_of(eval(start, opponent_board as int, m)),
                    dx,
                    dy,
                    (k + 1) as nat,
                );
                &&& bits_of(#[trigger] eval(nodes@, result as int, m)) == w.1
                &&& bits_of(eval(nodes@, accumulated_opponents as int, m)) == w.2
                &&& eval(nodes@, chain_valid as int, m) == Value::Truth(w.3)
            } by {
                assert(eval(nodes@, candidate_pos as int, m) == eval(before, candidate_pos as int, m));
                assert(eval(nodes@, opponent_board as int, m) == eval(start, opponent_board as int, m));
                assert(eval(nodes@, player_board as int, m) == eval(start, player_board as int, m));
            }
        }
        k += 1;
    }
    proof {
        assert forall|m: spec_fn(Var) -> Value|
            bits_of(#[trigger] eval(nodes@, result as int, m)) == direction_flips(
                bits_of(eval(start, move_mask as int, m)),
                bits_of(eval(start, player_board as int, m)),
                bits_of(eval(start, opponent_board as int, m)),
                dx,
                dy,
            ) by {
            lemma_walk_state(
                bits_of(eval(start, move_mask as int, m)),
                bits_of(eval(start, player_board as int, m)),
                bits_of(eval(start, opponent_board as int, m)),
                dx,
                dy,
                5,
                5,
            );
        }
    }
    result
}

/// Computes all pieces that would be flipped by a move: a term that denotes
/// `all_flips` of what the move mask and the two boards denote.
#[verifier::rlimit(100)]
#[verifier::spinoff_prover]
fn compute_all_flips(nodes: &mut Vec<Node>, move_mask: usize, player_board: usize, opponent_board: usize) -> (flips: usize)
    requires
        move_mask < old(nodes)@.len(),
        player_board < old(nodes)@.len(),
        opponent_board < old(nodes)@.len(),
    ensures
        extends(old(nodes)@, final(nodes)@),
        flips < final(nodes)@.len(),
        forall|m: spec_fn(Var) -> Value|
            #[trigger] eval(final(nodes)@, flips as int, m) == Value::Bits(
                all_flips(
                    bits_of(eval(old(nodes)@, move_mask as int, m)),
                    bits_of(eval(old(nodes)@, player_board as int, m)),
                    bits_of(eval(old(nodes)@, opponent_board as int, m)),
                ),
            ),
{
    let ghost start = nodes@;
    // Compute flips in all 8 directions
    // North (-6): no left/right edge issues
    let flips_n = compute_flips_in_direction(nodes, move_mask, player_board, opponent_board, -6, 0, Ghost(0), Ghost(-1));
    let ghost s1 = nodes@;

    // South (+6): no left/right edge issues
    let flips_s = compute_flips_in_direction(nodes, move_mask, player_board, opponent_board, 6, 0, Ghost(0), Ghost(1));
    let ghost s2 = nodes@;

    // East (+1): can't wrap from right edge
    let flips_e = compute_flips_in_direction(nodes, move_mask, player_board, opponent_board, 1, RIGHT_EDGE, Ghost(1), Ghost(0));
    let ghost s3 = nodes@;

    // West (-1): can't wrap from left edge
    let flips_w = compute_flips_in_direction(nodes, move_mask, player_board, opponent_board, -1, LEFT_EDGE, Ghost(-1), Ghost(0));
    let ghost s4 = nodes@;

    // NE (-5 = -6+1): can't wrap from right edge
    let flips_ne = compute_flips_in_direction(nodes, move_mask, player_board, opponent_board, -5, RIGHT_EDGE, Ghost(1), Ghost(-1));
    let ghost s5 = nodes@;

    // NW (-7 = -6-1): can't wrap from left edge
    let flips_nw = compute_flips_in_direction(nodes, move_mask, player_board, opponent_board, -7, LEFT_EDGE, Ghost(-1), Ghost(-1));
    let ghost s6 = nodes@;

    // SE (+7 = +6+1): can't wrap from right edge
    let flips_se = compute_flips_in_direction(nodes, move_mask, player_board, opponent_board, 7, RIGHT_EDGE, Ghost(1), Ghost(1));
    let ghost s7 = nodes@;

    // SW (+5 = +6-1): can't wrap from left edge
    let flips_sw = compute_flips_in_direction(nodes, move_mask, player_board, opponent_board, 5, LEFT_EDGE, Ghost(-1), Ghost(1));
    let ghost s8 = nodes@;

    // Combine all flips
    let mut total = flips_n;
    total = term::bv_or(nodes, total, flips_s);
    let ghost t1 = total;
    total = term::bv_or(nodes, total, flips_e);
    let ghost t2 = total;
    total = term::bv_or(nodes, total, flips_w);
    let ghost t3 = total;
    total = term::bv_or(nodes, total, flips_ne);
    let ghost t4 = total;
    total = term::bv_or(nodes, total, flips_nw);
    let ghost t5 = total;
    total = term::bv_or(nodes, total, flips_se);
    let ghost t6 = total;
    total = term::bv_or(nodes, total, flips_sw);

    proof {
        assert forall|m: spec_fn(Var) -> Value|
            #[trigger] eval(nodes@, total as int, m) == Value::Bits(
                all_flips(
                    bits_of(eval(start, move_mask as int, m)),
                    bits_of(eval(start, player_board as int, m)),
                    bits_of(eval(start, opponent_board as int, m)),
                ),
            ) by {
            assert(eval(s1, move_mask as int, m) == eval(start, move_mask as int, m));
            assert(eval(s2, move_mask as int, m) == eval(start, move_mask as int, m));
            assert(eval(s3, move_mask as int, m) == eval(start, move_mask as int, m));
            assert(eval(s4, move_mask as int, m) == eval(start, move_mask as int, m));
            assert(eval(s5, move_mask as int, m) == eval(start, move_mask as int, m));
            assert(eval(s6, move_mask as int, m) == eval(start, move_mask as int, m));
            assert(eval(s7, move_mask as int, m) == eval(start, move_mask as int, m));
            assert(eval(s1, player_board as int, m) == eval(start, player_board as int, m));
            assert(eval(s2, player_board as int, m) == eval(start, player_board as int, m));
            assert(eval(s3, player_board as int, m) == eval(start, player_board as int, m));
            assert(eval(s4, player_board as int, m) == eval(start, player_board as int, m));
            assert(eval(s5, player_board as int, m) == eval(start, player_board as int, m));
            assert(eval(s6, player_board as int, m) == eval(start, player_board as int, m));
            assert(eval(s7, player_board as int, m) == eval(start, player_board as int, m));
            assert(eval(s1, opponent_board as int, m) == eval(start, opponent_board as int, m));
            assert(eval(s2, opponent_board as int, m) == eval(start, opponent_board as int, m));
            assert(eval(s3, opponent_board as int, m) == eval(start, opponent_board as int, m));
            assert(eval(s4, opponent_board as int, m) == eval(start, opponent_board as int, m));
            assert(eval(s5, opponent_board as int, m) == eval(start, opponent_board as int, m));
            assert(eval(s6, opponent_board as int, m) == eval(start, opponent_board as int, m));
            assert(eval(s7, opponent_board as int, m) == eval(start, opponent_board as int, m));
            assert(eval(nodes@, flips_n as int, m) == eval(s1, flips_n as int, m));
            assert(eval(nodes@, flips_s as int, m) == eval(s2, flips_s as int, m));
            assert(eval(nodes@, flips_e as int, m) == eval(s3, flips_e as int, m));
            assert(eval(nodes@, flips_w as int, m) == eval(s4, flips_w as int, m));
            assert(eval(nodes@, flips_ne as int, m) == eval(s5, flips_ne as int, m));
            assert(eval(nodes@, flips_nw as int, m) == eval(s6, flips_nw as int, m));
            assert(eval(nodes@, flips_se as int, m) == eval(s7, flips_se as int, m));
            assert(eval(nodes@, flips_sw as int, m) == eval(s8, flips_sw as int, m));
        }
    }
    total
}

/// Checks if a player has any legal moves on the current board: a term that
/// denotes `has_legal_move_value` of what the two boards and the placement
/// set denote.
#[verifier::rlimit(100)]
#[verifier::spinoff_prover]
fn has_legal_move(nodes: &mut Vec<Node>, player_board: usize, opponent_board: usize, player_can_place: usize) -> (any: usize)
    requires
        player_board < old(nodes)@.len(),
        opponent_board < old(nodes)@.len(),
        player_can_place < old(nodes)@.len(),
    ensures
        extends(old(nodes)@, final(nodes)@),
        any < final(nodes)@.len(),
        forall|m: spec_fn(Var) -> Value|
            #[trigger] eval(final(nodes)@, any as int, m) == Value::Truth(
                has_legal_move_value(
                    bits_of(eval(old(nodes)@, player_board as int, m)),
                    bits_of(eval(old(nodes)@, opponent_board as int, m)),
                    bits_of(eval(old(nodes)@, player_can_place as int, m)),
                ),
            ),
{
    let ghost start = nodes@;
    let zero_bv = term::lit(nodes, 36, 0);
    let occupied = term::bv_or(nodes, player_board, opponent_board);
    let empty_cells = term::bv_not(nodes, occupied);

    let mut any_legal = zero_bv;

    // Check all 36 positions
    let mut pos: u64 = 0;
    while pos < 36
        invariant
            pos <= 36,
            extends(start, nodes@),
            player_board < start.len(),
            opponent_board < start.len(),
            player_can_place < start.len(),
            zero_bv < nodes@.len(),
            empty_cells < nodes@.len(),
            any_legal < nodes@.len(),
            forall|m: spec_fn(Var) -> Value| #[trigger] eval(nodes@, zero_bv as int, m) == Value::Bits(0),
            forall|m: spec_fn(Var) -> Value|
                #[trigger] eval(nodes@, empty_cells as int, m) == Value::Bits(
                    BOARD_BITS & !(bits_of(eval(start, player_board as int, m)) | bits_of(eval(start, opponent_board as int, m))),
                ),
            forall|m: spec_fn(Var) -> Value|
                pos > 0 ==> #[trigger] eval(nodes@, any_legal as int, m) == Value::Truth(
                    legal_move_among(
                        bits_of(eval(start, player_board as int, m)),
                        bits_of(eval(start, opponent_board as int, m)),
                        bits_of(eval(start, player_can_place as int, m)),
                        pos as nat,
                    ),
                ),
        decreases 36 - pos,
    {
        let ghost before = nodes@;
        let pos_mask = term::lit(nodes, 36, 1u64 << pos);

        // Check if position is empty
        let empty_at = term::bv_and(nodes, empty_cells, pos_mask);
        let is_empty = term::distinct(nodes, empty_at, zero_bv);

        // Check if this move would flip any pieces
        let ghost before_flips = nodes@;
        let flips = compute_all_flips(nodes, pos_mask, player_board, opponent_board);
        let has_flips = term::distinct(nodes, flips, zero_bv);

        let allowed_at = term::bv_and(nodes, player_can_place, pos_mask);
        let can_place = term::distinct(nodes, allowed_at, zero_bv);

        // This position is legal if it's empty AND flips pieces AND conforms to placement mask
        let empty_and_flips = term::and(nodes, is_empty, has_flips);
        let is_legal = term::and(nodes, empty_and_flips, can_place);
        let ghost legal_node = is_legal;
        let ghost old_any = any_legal;
        let ghost before_or = nodes@;

        // Return true if any position is legal
        any_legal = if pos == 0 {
            is_legal
        } else {
            term::or(nodes, any_legal, is_legal)
        };
        proof {
            assert forall|m: spec_fn(Var) -> Value|
                #[trigger] eval(nodes@, any_legal as int, m) == Value::Truth(
                    legal_move_among(
                        bits_of(eval(start, player_board as int, m)),
                        bits_of(eval(start, opponent_board as int, m)),
                        bits_of(eval(start, player_can_place as int, m)),
                        (pos + 1) as nat,
                    ),
                ) by {
                let p = bits_of(eval(start, player_board as int, m));
                let o = bits_of(eval(start, opponent_board as int, m));
                let c = bits_of(eval(start, player_can_place as int, m));
                assert(eval(before_flips, player_board as int, m) == eval(start, player_board as int, m));
                assert(eval(before_flips, opponent_board as int, m) == eval(start, opponent_board as int, m));
                assert(eval(nodes@, player_can_place as int, m) == eval(start, player_can_place as int, m));
                assert(eval(nodes@, pos_mask as int, m) == Value::Bits(1u64 << pos));
                assert(eval(nodes@, empty_cells as int, m) == eval(before, empty_cells as int, m));
                assert(eval(nodes@, zero_bv as int, m) == Value::Bits(0));
                let pm = 1u64 << pos;
                assert(pm == crate::encoding::one(pos as int));
                assert(eval(before_flips, pos_mask as int, m) == Value::Bits(pm));
                assert(eval(nodes@, empty_at as int, m) == Value::Bits((BOARD_BITS & !(p | o)) & pm));
                assert(eval(nodes@, is_empty as int, m) == Value::Truth((BOARD_BITS & !(p | o)) & pm != 0u64));
                assert(eval(nodes@, flips as int, m) == Value::Bits(all_flips(pm, p, o)));
                assert(eval(nodes@, has_flips as int, m) == Value::Truth(all_flips(pm, p, o) != 0u64));
                assert(eval(nodes@, can_place as int, m) == Value::Truth(c & pm != 0u64));
                assert(eval(nodes@, legal_node as int, m) == Value::Truth(legal_at(p, o, c, pos as int)));
                assert(!legal_move_among(p, o, c, 0));
                assert(legal_move_among(p, o, c, (pos + 1) as nat) == (legal_move_among(p, o, c, pos as nat) || legal_at(p, o, c, pos as int)));
                if pos > 0 {
                    assert(eval(before_or, old_any as int, m) == eval(before, old_any as int, m));
                    assert(eval(before_or, legal_node as int, m) == eval(nodes@, legal_node as int, m));
                    assert(eval(nodes@, any_legal as int, m) == Value::Truth(
                        legal_move_among(p, o, c, pos as nat) || legal_at(p, o, c, pos as int),
                    ));
                }
            }
        }
        pos += 1;
    }

    any_legal
}

/// Number of moves that turn the initial board into `final_state`: one
/// disk is added per move, and the initial board has four.
pub open spec fn move_count(final_state: Board) -> int {
    final_state.filled_count() - 4
}

/// The bitboards of `board`.
pub open spec fn board_bits(board: Board) -> BitBoard {
    choose|bb: BitBoard| board.has_bitboards(bb)
}

/// The 36-bit cell set of `mask`.
pub open spec fn mask_bits(mask: PlacementMask) -> u64 {
    choose|v: u64| within_board_bits(v) && mask.has_bits(v)
}

/// Whether `m` gives each constant of a game of `n` moves a value of its
/// sort: bit vectors to the boards and the move positions, truth values to
/// the turn and pass flags.
pub open spec fn well_sorted(m: spec_fn(Var) -> Value, n: int) -> bool {
    &&& forall|t: usize| t <= n ==> #[trigger] m(Var::Black(t)) is Bits
    &&& forall|t: usize| t <= n ==> #[trigger] m(Var::White(t)) is Bits
    &&& forall|t: usize| t < n ==> #[trigger] m(Var::Turn(t)) is Truth
    &&& forall|t: usize| t < n ==> #[trigger] m(Var::Pass(t)) is Truth
    &&& forall|t: usize| t < n ==> #[trigger] m(Var::Pos(t)) is Bits
}

/// The black bitboards of `m` for steps `0..=n`.
pub open spec fn model_blacks(m: spec_fn(Var) -> Value, n: int) -> Seq<u64> {
    Seq::new((n + 1) as nat, |t: int| bits_of(m(Var::Black(t as usize))))
}

/// The white bitboards of `m` for steps `0..=n`.
pub open spec fn model_whites(m: spec_fn(Var) -> Value, n: int) -> Seq<u64> {
    Seq::new((n + 1) as nat, |t: int| bits_of(m(Var::White(t as usize))))
}

/// The turn flags of `m` for moves `0..n`.
pub open spec fn model_turns(m: spec_fn(Var) -> Value, n: int) -> Seq<bool> {
    Seq::new(n as nat, |t: int| truth_of(m(Var::Turn(t as usize))))
}

/// The move positions of `m` for moves `0..n`.
pub open spec fn model_positions(m: spec_fn(Var) -> Value, n: int) -> Seq<int> {
    Seq::new(n as nat, |t: int| bits_of(m(Var::Pos(t as usize))) as int)
}

/// The pass flags of `m` for moves `0..n`.
pub open spec fn model_passes(m: spec_fn(Var) -> Value, n: int) -> Seq<bool> {
    Seq::new(n as nat, |t: int| truth_of(m(Var::Pass(t as usize))))
}

/// Whether the boards of steps `0..t` of `m` share no cell.
pub open spec fn boards_disjoint_upto(m: spec_fn(Var) -> Value, t: int) -> bool {
    forall|j: int| 0 <= j < t ==> #[trigger] (bits_of(m(Var::Black(j as usize))) & bits_of(m(Var::White(j as usize)))) == 0u64
}

/// One more step of boards that share no cell.
proof fn lemma_disjoint_step(m: spec_fn(Var) -> Value, t: int)
    requires
        t >= 0,
    ensures
        boards_disjoint_upto(m, t + 1) == (boards_disjoint_upto(m, t) && (bits_of(m(Var::Black(t as usize))) & bits_of(
            m(Var::White(t as usize)),
        )) == 0u64),
{
    if boards_disjoint_upto(m, t + 1) {
        assert((bits_of(m(Var::Black(t as usize))) & bits_of(m(Var::White(t as usize)))) == 0u64);
    }
}

/// Zero-extending a position of 6 bits to 36 bits and shifting a one by it
/// gives the move mask of the position.
proof fn lemma_move_mask_term(p: u64)
    ensures
        ((0u64 << 6u64) | p) == p,
        p < 36 ==> (1u64 << p) & BOARD_BITS == 1u64 << p,
{
    assert(((0u64 << 6u64) | p) == p && (p < 36 ==> (1u64 << p) & 0xFFFFFFFFFu64 == 1u64 << p)) by (bit_vector);
}

/// The terms shared by the constraints of one move: whether Black plays
/// it, the move mask, the boards of the mover and of its opponent, and the
/// disks the move flips.
#[verifier::rlimit(100)]
#[verifier::spinoff_prover]
fn move_terms(nodes: &mut Vec<Node>, black: usize, white: usize, turn: usize, pass: usize, move_pos: usize) -> (handles: (
    usize,
    usize,
    usize,
    usize,
    usize,
))
    requires
        black < old(nodes)@.len(),
        white < old(nodes)@.len(),
        turn < old(nodes)@.len(),
        pass < old(nodes)@.len(),
        move_pos < old(nodes)@.len(),
    ensures
        extends(old(nodes)@, final(nodes)@),
        handles.0 < final(nodes)@.len(),
        handles.1 < final(nodes)@.len(),
        handles.2 < final(nodes)@.len(),
        handles.3 < final(nodes)@.len(),
        handles.4 < final(nodes)@.len(),
        forall|m: spec_fn(Var) -> Value| {
            let bp = truth_of(eval(old(nodes)@, turn as int, m)) != truth_of(eval(old(nodes)@, pass as int, m));
            let b = bits_of(eval(old(nodes)@, black as int, m));
            let w = bits_of(eval(old(nodes)@, white as int, m));
            let mm = move_mask(bits_of(eval(old(nodes)@, move_pos as int, m)) as int);
            &&& #[trigger] eval(final(nodes)@, handles.0 as int, m) == Value::Truth(bp)
            &&& eval(final(nodes)@, handles.1 as int, m) == Value::Bits(mm)
            &&& bits_of(eval(final(nodes)@, handles.2 as int, m)) == if bp { b } else { w }
            &&& bits_of(eval(final(nodes)@, handles.3 as int, m)) == if bp { w } else { b }
            &&& eval(final(nodes)@, handles.4 as int, m) == Value::Bits(all_flips(mm, if bp { b } else { w }, if bp { w } else { b }))
        },
{
    let ghost n0 = nodes@;
    let black_plays = term::xor(nodes, turn, pass);

    // Create one-hot move mask from move_pos
    let zeros_30 = term::lit(nodes, 30, 0);
    let move_pos_extended = term::concat(nodes, zeros_30, move_pos, 6);
    let one = term::lit(nodes, 36, 1);
    let mm = term::bv_shl(nodes, one, move_pos_extended);

    // Get boards for actual player and opponent
    let player_board = term::ite(nodes, black_plays, black, white);
    let opponent_board = term::ite(nodes, black_plays, white, black);
    let ghost n1 = nodes@;

    // Compute what pieces would be flipped by this move
    let total_flips = compute_all_flips(nodes, mm, player_board, opponent_board);
    proof {
        assert forall|m: spec_fn(Var) -> Value| {
            let bp = truth_of(eval(n0, turn as int, m)) != truth_of(eval(n0, pass as int, m));
            let b = bits_of(eval(n0, black as int, m));
            let w = bits_of(eval(n0, white as int, m));
            let mmv = move_mask(bits_of(eval(n0, move_pos as int, m)) as int);
            &&& #[trigger] eval(nodes@, black_plays as int, m) == Value::Truth(bp)
            &&& eval(nodes@, mm as int, m) == Value::Bits(mmv)
            &&& bits_of(eval(nodes@, player_board as int, m)) == if bp { b } else { w }
            &&& bits_of(eval(nodes@, opponent_board as int, m)) == if bp { w } else { b }
            &&& eval(nodes@, total_flips as int, m) == Value::Bits(all_flips(mmv, if bp { b } else { w }, if bp { w } else { b }))
        } by {
            let po = bits_of(eval(n0, move_pos as int, m));
            lemma_move_mask_term(po);
            assert(eval(n1, black_plays as int, m) == eval(nodes@, black_plays as int, m));
            assert(eval(n1, mm as int, m) == eval(nodes@, mm as int, m));
            assert(eval(n1, player_board as int, m) == eval(nodes@, player_board as int, m));
            assert(eval(n1, opponent_board as int, m) == eval(nodes@, opponent_board as int, m));
        }
    }
    (black_plays, mm, player_board, opponent_board, total_flips)
}

/// Adds the constraints of one move: the move is on an empty cell, flips at
/// least one disk and is allowed by its player's mask; a pass only where the
/// player to move has no legal move; the next boards follow from the move;
/// and, where there is a next move, the turn goes to the player who did not
/// move.
#[verifier::rlimit(100)]
#[verifier::spinoff_prover]
fn push_transition(
    nodes: &mut Vec<Node>,
    constraints: &mut Vec<usize>,
    black: usize,
    white: usize,
    next_black: usize,
    next_white: usize,
    turn: usize,
    next_turn: Option<usize>,
    move_pos: usize,
    pass: usize,
    black_can_place: usize,
    white_can_place: usize,
)
    requires
        black < old(nodes)@.len(),
        white < old(nodes)@.len(),
        next_black < old(nodes)@.len(),
        next_white < old(nodes)@.len(),
        turn < old(nodes)@.len(),
        next_turn matches Some(nt) ==> nt < old(nodes)@.len(),
        move_pos < old(nodes)@.len(),
        pass < old(nodes)@.len(),
        black_can_place < old(nodes)@.len(),
        white_can_place < old(nodes)@.len(),
        all_below(old(constraints)@, old(nodes)@.len() as int),
    ensures
        extends(old(nodes)@, final(nodes)@),
        all_below(final(constraints)@, final(nodes)@.len() as int),
        final(constraints)@.len() == old(constraints)@.len() + 6 + (if next_turn is Some { 1int } else { 0int }),
        forall|m: spec_fn(Var) -> Value|
            eval(old(nodes)@, next_black as int, m) is Bits && eval(old(nodes)@, next_white as int, m) is Bits && (next_turn matches Some(
                nt,
            ) ==> eval(old(nodes)@, nt as int, m) is Truth) ==> (#[trigger] all_hold(final(nodes)@, final(constraints)@, m) <==> {
                &&& all_hold(old(nodes)@, old(constraints)@, m)
                &&& transition_holds(
                    bits_of(eval(old(nodes)@, black as int, m)),
                    bits_of(eval(old(nodes)@, white as int, m)),
                    truth_of(eval(old(nodes)@, turn as int, m)),
                    bits_of(eval(old(nodes)@, move_pos as int, m)) as int,
                    truth_of(eval(old(nodes)@, pass as int, m)),
                    bits_of(eval(old(nodes)@, next_black as int, m)),
                    bits_of(eval(old(nodes)@, next_white as int, m)),
                    bits_of(eval(old(nodes)@, black_can_place as int, m)),
                    bits_of(eval(old(nodes)@, white_can_place as int, m)),
                )
                &&& next_turn matches Some(nt) ==> truth_of(eval(old(nodes)@, nt as int, m)) == !(truth_of(
                    eval(old(nodes)@, turn as int, m),
                ) != truth_of(eval(old(nodes)@, pass as int, m)))
            }),
{
    let ghost n0 = nodes@;
    let ghost c0 = constraints@;
    let (black_plays, mm, player_board, opponent_board, total_flips) = move_terms(nodes, black, white, turn, pass, move_pos);
    let ghost n1 = nodes@;
    let (c1, c2, c3) = legality_terms(nodes, black, white, black_plays, mm, total_flips, black_can_place, white_can_place);
    let ghost n2 = nodes@;
    let c4 = pass_term(nodes, black, white, turn, pass, black_can_place, white_can_place);
    let ghost n3 = nodes@;
    let (c5, c6) = next_board_terms(nodes, next_black, next_white, black_plays, mm, player_board, opponent_board, total_flips);
    let ghost n4 = nodes@;

    constraints.push(c1);
    constraints.push(c2);
    constraints.push(c3);
    constraints.push(c4);
    constraints.push(c5);
    constraints.push(c6);
    let ghost c6s = constraints@;

    // "Next turn is the player who did not play this turn"
    let mut c7: usize = 0;
    match next_turn {
        Some(nt) => {
            let next = term::not(nodes, black_plays);
            c7 = term::eq(nodes, nt, next);
            constraints.push(c7);
        },
        None => {},
    }
    proof {
        assert forall|i: int| 0 <= i < constraints@.len() implies #[trigger] constraints@[i] < nodes@.len() by {
            if i < c0.len() {
                assert(constraints@[i] == c0[i]);
            }
        }
        assert forall|m: spec_fn(Var) -> Value|
            eval(n0, next_black as int, m) is Bits && eval(n0, next_white as int, m) is Bits && (next_turn matches Some(nt) ==> eval(
                n0,
                nt as int,
                m,
            ) is Truth) implies (#[trigger] all_hold(nodes@, constraints@, m) <==> {
                &&& all_hold(n0, c0, m)
                &&& transition_holds(
                    bits_of(eval(n0, black as int, m)),
                    bits_of(eval(n0, white as int, m)),
                    truth_of(eval(n0, turn as int, m)),
                    bits_of(eval(n0, move_pos as int, m)) as int,
                    truth_of(eval(n0, pass as int, m)),
                    bits_of(eval(n0, next_black as int, m)),
                    bits_of(eval(n0, next_white as int, m)),
                    bits_of(eval(n0, black_can_place as int, m)),
                    bits_of(eval(n0, white_can_place as int, m)),
                )
                &&& next_turn matches Some(nt) ==> truth_of(eval(n0, nt as int, m)) == !(truth_of(eval(n0, turn as int, m)) != truth_of(
                    eval(n0, pass as int, m),
                ))
            }) by {
            assert(eval(n1, black_plays as int, m) == eval(nodes@, black_plays as int, m));
            assert(eval(n2, c1 as int, m) == eval(nodes@, c1 as int, m));
            assert(eval(n2, c2 as int, m) == eval(nodes@, c2 as int, m));
            assert(eval(n2, c3 as int, m) == eval(nodes@, c3 as int, m));
            assert(eval(n3, c4 as int, m) == eval(nodes@, c4 as int, m));
            assert(eval(n4, c5 as int, m) == eval(nodes@, c5 as int, m));
            assert(eval(n4, c6 as int, m) == eval(nodes@, c6 as int, m));
            lemma_all_hold_extend(n0, nodes@, c0, m);
            lemma_all_hold_push(nodes@, c0, c1, m);
            lemma_all_hold_push(nodes@, c0.push(c1), c2, m);
            lemma_all_hold_push(nodes@, c0.push(c1).push(c2), c3, m);
            lemma_all_hold_push(nodes@, c0.push(c1).push(c2).push(c3), c4, m);
            lemma_all_hold_push(nodes@, c0.push(c1).push(c2).push(c3).push(c4), c5, m);
            lemma_all_hold_push(nodes@, c0.push(c1).push(c2).push(c3).push(c4).push(c5), c6, m);
            assert(c6s == c0.push(c1).push(c2).push(c3).push(c4).push(c5).push(c6));
            if let Some(nt) = next_turn {
                let bp = truth_of(eval(n0, turn as int, m)) != truth_of(eval(n0, pass as int, m));
                assert(eval(nodes@, c7 as int, m) == Value::Truth(eval(n0, nt as int, m) == Value::Truth(!bp)));
                lemma_all_hold_push(nodes@, c6s, c7, m);
            }
        }
    }
}

/// The constraints that the move is on an empty cell, flips at least one
/// disk, and is allowed by its mover's mask.
#[verifier::rlimit(100)]
#[verifier::spinoff_prover]
fn legality_terms(
    nodes: &mut Vec<Node>,
    black: usize,
    white: usize,
    black_plays: usize,
    mm: usize,
    total_flips: usize,
    black_can_place: usize,
    white_can_place: usize,
) -> (cs: (usize, usize, usize))
    requires
        black < old(nodes)@.len(),
        white < old(nodes)@.len(),
        black_plays < old(nodes)@.len(),
        mm < old(nodes)@.len(),
        total_flips < old(nodes)@.len(),
        black_can_place < old(nodes)@.len(),
        white_can_place < old(nodes)@.len(),
    ensures
        extends(old(nodes)@, final(nodes)@),
        cs.0 < final(nodes)@.len(),
        cs.1 < final(nodes)@.len(),
        cs.2 < final(nodes)@.len(),
        forall|m: spec_fn(Var) -> Value| {
            let b = bits_of(eval(old(nodes)@, black as int, m));
            let w = bits_of(eval(old(nodes)@, white as int, m));
            let mmv = bits_of(eval(old(nodes)@, mm as int, m));
            let placement = if truth_of(eval(old(nodes)@, black_plays as int, m)) {
                bits_of(eval(old(nodes)@, black_can_place as int, m))
            } else {
                bits_of(eval(old(nodes)@, white_can_place as int, m))
            };
            eval(old(nodes)@, mm as int, m) is Bits && eval(old(nodes)@, total_flips as int, m) is Bits ==> {
                &&& #[trigger] eval(final(nodes)@, cs.0 as int, m) == Value::Truth((b | w) & mmv == 0u64)
                &&& eval(final(nodes)@, cs.1 as int, m) == Value::Truth(bits_of(eval(old(nodes)@, total_flips as int, m)) != 0u64)
                &&& eval(final(nodes)@, cs.2 as int, m) == Value::Truth(placement & mmv == mmv)
            }
        },
{
    let ghost n0 = nodes@;
    let zero_bv = term::lit(nodes, 36, 0);
    let placement_mask = term::ite(nodes, black_plays, black_can_place, white_can_place);
    let occupied = term::bv_or(nodes, black, white);
    let occupied_at = term::bv_and(nodes, occupied, mm);
    let c1 = term::eq(nodes, occupied_at, zero_bv);
    let c2 = term::distinct(nodes, total_flips, zero_bv);
    let allowed_at = term::bv_and(nodes, placement_mask, mm);
    let c3 = term::eq(nodes, allowed_at, mm);
    proof {
        assert forall|m: spec_fn(Var) -> Value| {
            let b = bits_of(eval(n0, black as int, m));
            let w = bits_of(eval(n0, white as int, m));
            let mmv = bits_of(eval(n0, mm as int, m));
            let placement = if truth_of(eval(n0, black_plays as int, m)) {
                bits_of(eval(n0, black_can_place as int, m))
            } else {
                bits_of(eval(n0, white_can_place as int, m))
            };
            eval(n0, mm as int, m) is Bits && eval(n0, total_flips as int, m) is Bits ==> {
                &&& #[trigger] eval(nodes@, c1 as int, m) == Value::Truth((b | w) & mmv == 0u64)
                &&& eval(nodes@, c2 as int, m) == Value::Truth(bits_of(eval(n0, total_flips as int, m)) != 0u64)
                &&& eval(nodes@, c3 as int, m) == Value::Truth(placement & mmv == mmv)
            }
        } by {
            assert(eval(nodes@, zero_bv as int, m) == Value::Bits(0));
            assert(eval(nodes@, mm as int, m) == eval(n0, mm as int, m));
            assert(eval(nodes@, total_flips as int, m) == eval(n0, total_flips as int, m));
            assert(eval(nodes@, occupied_at as int, m) == Value::Bits(
                (bits_of(eval(n0, black as int, m)) | bits_of(eval(n0, white as int, m))) & bits_of(eval(n0, mm as int, m)),
            ));
        }
    }
    (c1, c2, c3)
}

/// The constraint that a pass happens only where the player to move has no
/// legal move that its mask allows.
#[verifier::rlimit(100)]
#[verifier::spinoff_prover]
fn pass_term(
    nodes: &mut Vec<Node>,
    black: usize,
    white: usize,
    turn: usize,
    pass: usize,
    black_can_place: usize,
    white_can_place: usize,
) -> (c: usize)
    requires
        black < old(nodes)@.len(),
        white < old(nodes)@.len(),
        turn < old(nodes)@.len(),
        pass < old(nodes)@.len(),
        black_can_place < old(nodes)@.len(),
        white_can_place < old(nodes)@.len(),
    ensures
        extends(old(nodes)@, final(nodes)@),
        c < final(nodes)@.len(),
        forall|m: spec_fn(Var) -> Value| {
            let tu = truth_of(eval(old(nodes)@, turn as int, m));
            let b = bits_of(eval(old(nodes)@, black as int, m));
            let w = bits_of(eval(old(nodes)@, white as int, m));
            let bm = bits_of(eval(old(nodes)@, black_can_place as int, m));
            let wm = bits_of(eval(old(nodes)@, white_can_place as int, m));
            #[trigger] eval(final(nodes)@, c as int, m) == Value::Truth(
                !truth_of(eval(old(nodes)@, pass as int, m)) || !has_legal_move_value(
                    if tu { b } else { w },
                    if tu { w } else { b },
                    if tu { bm } else { wm },
                ),
            )
        },
{
    let ghost n0 = nodes@;
    let current_player_board = term::ite(nodes, turn, black, white);
    let current_opponent_board = term::ite(nodes, turn, white, black);
    let current_player_can_place = term::ite(nodes, turn, black_can_place, white_can_place);
    let ghost n1 = nodes@;
    let current_has_moves = has_legal_move(nodes, current_player_board, current_opponent_board, current_player_can_place);
    let ghost n2 = nodes@;

    // If pass, then current player has no legal moves (pass => !has_moves is equivalent to !pass || !has_moves)
    let no_pass = term::not(nodes, pass);
    let no_moves = term::not(nodes, current_has_moves);
    let c4 = term::or(nodes, no_pass, no_moves);
    proof {
        assert forall|m: spec_fn(Var) -> Value| {
            let tu = truth_of(eval(n0, turn as int, m));
            let b = bits_of(eval(n0, black as int, m));
            let w = bits_of(eval(n0, white as int, m));
            let bm = bits_of(eval(n0, black_can_place as int, m));
            let wm = bits_of(eval(n0, white_can_place as int, m));
            #[trigger] eval(nodes@, c4 as int, m) == Value::Truth(
                !truth_of(eval(n0, pass as int, m)) || !has_legal_move_value(
                    if tu { b } else { w },
                    if tu { w } else { b },
                    if tu { bm } else { wm },
                ),
            )
        } by {
            assert(eval(n2, current_has_moves as int, m) == eval(nodes@, current_has_moves as int, m));
            assert(eval(n2, pass as int, m) == eval(n0, pass as int, m));
        }
    }
    c4
}

/// The constraints that the next boards are those after the move.
#[verifier::rlimit(100)]
#[verifier::spinoff_prover]
fn next_board_terms(
    nodes: &mut Vec<Node>,
    next_black: usize,
    next_white: usize,
    black_plays: usize,
    mm: usize,
    player_board: usize,
    opponent_board: usize,
    total_flips: usize,
) -> (cs: (usize, usize))
    requires
        next_black < old(nodes)@.len(),
        next_white < old(nodes)@.len(),
        black_plays < old(nodes)@.len(),
        mm < old(nodes)@.len(),
        player_board < old(nodes)@.len(),
        opponent_board < old(nodes)@.len(),
        total_flips < old(nodes)@.len(),
    ensures
        extends(old(nodes)@, final(nodes)@),
        cs.0 < final(nodes)@.len(),
        cs.1 < final(nodes)@.len(),
        forall|m: spec_fn(Var) -> Value| {
            let bp = truth_of(eval(old(nodes)@, black_plays as int, m));
            let pl = bits_of(eval(old(nodes)@, player_board as int, m));
            let op = bits_of(eval(old(nodes)@, opponent_board as int, m));
            let mmv = bits_of(eval(old(nodes)@, mm as int, m));
            let fl = bits_of(eval(old(nodes)@, total_flips as int, m));
            let np = (pl | mmv) | fl;
            let no = op & (BOARD_BITS & !fl);
            eval(old(nodes)@, next_black as int, m) is Bits && eval(old(nodes)@, next_white as int, m) is Bits ==> {
                &&& #[trigger] eval(final(nodes)@, cs.0 as int, m) == Value::Truth(
                    bits_of(eval(old(nodes)@, next_black as int, m)) == if bp { np } else { no },
                )
                &&& eval(final(nodes)@, cs.1 as int, m) == Value::Truth(
                    bits_of(eval(old(nodes)@, next_white as int, m)) == if bp { no } else { np },
                )
            }
        },
{
    let ghost n0 = nodes@;
    let with_move = term::bv_or(nodes, player_board, mm);
    let new_player_board = term::bv_or(nodes, with_move, total_flips);
    let not_flipped = term::bv_not(nodes, total_flips);
    let new_opponent_board = term::bv_and(nodes, opponent_board, not_flipped);

    let new_black = term::ite(nodes, black_plays, new_player_board, new_opponent_board);
    let new_white = term::ite(nodes, black_plays, new_opponent_board, new_player_board);

    let c5 = term::eq(nodes, next_black, new_black);
    let c6 = term::eq(nodes, next_white, new_white);
    proof {
        assert forall|m: spec_fn(Var) -> Value| {
            let bp = truth_of(eval(n0, black_plays as int, m));
            let pl = bits_of(eval(n0, player_board as int, m));
            let op = bits_of(eval(n0, opponent_board as int, m));
            let mmv = bits_of(eval(n0, mm as int, m));
            let fl = bits_of(eval(n0, total_flips as int, m));
            let np = (pl | mmv) | fl;
            let no = op & (BOARD_BITS & !fl);
            eval(n0, next_black as int, m) is Bits && eval(n0, next_white as int, m) is Bits ==> {
                &&& #[trigger] eval(nodes@, c5 as int, m) == Value::Truth(bits_of(eval(n0, next_black as int, m)) == if bp { np } else { no })
                &&& eval(nodes@, c6 as int, m) == Value::Truth(bits_of(eval(n0, next_white as int, m)) == if bp { no } else { np })
            }
        } by {
            assert(eval(nodes@, next_black as int, m) == eval(n0, next_black as int, m));
            assert(eval(nodes@, next_white as int, m) == eval(n0, next_white as int, m));
            assert(eval(nodes@, black_plays as int, m) == eval(n0, black_plays as int, m));
        }
    }
    (c5, c6)
}

/// Generates SMT constraints that model a valid Reversi game progression
/// using bitboard representation for efficient move and flip encoding.
///
/// The constraints state: no cell is both black and white at any step; the
/// first step is the initial board and the last one `final_state`; Black
/// moves first; each move is on an empty cell, flips at least one disk and
/// conforms to the mover's placement mask; a pass only where the player to
/// move has no legal move; each step follows from the previous one by the
/// move and its flips; the turn goes to the player who did not move.
///
/// One board pair per step `0..=n` and one move per step `0..n`, where `n`
/// is the number of disks of `final_state` minus the initial four. Under
/// every assignment of the constants, the constraints all hold exactly where
/// `constraints_hold` holds of the values, so `lemma_encoding_sound` and
/// `lemma_encoding_complete` apply to the terms built here.
#[verifier::rlimit(100)]
#[verifier::spinoff_prover]
pub fn generate_reversi_constraints(
    final_state: &Board,
    black_pmask: PlacementMask,
    white_pmask: PlacementMask,
) -> (encoding: ReversiConstraints)
    requires
        final_state.filled_count() >= 4,
    ensures
        ({
            let n = move_count(*final_state);
            &&& encoding.black_boards@.len() == n + 1
            &&& encoding.white_boards@.len() == n + 1
            &&& encoding.is_black_turn@.len() == n
            &&& encoding.move_positions@.len() == n
            &&& encoding.passes@.len() == n
            &&& encoding.constraints@.len() == 8 * n + 5
            &&& all_below(encoding.constraints@, encoding.nodes@.len() as int)
            &&& forall|t: int| 0 <= t <= n ==> #[trigger] encoding.black_boards@[t] < encoding.nodes@.len()
                && encoding.white_boards@[t] < encoding.nodes@.len()
                && encoding.nodes@[encoding.black_boards@[t] as int] == Node::Const(Var::Black(t as usize))
                && encoding.nodes@[encoding.white_boards@[t] as int] == Node::Const(Var::White(t as usize))
            &&& forall|t: int| 0 <= t < n ==> #[trigger] encoding.is_black_turn@[t] < encoding.nodes@.len()
                && encoding.move_positions@[t] < encoding.nodes@.len()
                && encoding.passes@[t] < encoding.nodes@.len()
                && encoding.nodes@[encoding.is_black_turn@[t] as int] == Node::Const(Var::Turn(t as usize))
                && encoding.nodes@[encoding.move_positions@[t] as int] == Node::Const(Var::Pos(t as usize))
                && encoding.nodes@[encoding.passes@[t] as int] == Node::Const(Var::Pass(t as usize))
            &&& forall|m: spec_fn(Var) -> Value|
                well_sorted(m, n) ==> (#[trigger] all_hold(encoding.nodes@, encoding.constraints@, m) <==> constraints_hold(
                    model_blacks(m, n),
                    model_whites(m, n),
                    model_turns(m, n),
                    model_positions(m, n),
                    model_passes(m, n),
                    board_bits(standard_initial_board()),
                    board_bits(*final_state),
                    mask_bits(black_pmask),
                    mask_bits(white_pmask),
                ))
        }),
{
    let mut nodes: Vec<Node> = Vec::new();
    let black_bits = black_pmask.to_bits();
    let white_bits = white_pmask.to_bits();
    let black_can_place_bv = term::lit(&mut nodes, 36, black_bits);
    let white_can_place_bv = term::lit(&mut nodes, 36, white_bits);

    let mut constraints: Vec<usize> = Vec::new();
    let mut move_positions: Vec<usize> = Vec::new();
    let mut passes: Vec<usize> = Vec::new();
    proof {
        final_state.lemma_filled_upto_bound(36);
    }
    let max_moves = final_state.filled_cells_count() - /* initial 4 pieces */ 4;
    let ghost n = max_moves as int;

    // Constants
    let zero_bv = term::lit(&mut nodes, 36, 0);

    // Variables describing the game state at each time step
    let mut black_boards: Vec<usize> = Vec::new();
    let mut white_boards: Vec<usize> = Vec::new();
    let mut is_black_turn: Vec<usize> = Vec::new();

    let mut t: usize = 0;
    while t <= max_moves
        invariant
            max_moves == move_count(*final_state),
            n == max_moves,
            max_moves <= 36,
            t <= max_moves + 1,
            black_boards@.len() == t,
            white_boards@.len() == t,
            is_black_turn@.len() == if t <= max_moves { t as int } else { max_moves as int },
            black_can_place_bv < nodes@.len(),
            white_can_place_bv < nodes@.len(),
            zero_bv < nodes@.len(),
            nodes@[black_can_place_bv as int] == (Node::Lit { width: 36, value: black_bits }),
            nodes@[white_can_place_bv as int] == (Node::Lit { width: 36, value: white_bits }),
            nodes@[zero_bv as int] == (Node::Lit { width: 36, value: 0 }),
            all_below(constraints@, nodes@.len() as int),
            constraints@.len() == t,
            forall|j: int| 0 <= j < t ==> #[trigger] black_boards@[j] < nodes@.len() && white_boards@[j] < nodes@.len()
                && nodes@[black_boards@[j] as int] == Node::Const(Var::Black(j as usize))
                && nodes@[white_boards@[j] as int] == Node::Const(Var::White(j as usize)),
            forall|j: int| 0 <= j < is_black_turn@.len() ==> #[trigger] is_black_turn@[j] < nodes@.len()
                && nodes@[is_black_turn@[j] as int] == Node::Const(Var::Turn(j as usize)),
            forall|m: spec_fn(Var) -> Value| #[trigger] all_hold(nodes@, constraints@, m) <==> boards_disjoint_upto(m, t as int),
        decreases max_moves + 1 - t,
    {
        let ghost before = nodes@;
        let ghost cbefore = constraints@;
        let black = term::constant(&mut nodes, Var::Black(t));
        let white = term::constant(&mut nodes, Var::White(t));

        // Constraint: no bit should be set in both black and white
        let overlap = term::bv_and(&mut nodes, black, white);
        let c = term::eq(&mut nodes, overlap, zero_bv);
        constraints.push(c);

        black_boards.push(black);
        white_boards.push(white);

        if t < max_moves {
            let turn = term::constant(&mut nodes, Var::Turn(t));
            is_black_turn.push(turn);
        }
        proof {
            assert forall|i: int| 0 <= i < constraints@.len() implies #[trigger] constraints@[i] < nodes@.len() by {
                if i < cbefore.len() {
                    assert(constraints@[i] == cbefore[i]);
                }
            }
            assert forall|m: spec_fn(Var) -> Value| #[trigger] all_hold(nodes@, constraints@, m) <==> boards_disjoint_upto(
                m,
                t + 1,
            ) by {
                lemma_all_hold_extend(before, nodes@, cbefore, m);
                lemma_all_hold_push(nodes@, cbefore, c, m);
                assert(eval(nodes@, black as int, m) == m(Var::Black(t)));
                assert(eval(nodes@, white as int, m) == m(Var::White(t)));
                assert(eval(nodes@, zero_bv as int, m) == Value::Bits(0));
                assert(eval(nodes@, overlap as int, m) == Value::Bits(bits_of(m(Var::Black(t))) & bits_of(m(Var::White(t)))));
                assert(eval(nodes@, c as int, m) == Value::Truth((bits_of(m(Var::Black(t))) & bits_of(m(Var::White(t)))) == 0u64));
                lemma_disjoint_step(m, t as int);
            }
        }
        t += 1;
    }
    let ghost ib = board_bits(standard_initial_board());
    let ghost tb = board_bits(*final_state);
    let ghost bmw = mask_bits(black_pmask);
    let ghost wmw = mask_bits(white_pmask);
    // Constraint: Initial board state
    let initial = initial_board().to_bitboards();
    let target = final_state.to_bitboards();
    proof {
        lemma_bitboards_unique(standard_initial_board(), initial, ib);
        lemma_bitboards_unique(*final_state, target, tb);
        assert forall|i: int| 0 <= i < 36 implies #[trigger] bit(black_bits, i) == bit(bmw, i) by {
            assert(black_pmask.has_bits(bmw));
        }
        assert forall|i: int| 0 <= i < 36 implies #[trigger] bit(white_bits, i) == bit(wmw, i) by {
            assert(white_pmask.has_bits(wmw));
        }
        assert(black_pmask.has_bits(black_bits));
        assert(white_pmask.has_bits(white_bits));
        lemma_same_board_word(black_bits, bmw);
        lemma_same_board_word(white_bits, wmw);
    }
    let ghost c1 = constraints@;
    let ghost n1 = nodes@;
    let initial_black = term::lit(&mut nodes, 36, initial.black);
    let e1 = term::eq(&mut nodes, black_boards[0], initial_black);
    constraints.push(e1);
    let initial_white = term::lit(&mut nodes, 36, initial.white);
    let e2 = term::eq(&mut nodes, white_boards[0], initial_white);
    constraints.push(e2);

    // Constraint: Final board state
    let final_black = term::lit(&mut nodes, 36, target.black);
    let e3 = term::eq(&mut nodes, black_boards[max_moves], final_black);
    constraints.push(e3);
    let final_white = term::lit(&mut nodes, 36, target.white);
    let e4 = term::eq(&mut nodes, white_boards[max_moves], final_white);
    constraints.push(e4);
    let ghost c5 = constraints@;

    // Constraint: Black starts first
    if is_black_turn.len() > 0 {
        constraints.push(is_black_turn[0]);
    }
    let ghost base = |m: spec_fn(Var) -> Value| {
        &&& boards_disjoint_upto(m, n + 1)
        &&& bits_of(m(Var::Black(0))) == ib.black
        &&& bits_of(m(Var::White(0))) == ib.white
        &&& bits_of(m(Var::Black(n as usize))) == tb.black
        &&& bits_of(m(Var::White(n as usize))) == tb.white
        &&& n > 0 ==> truth_of(m(Var::Turn(0)))
    };
    proof {
        assert forall|i: int| 0 <= i < constraints@.len() implies #[trigger] constraints@[i] < nodes@.len() by {
            if i < c1.len() {
                assert(constraints@[i] == c1[i]);
            } else if i < c5.len() {
                assert(constraints@[i] == c5[i]);
            }
        }
        assert forall|m: spec_fn(Var) -> Value| well_sorted(m, n) implies (#[trigger] all_hold(nodes@, constraints@, m) <==> base(m)) by {
            assert(m(Var::Black(0)) is Bits);
            assert(m(Var::White(0)) is Bits);
            assert(m(Var::Black(n as usize)) is Bits);
            assert(m(Var::White(n as usize)) is Bits);
            lemma_all_hold_extend(n1, nodes@, c1, m);
            assert(eval(nodes@, black_boards@[0] as int, m) == m(Var::Black(0)));
            assert(eval(nodes@, white_boards@[0] as int, m) == m(Var::White(0)));
            assert(eval(nodes@, black_boards@[n] as int, m) == m(Var::Black(n as usize)));
            assert(eval(nodes@, white_boards@[n] as int, m) == m(Var::White(n as usize)));
            lemma_all_hold_push(nodes@, c1, e1, m);
            lemma_all_hold_push(nodes@, c1.push(e1), e2, m);
            lemma_all_hold_push(nodes@, c1.push(e1).push(e2), e3, m);
            lemma_all_hold_push(nodes@, c1.push(e1).push(e2).push(e3), e4, m);
            assert(c5 == c1.push(e1).push(e2).push(e3).push(e4));
            if n > 0 {
                assert(m(Var::Turn(0)) is Truth);
                assert(eval(nodes@, is_black_turn@[0] as int, m) == m(Var::Turn(0)));
                lemma_all_hold_push(nodes@, c5, is_black_turn@[0], m);
            }
        }
    }

    // Game transition constraints between time steps
    let mut t: usize = 0;
    while t < max_moves
        invariant
            max_moves == move_count(*final_state),
            n == max_moves,
            max_moves <= 36,
            t <= max_moves,
            black_boards@.len() == max_moves + 1,
            white_boards@.len() == max_moves + 1,
            is_black_turn@.len() == max_moves,
            move_positions@.len() == t,
            passes@.len() == t,
            black_can_place_bv < nodes@.len(),
            white_can_place_bv < nodes@.len(),
            nodes@[black_can_place_bv as int] == (Node::Lit { width: 36, value: black_bits }),
            nodes@[white_can_place_bv as int] == (Node::Lit { width: 36, value: white_bits }),
            black_bits == bmw,
            white_bits == wmw,
            all_below(constraints@, nodes@.len() as int),
            constraints@.len() + (if t == n && n > 0 { 1int } else { 0int }) == n + 5 + (if n > 0 { 1int } else { 0int }) + 7 * t,
            forall|j: int| 0 <= j <= n ==> #[trigger] black_boards@[j] < nodes@.len() && white_boards@[j] < nodes@.len()
                && nodes@[black_boards@[j] as int] == Node::Const(Var::Black(j as usize))
                && nodes@[white_boards@[j] as int] == Node::Const(Var::White(j as usize)),
            forall|j: int| 0 <= j < n ==> #[trigger] is_black_turn@[j] < nodes@.len()
                && nodes@[is_black_turn@[j] as int] == Node::Const(Var::Turn(j as usize)),
            forall|j: int| 0 <= j < t ==> #[trigger] move_positions@[j] < nodes@.len() && passes@[j] < nodes@.len()
                && nodes@[move_positions@[j] as int] == Node::Const(Var::Pos(j as usize))
                && nodes@[passes@[j] as int] == Node::Const(Var::Pass(j as usize)),
            forall|m: spec_fn(Var) -> Value|
                well_sorted(m, n) ==> (#[trigger] all_hold(nodes@, constraints@, m) <==> {
                    &&& base(m)
                    &&& forall|j: int| 0 <= j < t ==> #[trigger] transition_holds(
                        bits_of(m(Var::Black(j as usize))),
                        bits_of(m(Var::White(j as usize))),
                        truth_of(m(Var::Turn(j as usize))),
                        bits_of(m(Var::Pos(j as usize))) as int,
                        truth_of(m(Var::Pass(j as usize))),
                        bits_of(m(Var::Black((j + 1) as usize))),
                        bits_of(m(Var::White((j + 1) as usize))),
                        bmw,
                        wmw,
                    )
                    &&& forall|j: int| 0 <= j < t && j + 1 < n ==> #[trigger] truth_of(m(Var::Turn((j + 1) as usize))) == !(truth_of(
                        m(Var::Turn(j as usize)),
                    ) != truth_of(m(Var::Pass(j as usize))))
                }),
        decreases max_moves - t,
    {
        let ghost before = nodes@;
        let ghost cbefore = constraints@;
        // Variables for this transition
        let move_pos = term::constant(&mut nodes, Var::Pos(t));
        move_positions.push(move_pos);
        let pass = term::constant(&mut nodes, Var::Pass(t));
        passes.push(pass);
        let next_turn = if t + 1 < max_moves {
            Some(is_black_turn[t + 1])
        } else {
            None
        };
        let ghost mid = nodes@;
        push_transition(
            &mut nodes,
            &mut constraints,
            black_boards[t],
            white_boards[t],
            black_boards[t + 1],
            white_boards[t + 1],
            is_black_turn[t],
            next_turn,
            move_pos,
            pass,
            black_can_place_bv,
            white_can_place_bv,
        );
        proof {
            assert forall|m: spec_fn(Var) -> Value| well_sorted(m, n) implies (#[trigger] all_hold(nodes@, constraints@, m) <==> {
                &&& base(m)
                &&& forall|j: int| 0 <= j < t + 1 ==> #[trigger] transition_holds(
                    bits_of(m(Var::Black(j as usize))),
                    bits_of(m(Var::White(j as usize))),
                    truth_of(m(Var::Turn(j as usize))),
                    bits_of(m(Var::Pos(j as usize))) as int,
                    truth_of(m(Var::Pass(j as usize))),
                    bits_of(m(Var::Black((j + 1) as usize))),
                    bits_of(m(Var::White((j + 1) as usize))),
                    bmw,
                    wmw,
                )
                &&& forall|j: int| 0 <= j < t + 1 && j + 1 < n ==> #[trigger] truth_of(m(Var::Turn((j + 1) as usize))) == !(truth_of(
                    m(Var::Turn(j as usize)),
                ) != truth_of(m(Var::Pass(j as usize))))
            }) by {
                lemma_all_hold_extend(before, mid, cbefore, m);
                assert(m(Var::Black((t + 1) as usize)) is Bits);
                assert(m(Var::White((t + 1) as usize)) is Bits);
                assert(eval(mid, black_boards@[t as int] as int, m) == m(Var::Black(t)));
                assert(eval(mid, white_boards@[t as int] as int, m) == m(Var::White(t)));
                assert(eval(mid, black_boards@[t + 1] as int, m) == m(Var::Black((t + 1) as usize)));
                assert(eval(mid, white_boards@[t + 1] as int, m) == m(Var::White((t + 1) as usize)));
                assert(eval(mid, is_black_turn@[t as int] as int, m) == m(Var::Turn(t)));
                assert(eval(mid, move_pos as int, m) == m(Var::Pos(t)));
                assert(eval(mid, pass as int, m) == m(Var::Pass(t)));
                assert(eval(mid, black_can_place_bv as int, m) == Value::Bits(bmw));
                assert(eval(mid, white_can_place_bv as int, m) == Value::Bits(wmw));
                if t + 1 < max_moves {
                    assert(m(Var::Turn((t + 1) as usize)) is Truth);
                    assert(eval(mid, is_black_turn@[t + 1] as int, m) == m(Var::Turn((t + 1) as usize)));
                }
            }
            assert forall|j: int| 0 <= j < t + 1 implies #[trigger] move_positions@[j] < nodes@.len() && passes@[j] < nodes@.len()
                && nodes@[move_positions@[j] as int] == Node::Const(Var::Pos(j as usize))
                && nodes@[passes@[j] as int] == Node::Const(Var::Pass(j as usize)) by {
                if j == t {
                    assert(move_positions@[j] == move_pos);
                    assert(passes@[j] == pass);
                }
            }
        }
        t += 1;
    }
    proof {
        assert forall|m: spec_fn(Var) -> Value| well_sorted(m, n) implies (#[trigger] all_hold(nodes@, constraints@, m) <==> constraints_hold(
            model_blacks(m, n),
            model_whites(m, n),
            model_turns(m, n),
            model_positions(m, n),
            model_passes(m, n),
            ib,
            tb,
            bmw,
            wmw,
        )) by {
            let bl = model_blacks(m, n);
            let wh = model_whites(m, n);
            let tu = model_turns(m, n);
            let po = model_positions(m, n);
            let pa = model_passes(m, n);
            assert(bl[0] == bits_of(m(Var::Black(0))));
            assert(wh[0] == bits_of(m(Var::White(0))));
            assert(bl[n] == bits_of(m(Var::Black(n as usize))));
            assert(wh[n] == bits_of(m(Var::White(n as usize))));
            if n > 0 {
                assert(tu[0] == truth_of(m(Var::Turn(0))));
            }
            if all_hold(nodes@, constraints@, m) {
                assert forall|j: int| 0 <= j <= n implies #[trigger] (bl[j] & wh[j]) == 0u64 by {
                    assert(bl[j] == bits_of(m(Var::Black(j as usize))));
                    assert(wh[j] == bits_of(m(Var::White(j as usize))));
                    assert(0 <= j < n + 1);
                }
                assert forall|j: int| 0 <= j < n implies #[trigger] transition_holds(bl[j], wh[j], tu[j], po[j], pa[j], bl[j + 1], wh[j + 1], bmw, wmw) by {
                    assert(transition_holds(
                        bits_of(m(Var::Black(j as usize))),
                        bits_of(m(Var::White(j as usize))),
                        truth_of(m(Var::Turn(j as usize))),
                        bits_of(m(Var::Pos(j as usize))) as int,
                        truth_of(m(Var::Pass(j as usize))),
                        bits_of(m(Var::Black((j + 1) as usize))),
                        bits_of(m(Var::White((j + 1) as usize))),
                        bmw,
                        wmw,
                    ));
                }
                assert forall|j: int| 0 <= j < n - 1 implies #[trigger] tu[j + 1] == !(tu[j] != pa[j]) by {
                    assert(truth_of(m(Var::Turn((j + 1) as usize))) == !(truth_of(m(Var::Turn(j as usize))) != truth_of(m(Var::Pass(j as usize)))));
                }
            }
            if constraints_hold(bl, wh, tu, po, pa, ib, tb, bmw, wmw) {
                assert forall|j: int| 0 <= j < n + 1 implies #[trigger] (bits_of(m(Var::Black(j as usize))) & bits_of(m(Var::White(j as usize))))
                    == 0u64 by {
                    assert(bl[j] & wh[j] == 0u64);
                }
                assert forall|j: int| 0 <= j < n implies #[trigger] transition_holds(
                    bits_of(m(Var::Black(j as usize))),
                    bits_of(m(Var::White(j as usize))),
                    truth_of(m(Var::Turn(j as usize))),
                    bits_of(m(Var::Pos(j as usize))) as int,
                    truth_of(m(Var::Pass(j as usize))),
                    bits_of(m(Var::Black((j + 1) as usize))),
                    bits_of(m(Var::White((j + 1) as usize))),
                    bmw,
                    wmw,
                ) by {
                    assert(transition_holds(bl[j], wh[j], tu[j], po[j], pa[j], bl[j + 1], wh[j + 1], bmw, wmw));
                }
                assert forall|j: int| 0 <= j < n && j + 1 < n implies #[trigger] truth_of(m(Var::Turn((j + 1) as usize))) == !(truth_of(
                    m(Var::Turn(j as usize)),
                ) != truth_of(m(Var::Pass(j as usize)))) by {
                    assert(tu[j + 1] == !(tu[j] != pa[j]));
                }
            }
        }
    }
    ReversiConstraints { nodes, constraints, move_positions, black_boards, white_boards, is_black_turn, passes }
}

/// Every assignment of the right sorts under which the constraints built
/// for the target hold (see `generate_reversi_constraints`, whose terms all
/// hold exactly where `constraints_hold` does) is a game that solves the
/// problem from the standard initial board: the cells of its move
/// positions, as many as the target has disks beyond the initial four.
pub proof fn lemma_models_are_games(problem: ReachabilityProblem, m: spec_fn(Var) -> Value)
    requires
        problem.initial_board == standard_initial_board(),
        move_count(problem.target_board) >= 0,
        well_sorted(m, move_count(problem.target_board)),
        constraints_hold(
            model_blacks(m, move_count(problem.target_board)),
            model_whites(m, move_count(problem.target_board)),
            model_turns(m, move_count(problem.target_board)),
            model_positions(m, move_count(problem.target_board)),
            model_passes(m, move_count(problem.target_board)),
            board_bits(standard_initial_board()),
            board_bits(problem.target_board),
            mask_bits(problem.black_placement_mask),
            mask_bits(problem.white_placement_mask),
        ),
    ensures
        problem.solved_by(position_cells(model_positions(m, move_count(problem.target_board)))),
        model_positions(m, move_count(problem.target_board)).len() == move_count(problem.target_board),
{
    let n = move_count(problem.target_board);
    lemma_board_has_bitboards(standard_initial_board());
    lemma_board_has_bitboards(problem.target_board);
    lemma_mask_has_bits(problem.black_placement_mask);
    lemma_mask_has_bits(problem.white_placement_mask);
    lemma_encoding_sound(
        problem,
        model_blacks(m, n),
        model_whites(m, n),
        model_turns(m, n),
        model_positions(m, n),
        model_passes(m, n),
        board_bits(standard_initial_board()),
        board_bits(problem.target_board),
        mask_bits(problem.black_placement_mask),
        mask_bits(problem.white_placement_mask),
    );
}

/// The board and the player to move after the first `t` moves of `cells`.
pub open spec fn replay_state(problem: ReachabilityProblem, cells: Seq<CellCoord>, t: int) -> (Board, PlayerColor) {
    play_state(problem.initial_board, PlayerColor::Black, cells.take(t), problem.black_placement_mask, problem.white_placement_mask)->0
}

/// The assignment that replaying `cells` gives the constants: the
/// bitboards after each prefix of the moves, whether Black is to move,
/// the position of each move, and whether its player to move passed.
pub open spec fn replay_model(problem: ReachabilityProblem, cells: Seq<CellCoord>) -> spec_fn(Var) -> Value {
    |v: Var| match v {
        Var::Black(t) => Value::Bits(board_bits(replay_state(problem, cells, t as int).0).black),
        Var::White(t) => Value::Bits(board_bits(replay_state(problem, cells, t as int).0).white),
        Var::Turn(t) => Value::Truth(replay_state(problem, cells, t as int).1 == PlayerColor::Black),
        Var::Pos(t) => Value::Bits((cells[t as int].y() * 6 + cells[t as int].x()) as u64),
        Var::Pass(t) => {
            let state = replay_state(problem, cells, t as int);
            Value::Truth(
                acting_player(state.0, state.1, problem.black_placement_mask, problem.white_placement_mask) != state.1,
            )
        },
    }
}

/// Every game that solves the problem from the standard initial board has
/// as many moves as the target has disks beyond the initial four, and
/// replaying it gives an assignment of the right sorts under which the
/// constraints built for the target hold.
pub proof fn lemma_games_are_models(problem: ReachabilityProblem, cells: Seq<CellCoord>)
    requires
        problem.initial_board == standard_initial_board(),
        problem.solved_by(cells),
    ensures
        cells.len() == move_count(problem.target_board),
        well_sorted(replay_model(problem, cells), move_count(problem.target_board)),
        constraints_hold(
            model_blacks(replay_model(problem, cells), move_count(problem.target_board)),
            model_whites(replay_model(problem, cells), move_count(problem.target_board)),
            model_turns(replay_model(problem, cells), move_count(problem.target_board)),
            model_positions(replay_model(problem, cells), move_count(problem.target_board)),
            model_passes(replay_model(problem, cells), move_count(problem.target_board)),
            board_bits(standard_initial_board()),
            board_bits(problem.target_board),
            mask_bits(problem.black_placement_mask),
            mask_bits(problem.white_placement_mask),
        ),
{
    let m = replay_model(problem, cells);
    let n = cells.len() as int;
    let bm = problem.black_placement_mask;
    let wm = problem.white_placement_mask;
    let init = problem.initial_board;
    lemma_board_has_bitboards(standard_initial_board());
    lemma_board_has_bitboards(problem.target_board);
    lemma_mask_has_bits(bm);
    lemma_mask_has_bits(wm);
    lemma_initial_board_disks(standard_initial_board());
    crate::game::lemma_play_adds_disks(init, PlayerColor::Black, cells, bm, wm);
    problem.target_board.lemma_filled_upto_bound(36);
    assert(n <= 32);
    let blacks = model_blacks(m, n);
    let whites = model_whites(m, n);
    let turns = model_turns(m, n);
    let positions = model_positions(m, n);
    let passes = model_passes(m, n);
    assert forall|t: int| 0 <= t <= n implies (#[trigger] play_state(init, PlayerColor::Black, cells.take(t), bm, wm) matches Some(state)
        && state.0.has_bitboards(BitBoard { white: whites[t], black: blacks[t] })) by {
        lemma_play_prefix(init, PlayerColor::Black, cells, t, bm, wm);
        let state = play_state(init, PlayerColor::Black, cells.take(t), bm, wm)->0;
        lemma_board_has_bitboards(state.0);
        assert((t as usize) as int == t);
        assert(replay_state(problem, cells, t) == state);
        assert(blacks[t] == board_bits(state.0).black);
        assert(whites[t] == board_bits(state.0).white);
    }
    assert forall|t: int| 0 <= t < n implies {
        let state = play_state(init, PlayerColor::Black, cells.take(t), bm, wm)->0;
        &&& #[trigger] turns[t] == (state.1 == PlayerColor::Black)
        &&& passes[t] == (acting_player(state.0, state.1, bm, wm) != state.1)
        &&& positions[t] == cells[t].y() * 6 + cells[t].x()
    } by {
        CellCoord::lemma_coordinates(cells[t]);
    }
    assert(is_replay(problem, cells, blacks, whites, turns, positions, passes));
    lemma_encoding_complete(
        problem,
        cells,
        blacks,
        whites,
        turns,
        positions,
        passes,
        board_bits(standard_initial_board()),
        board_bits(problem.target_board),
        mask_bits(bm),
        mask_bits(wm),
    );
    lemma_initial_board_disks(standard_initial_board());
}

/// A solver that hands the encoding to Yices2 with Kissat as its SAT back end.
pub struct Yices2KissatSolver {
    last_run: Transcript,
}

impl Yices2KissatSolver {
    /// The conversation with the solver process in the last call of
    /// `solve`; empty where that call started none.
    pub closed spec fn conversation(&self) -> Seq<(bool, Seq<char>)> {
        self.last_run.log()
    }
}

/// Whether `nodes` and `constraints` encode the problem as
/// `generate_reversi_constraints` does: `8 * n + 5` constraints over the
/// arena, holding under an assignment of the right sorts exactly where
/// `constraints_hold` holds of its values, from the standard initial board
/// to the target, with the two masks.
pub open spec fn encodes(nodes: Seq<Node>, constraints: Seq<usize>, problem: ReachabilityProblem) -> bool {
    let n = move_count(problem.target_board);
    &&& constraints.len() == 8 * n + 5
    &&& all_below(constraints, nodes.len() as int)
    &&& forall|m: spec_fn(Var) -> Value|
        well_sorted(m, n) ==> (#[trigger] all_hold(nodes, constraints, m) <==> constraints_hold(
            model_blacks(m, n),
            model_whites(m, n),
            model_turns(m, n),
            model_positions(m, n),
            model_passes(m, n),
            board_bits(standard_initial_board()),
            board_bits(problem.target_board),
            mask_bits(problem.black_placement_mask),
            mask_bits(problem.white_placement_mask),
        ))
}

/// The conversation of handing `nodes` and `constraints` to the solver,
/// every command acknowledged, and asking for a check answered `answer`.
pub open spec fn asked(nodes: Seq<Node>, constraints: Seq<usize>, answer: Seq<char>) -> Seq<(bool, Seq<char>)> {
    acknowledged(script(nodes, constraints)) + seq![(true, "(check-sat)"@), (false, answer)]
}

/// Whether `log` is the conversation in which an encoding of the problem
/// was handed to the solver and the solver answered `unsat`.
pub open spec fn refuted(problem: ReachabilityProblem, log: Seq<(bool, Seq<char>)>) -> bool {
    exists|nodes: Seq<Node>, constraints: Seq<usize>|
        #[trigger] encodes(nodes, constraints, problem) && log == asked(nodes, constraints, "unsat"@)
}

/// The constants whose values are read back from a model, in the order
/// they are asked: the move positions, the black boards, the white boards,
/// the turn flags, the pass flags.
pub open spec fn model_vars(n: int) -> Seq<Var> {
    Seq::new(n as nat, |t: int| Var::Pos(t as usize)) + Seq::new((n + 1) as nat, |t: int| Var::Black(t as usize)) + Seq::new(
        (n + 1) as nat,
        |t: int| Var::White(t as usize),
    ) + Seq::new(n as nat, |t: int| Var::Turn(t as usize)) + Seq::new(n as nat, |t: int| Var::Pass(t as usize))
}

/// A flag as the value 1 or 0.
pub open spec fn flag_value(b: bool) -> u64 {
    if b {
        1
    } else {
        0
    }
}

/// The values of a trace, in the order of `model_vars`.
pub open spec fn trace_values(trace: SolverTrace) -> Seq<u64> {
    Seq::new(trace.move_positions@.len(), |i: int| trace.move_positions@[i] as u64) + trace.black_bitboards@
        + trace.white_bitboards@ + Seq::new(trace.is_black_turns@.len(), |i: int| flag_value(trace.is_black_turns@[i]))
        + Seq::new(trace.passes@.len(), |i: int| flag_value(trace.passes@[i]))
}

/// Whether `log` is the conversation in which an encoding of the problem
/// was handed to the solver, the solver answered `sat`, and the values of
/// `trace` were then read back, one `get-value` query per constant.
pub open spec fn model_read(problem: ReachabilityProblem, log: Seq<(bool, Seq<char>)>, trace: SolverTrace) -> bool {
    exists|nodes: Seq<Node>, constraints: Seq<usize>|
        #[trigger] encodes(nodes, constraints, problem) && log_extends(asked(nodes, constraints, "sat"@), log) && answered_values(
            log,
            asked(nodes, constraints, "sat"@).len() as int,
            model_vars(move_count(problem.target_board)),
            trace_values(trace),
        )
}

/// Whether `trace` and `progression` are what `solve` reads from a model
/// for a target with `n` moves: a board pair per step, a turn and a pass per
/// move, and one cell on the board per model value of the move positions.
pub open spec fn read_from_model(progression: Seq<CellCoord>, trace: SolverTrace, n: int) -> bool {
    &&& trace.black_bitboards@.len() == n + 1
    &&& trace.white_bitboards@.len() == n + 1
    &&& trace.is_black_turns@.len() == n
    &&& trace.passes@.len() == n
    &&& progression.len() == trace.move_positions@.len()
    &&& forall|i: int| 0 <= i < progression.len() ==> {
        let pos = #[trigger] trace.move_positions@[i] as int;
        &&& pos < 36
        &&& progression[i] == CellCoord::at(pos % 6, pos / 6)
    }
}

/// The cells of the move positions, where every position is on the board.
pub open spec fn trace_cells(trace: SolverTrace) -> Seq<CellCoord> {
    Seq::new(
        trace.move_positions@.len(),
        |i: int| CellCoord::at(trace.move_positions@[i] as int % 6, trace.move_positions@[i] as int / 6),
    )
}

/// The move positions of `trace`, as integers.
pub open spec fn trace_positions(trace: SolverTrace) -> Seq<int> {
    Seq::new(trace.move_positions@.len(), |i: int| trace.move_positions@[i] as int)
}

/// Whether the turn flag, the pass flag and the move position of move `j`
/// of `trace` are those of replaying `cells`.
pub open spec fn flags_replayed(problem: ReachabilityProblem, cells: Seq<CellCoord>, trace: SolverTrace, j: int) -> bool {
    let state = play_state(
        problem.initial_board,
        PlayerColor::Black,
        cells.take(j),
        problem.black_placement_mask,
        problem.white_placement_mask,
    )->0;
    &&& trace.is_black_turns@[j] == (state.1 == PlayerColor::Black)
    &&& trace.passes@[j] == (acting_player(state.0, state.1, problem.black_placement_mask, problem.white_placement_mask) != state.1)
    &&& trace_positions(trace)[j] == cells[j].y() * 6 + cells[j].x()
}

/// Whether the values of `trace` are those of replaying `cells` (see
/// `encoding::is_replay`): the bitboards after each prefix of the moves,
/// the turn and pass flags and the move positions.
fn trace_matches_replay(problem: &ReachabilityProblem, cells: &Vec<CellCoord>, trace: &SolverTrace) -> (agrees: bool)
    ensures
        agrees == is_replay(
            *problem,
            cells@,
            trace.black_bitboards@,
            trace.white_bitboards@,
            trace.is_black_turns@,
            trace_positions(*trace),
            trace.passes@,
        ),
{
    let ghost spec_agrees = is_replay(
        *problem,
        cells@,
        trace.black_bitboards@,
        trace.white_bitboards@,
        trace.is_black_turns@,
        trace_positions(*trace),
        trace.passes@,
    );
    let n = cells.len();
    if trace.black_bitboards.len() == 0 || trace.white_bitboards.len() == 0 || trace.black_bitboards.len() - 1 != n
        || trace.white_bitboards.len() - 1 != n || trace.is_black_turns.len() != n || trace.move_positions.len() != n
        || trace.passes.len() != n {
        return false;
    }
    let ghost init = problem.initial_board;
    let ghost bm = problem.black_placement_mask;
    let ghost wm = problem.white_placement_mask;
    let mut board = problem.initial_board;
    let mut current = PlayerColor::Black;
    let mut t: usize = 0;
    proof {
        assert(cells@.take(0) =~= Seq::<CellCoord>::empty());
    }
    while t < n
        invariant
            t <= n,
            n == cells@.len(),
            trace.black_bitboards@.len() == n + 1,
            trace.white_bitboards@.len() == n + 1,
            trace.is_black_turns@.len() == n,
            trace.move_positions@.len() == n,
            trace.passes@.len() == n,
            init == problem.initial_board,
            bm == problem.black_placement_mask,
            wm == problem.white_placement_mask,
            spec_agrees == is_replay(
                *problem,
                cells@,
                trace.black_bitboards@,
                trace.white_bitboards@,
                trace.is_black_turns@,
                trace_positions(*trace),
                trace.passes@,
            ),
            play_state(init, PlayerColor::Black, cells@.take(t as int), bm, wm) == Some((board, current)),
            forall|j: int| 0 <= j < t ==> (#[trigger] play_state(init, PlayerColor::Black, cells@.take(j), bm, wm) matches Some(state)
                && state.0.has_bitboards(BitBoard { white: trace.white_bitboards@[j], black: trace.black_bitboards@[j] })),
            forall|j: int| 0 <= j < t ==> #[trigger] flags_replayed(*problem, cells@, *trace, j),
        decreases n - t,
    {
        let bb = board.to_bitboards();
        if bb.black != trace.black_bitboards[t] || bb.white != trace.white_bitboards[t] {
            proof {
                if spec_agrees {
                    assert(play_state(init, PlayerColor::Black, cells@.take(t as int), bm, wm) matches Some(state)
                        && state.0.has_bitboards(
                        BitBoard { white: trace.white_bitboards@[t as int], black: trace.black_bitboards@[t as int] },
                    ));
                    lemma_bitboards_unique(
                        board,
                        bb,
                        BitBoard { white: trace.white_bitboards@[t as int], black: trace.black_bitboards@[t as int] },
                    );
                }
            }
            return false;
        }
        let is_black = match current {
            PlayerColor::Black => true,
            PlayerColor::White => false,
        };
        if trace.is_black_turns[t] != is_black {
            return false;
        }
        let moves_current = crate::game::moves_available_with_mask(
            &board,
            &current,
            &problem.black_placement_mask,
            &problem.white_placement_mask,
        );
        proof {
            crate::game::lemma_allowed_moves_nonempty(board, current, crate::game::mask_for(current, bm, wm));
        }
        let mover = if moves_current.len() == 0 {
            current.opponent()
        } else {
            current
        };
        let passed = moves_current.len() == 0;
        if trace.passes[t] != passed {
            return false;
        }
        let cell = cells[t];
        let column = *cell.column();
        let row = *cell.row();
        if (row as usize) * 6 + (column as usize) != trace.move_positions[t] as usize {
            return false;
        }
        let ghost prev = cells@.take(t as int);
        proof {
            CellCoord::lemma_coordinates(cell);
            assert(trace.is_black_turns@[t as int] == (current == PlayerColor::Black));
            assert(trace.passes@[t as int] == (acting_player(board, current, bm, wm) != current));
            assert(trace_positions(*trace)[t as int] == cell.y() * 6 + cell.x());
            assert(cells@.take(t + 1) =~= prev.push(cell));
            crate::game::lemma_play_state_push(init, PlayerColor::Black, prev, cell, bm, wm);
            assert(seq![cell][0] == cell);
            assert(seq![cell].drop_first() =~= Seq::<CellCoord>::empty());
        }
        let ghost old_state = (board, current);
        match board.place_disk(column, row, &mover) {
            Some(next) => {
                proof {
                    assert(play_state(next, mover.other(), seq![cell].drop_first(), bm, wm) == Some((next, mover.other())));
                    assert(play_state(board, current, seq![cell], bm, wm) == Some((next, mover.other())));
                }
                board = next;
                current = mover.opponent();
            },
            None => {
                proof {
                    if spec_agrees {
                        assert(play_state(init, PlayerColor::Black, cells@.take(t + 1), bm, wm) is Some);
                    }
                }
                return false;
            },
        }
        proof {
            assert(play_state(init, PlayerColor::Black, cells@.take(t as int), bm, wm)->0 == old_state);
            assert(cells@[t as int] == cell);
            assert(flags_replayed(*problem, cells@, *trace, t as int));
        }
        t += 1;
    }
    let bb = board.to_bitboards();
    if bb.black != trace.black_bitboards[n] || bb.white != trace.white_bitboards[n] {
        proof {
            if spec_agrees {
                assert(play_state(init, PlayerColor::Black, cells@.take(n as int), bm, wm) matches Some(state) && state.0.has_bitboards(
                    BitBoard { white: trace.white_bitboards@[n as int], black: trace.black_bitboards@[n as int] },
                ));
                lemma_bitboards_unique(
                    board,
                    bb,
                    BitBoard { white: trace.white_bitboards@[n as int], black: trace.black_bitboards@[n as int] },
                );
            }
        }
        return false;
    }
    proof {
        assert forall|j: int| 0 <= j <= n implies (#[trigger] play_state(init, PlayerColor::Black, cells@.take(j), bm, wm) matches Some(
            state,
        ) && state.0.has_bitboards(BitBoard { white: trace.white_bitboards@[j], black: trace.black_bitboards@[j] })) by {
            if j == n {
                assert(BitBoard { white: trace.white_bitboards@[j], black: trace.black_bitboards@[j] } == bb);
            }
        }
        assert forall|j: int| 0 <= j < n implies {
            let state = play_state(init, PlayerColor::Black, cells@.take(j), bm, wm)->0;
            &&& #[trigger] trace.is_black_turns@[j] == (state.1 == PlayerColor::Black)
            &&& trace.passes@[j] == (acting_player(state.0, state.1, bm, wm) != state.1)
            &&& trace_positions(*trace)[j] == cells@[j].y() * 6 + cells@[j].x()
        } by {
            assert(flags_replayed(*problem, cells@, *trace, j));
        }
        assert(is_replay(
            *problem,
            cells@,
            trace.black_bitboards@,
            trace.white_bitboards@,
            trace.is_black_turns@,
            trace_positions(*trace),
            trace.passes@,
        ));
    }
    true
}

/// A game trace read from a solver trace that is the replay of a solving
/// game (as `solve` guarantees of a `Reachable` answer) follows the game:
/// each step starts on the board of the replay and is the move of the
/// player who acts there, and the trace ends on the target.
pub proof fn lemma_trace_steps_follow_game(
    problem: ReachabilityProblem,
    cells: Seq<CellCoord>,
    trace: SolverTrace,
    game: GameTrace,
    t: int,
)
    requires
        problem.solved_by(cells),
        is_replay(
            problem,
            cells,
            trace.black_bitboards@,
            trace.white_bitboards@,
            trace.is_black_turns@,
            trace_positions(trace),
            trace.passes@,
        ),
        game.steps@.len() == trace.move_positions@.len(),
        forall|j: int| 0 <= j < game.steps@.len() ==> {
            let step = #[trigger] game.steps@[j];
            let pos = trace.move_positions@[j] as int;
            &&& step.board_before.decodes(trace.black_bitboards@[j], trace.white_bitboards@[j])
            &&& step.player == trace.mover(j)
            &&& step.move_cell == CellCoord::at(pos % 6, pos / 6)
        },
        game.final_board.decodes(trace.black_bitboards@.last(), trace.white_bitboards@.last()),
        0 <= t < cells.len(),
    ensures
        game.steps@[t].board_before == replay_state(problem, cells, t).0,
        game.steps@[t].player == acting_player(
            replay_state(problem, cells, t).0,
            replay_state(problem, cells, t).1,
            problem.black_placement_mask,
            problem.white_placement_mask,
        ),
        game.steps@[t].move_cell == cells[t],
        game.final_board == problem.target_board,
{
    let init = problem.initial_board;
    let bm = problem.black_placement_mask;
    let wm = problem.white_placement_mask;
    let n = cells.len() as int;
    let state = replay_state(problem, cells, t);
    assert(play_state(init, PlayerColor::Black, cells.take(t), bm, wm) matches Some(s) && s.0.has_bitboards(
        BitBoard { white: trace.white_bitboards@[t], black: trace.black_bitboards@[t] },
    ));
    let step = game.steps@[t];
    lemma_bitboards_round_trip(state.0, BitBoard { white: trace.white_bitboards@[t], black: trace.black_bitboards@[t] }, step.board_before);
    assert(trace.is_black_turns@[t] == (state.1 == PlayerColor::Black));
    // the move is the cell of the game, which is on the board
    let c = cells[t];
    assert(cells.take(t + 1) =~= cells.take(t).push(c));
    crate::game::lemma_play_state_push(init, PlayerColor::Black, cells.take(t), c, bm, wm);
    assert(play_state(init, PlayerColor::Black, cells.take(t + 1), bm, wm) matches Some(s) && s.0.has_bitboards(
        BitBoard { white: trace.white_bitboards@[t + 1], black: trace.black_bitboards@[t + 1] },
    ));
    assert(seq![c][0] == c);
    let mover = acting_player(state.0, state.1, bm, wm);
    assert(state.0.after_move(c.x(), c.y(), mover) is Some);
    let pos = trace.move_positions@[t] as int;
    assert(pos == c.y() * 6 + c.x());
    assert(pos % 6 == c.x() && pos / 6 == c.y());
    CellCoord::lemma_coordinates(c);
    // the final board
    assert(cells.take(n) =~= cells);
    assert(play_state(init, PlayerColor::Black, cells.take(n), bm, wm) matches Some(s) && s.0.has_bitboards(
        BitBoard { white: trace.white_bitboards@[n], black: trace.black_bitboards@[n] },
    ));
    crate::game::lemma_play_from_state(init, PlayerColor::Black, cells, bm, wm);
    let last = replay_state(problem, cells, n);
    lemma_bitboards_round_trip(last.0, BitBoard { white: trace.white_bitboards@[n], black: trace.black_bitboards@[n] }, game.final_board);
}

/// The game read from a solver trace that is the replay of a solving game
/// (as `solve` guarantees of a `Reachable` answer) has the moves that
/// `to_moves` gives for the game: as many steps, each with the same player
/// and cell; it starts on the initial board and ends on the target.
pub proof fn lemma_trace_game_matches_moves(problem: ReachabilityProblem, cells: Seq<CellCoord>, trace: SolverTrace, game: GameTrace)
    requires
        problem.solved_by(cells),
        is_replay(
            problem,
            cells,
            trace.black_bitboards@,
            trace.white_bitboards@,
            trace.is_black_turns@,
            trace_positions(trace),
            trace.passes@,
        ),
        game.steps@.len() == trace.move_positions@.len(),
        forall|j: int| 0 <= j < game.steps@.len() ==> {
            let step = #[trigger] game.steps@[j];
            let pos = trace.move_positions@[j] as int;
            &&& step.board_before.decodes(trace.black_bitboards@[j], trace.white_bitboards@[j])
            &&& step.player == trace.mover(j)
            &&& step.move_cell == CellCoord::at(pos % 6, pos / 6)
        },
        game.final_board.decodes(trace.black_bitboards@.last(), trace.white_bitboards@.last()),
    ensures
        ({
            let moves = moves_of(
                cells,
                players_from(
                    problem.initial_board,
                    PlayerColor::Black,
                    cells,
                    problem.black_placement_mask,
                    problem.white_placement_mask,
                ),
            );
            &&& game.steps@.len() == moves.len()
            &&& forall|t: int|
                0 <= t < moves.len() ==> (#[trigger] game.steps@[t]).player == moves[t].player && game.steps@[t].move_cell
                    == moves[t].cell
            &&& moves.len() > 0 ==> game.steps@[0].board_before == problem.initial_board
            &&& game.final_board == problem.target_board
        }),
{
    let init = problem.initial_board;
    let bm = problem.black_placement_mask;
    let wm = problem.white_placement_mask;
    let n = cells.len() as int;
    assert(cells.take(n) =~= cells);
    assert(play_state(init, PlayerColor::Black, cells.take(n), bm, wm) is Some);
    lemma_players_len(init, PlayerColor::Black, cells, bm, wm);
    let players = players_from(init, PlayerColor::Black, cells, bm, wm);
    let moves = moves_of(cells, players);
    assert forall|t: int| 0 <= t < moves.len() implies (#[trigger] game.steps@[t]).player == moves[t].player
        && game.steps@[t].move_cell == moves[t].cell by {
        lemma_trace_steps_follow_game(problem, cells, trace, game, t);
        lemma_players_act(init, PlayerColor::Black, cells, bm, wm, t);
    }
    if n > 0 {
        lemma_trace_steps_follow_game(problem, cells, trace, game, 0);
        assert(cells.take(0) =~= Seq::<CellCoord>::empty());
    } else {
        assert(cells.take(0) =~= Seq::<CellCoord>::empty());
        assert(cells =~= Seq::<CellCoord>::empty());
        let bb = BitBoard { white: trace.white_bitboards@[0], black: trace.black_bitboards@[0] };
        assert(play_state(init, PlayerColor::Black, cells.take(0), bm, wm) == Some((init, PlayerColor::Black)));
        assert(init.has_bitboards(bb));
        assert(play_from(init, PlayerColor::Black, cells, bm, wm) == Some(init));
        lemma_bitboards_round_trip(init, bb, game.final_board);
    }
}

/// The answer for a problem whose target needs `n` moves, from the
/// solver's answer to the satisfiability check (`None` where the solver
/// failed) and the model read back (`None` where it could not be read):
/// `Unreachable` for unsatisfiable; for satisfiable, `Reachable` with the
/// moves of the model where it has `n` moves, all on the board, and they
/// solve the problem; `Unknown` otherwise.
pub fn answer_from_solver(
    problem: &ReachabilityProblem,
    n: usize,
    response: Option<smt::SmtResponse>,
    model: Option<SolverTrace>,
) -> (result: ReachabilitySolverResult<SolverTrace, ()>)
    requires
        n <= 36,
    ensures
        (response matches Some(smt::SmtResponse::Unsat)) <==> result is Unreachable,
        result matches ReachabilitySolverResult::Reachable(progression, trace) ==> {
            &&& response matches Some(smt::SmtResponse::Sat)
            &&& model == Some(trace)
            &&& read_from_model(progression@, trace, n as int)
            &&& progression@.len() == n
            &&& progression@ == trace_cells(trace)
            &&& problem.solved_by(progression@)
            &&& is_replay(
                *problem,
                progression@,
                trace.black_bitboards@,
                trace.white_bitboards@,
                trace.is_black_turns@,
                trace_positions(trace),
                trace.passes@,
            )
        },
        (response matches Some(smt::SmtResponse::Sat) && model matches Some(trace) && trace.black_bitboards@.len() == n + 1
            && trace.white_bitboards@.len() == n + 1 && trace.is_black_turns@.len() == n && trace.passes@.len() == n
            && trace.move_positions@.len() == n && (forall|i: int| 0 <= i < n ==> #[trigger] trace.move_positions@[i] < 36)
            && problem.solved_by(trace_cells(trace)) && is_replay(
            *problem,
            trace_cells(trace),
            trace.black_bitboards@,
            trace.white_bitboards@,
            trace.is_black_turns@,
            trace_positions(trace),
            trace.passes@,
        )) ==> result is Reachable,
{
    match response {
        None => ReachabilitySolverResult::Unknown,
        Some(smt::SmtResponse::Unsat) => ReachabilitySolverResult::Unreachable(()),
        Some(smt::SmtResponse::Unknown) => ReachabilitySolverResult::Unknown,
        Some(smt::SmtResponse::Sat) => {
            let trace = match model {
                Some(trace) => trace,
                None => return ReachabilitySolverResult::Unknown,
            };
            if trace.black_bitboards.len() != n + 1 || trace.white_bitboards.len() != n + 1 || trace.is_black_turns.len() != n
                || trace.passes.len() != n || trace.move_positions.len() != n {
                return ReachabilitySolverResult::Unknown;
            }
            let mut moves: Vec<CellCoord> = Vec::new();
            let mut k: usize = 0;
            while k < trace.move_positions.len()
                invariant
                    k <= trace.move_positions@.len(),
                    response == Some(smt::SmtResponse::Sat),
                    model == Some(trace),
                    n <= 36,
                    trace.move_positions@.len() == n,
                    moves@.len() == k,
                    forall|j: int| 0 <= j < k ==> {
                        let pos = #[trigger] trace.move_positions@[j] as int;
                        &&& pos < 36
                        &&& moves@[j] == CellCoord::at(pos % 6, pos / 6)
                    },
                decreases trace.move_positions@.len() - k,
            {
                let pos = trace.move_positions[k];
                if pos >= 36 {
                    return ReachabilitySolverResult::Unknown;
                }
                moves.push(CellCoord::new(pos % 6, pos / 6));
                k += 1;
            }
            proof {
                assert(moves@ =~= trace_cells(trace));
            }
            if !trace_matches_replay(problem, &moves, &trace) {
                return ReachabilitySolverResult::Unknown;
            }
            let progression = UncheckedGameProgression::new(moves);
            if !problem.admits_as_solution(&progression) {
                return ReachabilitySolverResult::Unknown;
            }
            ReachabilitySolverResult::Reachable(progression, trace)
        },
    }
}

/// The constant of kind `kind` at step `t`: a move position (0), a black
/// board (1), a white board (2), a turn flag (3) or a pass flag (4).
pub open spec fn kind_var(kind: u8, t: usize) -> Var {
    if kind == 0 {
        Var::Pos(t)
    } else if kind == 1 {
        Var::Black(t)
    } else if kind == 2 {
        Var::White(t)
    } else if kind == 3 {
        Var::Turn(t)
    } else {
        Var::Pass(t)
    }
}

/// Appends the constants of kind `kind` at steps `0..count`.
fn push_steps(vars: &mut Vec<Var>, kind: u8, count: usize)
    ensures
        final(vars)@ == old(vars)@ + Seq::new(count as nat, |t: int| kind_var(kind, t as usize)),
{
    let ghost start = vars@;
    let mut t: usize = 0;
    while t < count
        invariant
            t <= count,
            vars@ == start + Seq::new(t as nat, |j: int| kind_var(kind, j as usize)),
        decreases count - t,
    {
        let v = if kind == 0 {
            Var::Pos(t)
        } else if kind == 1 {
            Var::Black(t)
        } else if kind == 2 {
            Var::White(t)
        } else if kind == 3 {
            Var::Turn(t)
        } else {
            Var::Pass(t)
        };
        vars.push(v);
        proof {
            assert(vars@ =~= start + Seq::new((t + 1) as nat, |j: int| kind_var(kind, j as usize)));
        }
        t += 1;
    }
}

/// Whether `log` is the conversation in which `nodes` and `constraints`
/// were handed to the solver, every command acknowledged, the check was
/// answered `sat`, and the values of `trace`, a trace of the problem's
/// number of moves, were then read back, one `get-value` query per
/// constant in the order of `model_vars`, and nothing more was said.
pub open spec fn sat_read(
    nodes: Seq<Node>,
    constraints: Seq<usize>,
    problem: ReachabilityProblem,
    log: Seq<(bool, Seq<char>)>,
    trace: SolverTrace,
) -> bool {
    let a = asked(nodes, constraints, "sat"@);
    let n = move_count(problem.target_board);
    &&& log_extends(a, log)
    &&& log.len() == a.len() + 2 * (5 * n + 2)
    &&& trace_lengths(trace, n)
    &&& answered_values(log, a.len() as int, model_vars(n), trace_values(trace))
}

/// Whether the moves of `trace` are on the board, solve the problem, and
/// the trace is their replay.
pub open spec fn admitted(problem: ReachabilityProblem, trace: SolverTrace) -> bool {
    &&& forall|i: int| 0 <= i < trace.move_positions@.len() ==> #[trigger] trace.move_positions@[i] < 36
    &&& problem.solved_by(trace_cells(trace))
    &&& is_replay(
        problem,
        trace_cells(trace),
        trace.black_bitboards@,
        trace.white_bitboards@,
        trace.is_black_turns@,
        trace_positions(trace),
        trace.passes@,
    )
}

/// The check of a conversation that begins with `asked(..)` follows the
/// acknowledged script, and the answer follows the check.
proof fn lemma_asked_begins(nodes: Seq<Node>, constraints: Seq<usize>, answer: Seq<char>, log: Seq<(bool, Seq<char>)>)
    requires
        log_extends(asked(nodes, constraints, answer), log),
    ensures
        log_extends(acknowledged(script(nodes, constraints)).push((true, "(check-sat)"@)), log),
        log[acknowledged(script(nodes, constraints)).len() + 1int] == (false, answer),
        forall|k: int| 0 <= k < script(nodes, constraints).len() ==> #[trigger] script(nodes, constraints)[k] != "(check-sat)"@,
{
    let a = acknowledged(script(nodes, constraints));
    let full = asked(nodes, constraints, answer);
    assert forall|k: int| 0 <= k < a.push((true, "(check-sat)"@)).len() implies #[trigger] log[k] == a.push((true, "(check-sat)"@))[k] by {
        assert(log[k] == full[k]);
    }
    assert(log[a.len() + 1int] == full[a.len() + 1int]);
    assert forall|k: int| 0 <= k < script(nodes, constraints).len() implies #[trigger] script(nodes, constraints)[k] != "(check-sat)"@ by {
        lemma_script_has_no_check(nodes, constraints, k);
    }
}

/// Two scripts without a check, each acknowledged and followed by a check
/// at the start of one conversation, have the same length.
proof fn lemma_check_position(s1: Seq<Seq<char>>, s2: Seq<Seq<char>>, log: Seq<(bool, Seq<char>)>)
    requires
        log_extends(acknowledged(s1).push((true, "(check-sat)"@)), log),
        log_extends(acknowledged(s2).push((true, "(check-sat)"@)), log),
        forall|k: int| 0 <= k < s1.len() ==> #[trigger] s1[k] != "(check-sat)"@,
        forall|k: int| 0 <= k < s2.len() ==> #[trigger] s2[k] != "(check-sat)"@,
    ensures
        s1.len() == s2.len(),
{
    lemma_acknowledged_len(s1);
    lemma_acknowledged_len(s2);
    if s1.len() < s2.len() {
        let j = s1.len() as int;
        assert(log[2 * j] == acknowledged(s1).push((true, "(check-sat)"@))[2 * j]);
        assert(log[2 * j] == acknowledged(s2).push((true, "(check-sat)"@))[2 * j]);
        lemma_acknowledged_at(s2, j);
        assert(s2[j] == "(check-sat)"@);
    } else if s2.len() < s1.len() {
        let j = s2.len() as int;
        assert(log[2 * j] == acknowledged(s2).push((true, "(check-sat)"@))[2 * j]);
        assert(log[2 * j] == acknowledged(s1).push((true, "(check-sat)"@))[2 * j]);
        lemma_acknowledged_at(s1, j);
        assert(s1[j] == "(check-sat)"@);
    }
}

/// In a conversation whose even lines are the commands of a script
/// without a check, a check after another acknowledged script comes after
/// all those commands.
proof fn lemma_check_beyond(s1: Seq<Seq<char>>, s2: Seq<Seq<char>>, log: Seq<(bool, Seq<char>)>)
    requires
        forall|k: int| 0 <= k < s1.len() && 2 * k < log.len() ==> #[trigger] log[2 * k] == (true, s1[k]),
        log_extends(acknowledged(s2).push((true, "(check-sat)"@)), log),
        forall|k: int| 0 <= k < s1.len() ==> #[trigger] s1[k] != "(check-sat)"@,
    ensures
        s2.len() >= s1.len(),
        log.len() > 2 * s2.len(),
{
    lemma_acknowledged_len(s2);
    let m = s2.len() as int;
    assert(log[2 * m] == acknowledged(s2).push((true, "(check-sat)"@))[2 * m]);
    if m < s1.len() {
        assert(log[2 * m] == (true, s1[m]));
    }
}

/// Whether `result` is `Unreachable` wherever `log` is the conversation
/// of a script, every command acknowledged, and a check answered `unsat`.
pub open spec fn unsat_answered(log: Seq<(bool, Seq<char>)>, result: ReachabilitySolverResult<SolverTrace, ()>) -> bool {
    forall|nodes: Seq<Node>, constraints: Seq<usize>|
        #[trigger] asked(nodes, constraints, "unsat"@) == log ==> result is Unreachable
}

/// Whether `result` is `Reachable` wherever `log` is the conversation of a
/// script answered `sat` and of reading back a trace (see `sat_read`) that
/// the problem admits.
pub open spec fn sat_answered(
    problem: ReachabilityProblem,
    log: Seq<(bool, Seq<char>)>,
    result: ReachabilitySolverResult<SolverTrace, ()>,
) -> bool {
    forall|nodes: Seq<Node>, constraints: Seq<usize>, trace: SolverTrace|
        #[trigger] sat_read(nodes, constraints, problem, log, trace) && admitted(problem, trace) ==> result is Reachable
}

/// Where nothing was said, no conversation of a script is held.
proof fn lemma_nothing_said(problem: ReachabilityProblem, result: ReachabilitySolverResult<SolverTrace, ()>)
    ensures
        unsat_answered(Seq::empty(), result),
        sat_answered(problem, Seq::empty(), result),
{
    assert forall|nodes: Seq<Node>, constraints: Seq<usize>|
        #[trigger] asked(nodes, constraints, "unsat"@) == Seq::<(bool, Seq<char>)>::empty() implies result is Unreachable by {
        assert(asked(nodes, constraints, "unsat"@).len() >= 2);
    }
    assert forall|nodes: Seq<Node>, constraints: Seq<usize>, trace: SolverTrace|
        #[trigger] sat_read(nodes, constraints, problem, Seq::empty(), trace) && admitted(problem, trace) implies result is Reachable by {
        assert(asked(nodes, constraints, "sat"@).len() >= 2);
    }
}

/// A conversation cut short inside the commands of a script holds no
/// conversation of a whole script.
proof fn lemma_cut_short(
    problem: ReachabilityProblem,
    s1: Seq<Seq<char>>,
    log: Seq<(bool, Seq<char>)>,
    result: ReachabilitySolverResult<SolverTrace, ()>,
)
    requires
        forall|k: int| 0 <= k < s1.len() && 2 * k < log.len() ==> #[trigger] log[2 * k] == (true, s1[k]),
        log.len() <= 2 * s1.len(),
        forall|k: int| 0 <= k < s1.len() ==> #[trigger] s1[k] != "(check-sat)"@,
    ensures
        unsat_answered(log, result),
        sat_answered(problem, log, result),
{
    assert forall|nodes: Seq<Node>, constraints: Seq<usize>| #[trigger] asked(nodes, constraints, "unsat"@) == log implies result is Unreachable by {
        let full = asked(nodes, constraints, "unsat"@);
        assert forall|k: int| 0 <= k < full.len() implies #[trigger] log[k] == full[k] by {}
        lemma_asked_begins(nodes, constraints, "unsat"@, log);
        lemma_check_beyond(s1, script(nodes, constraints), log);
    }
    assert forall|nodes: Seq<Node>, constraints: Seq<usize>, trace: SolverTrace|
        #[trigger] sat_read(nodes, constraints, problem, log, trace) && admitted(problem, trace) implies result is Reachable by {
        lemma_asked_begins(nodes, constraints, "sat"@, log);
        lemma_check_beyond(s1, script(nodes, constraints), log);
    }
}

/// `2` to the power `w`.
pub open spec fn power_of_two(w: nat) -> nat
    decreases w,
{
    if w == 0 {
        1
    } else {
        2 * power_of_two((w - 1) as nat)
    }
}

/// The `w` binary digits of `v`, most significant first.
pub open spec fn binary_digits(v: nat, w: nat) -> Seq<char>
    decreases w,
{
    if w == 0 {
        seq![]
    } else {
        binary_digits(v / 2, (w - 1) as nat).push(if v % 2 == 1 { '1' } else { '0' })
    }
}

/// The binary digits of a number below `2^w` read back as that number.
proof fn lemma_binary_digits_value(v: nat, w: nat)
    requires
        v < power_of_two(w),
    ensures
        binary_digits(v, w).len() == w,
        all_digits(binary_digits(v, w), 2),
        digits_value(binary_digits(v, w), 2) == v,
        w > 0 ==> binary_digits(v, w).last() == '0' || binary_digits(v, w).last() == '1',
        forall|i: int| 0 <= i < w ==> (#[trigger] binary_digits(v, w)[i] == '0' || binary_digits(v, w)[i] == '1'),
    decreases w,
{
    if w > 0 {
        let h = v / 2;
        lemma_binary_digits_value(h, (w - 1) as nat);
        let s = binary_digits(h, (w - 1) as nat);
        let c = if v % 2 == 1 { '1' } else { '0' };
        let t = s.push(c);
        assert(t.drop_last() =~= s);
        assert(digit_value(c, 2) == Some((v % 2) as int));
        assert forall|i: int| 0 <= i < t.len() implies #[trigger] digit_value(t[i], 2) is Some by {
            if i < s.len() {
                assert(t[i] == s[i]);
                assert(s[i] == '0' || s[i] == '1');
            }
        }
        assert(digits_value(t, 2) == digits_value(s, 2) * 2 + v % 2);
        assert(h * 2 + v % 2 == v);
        assert forall|i: int| 0 <= i < w implies (#[trigger] t[i] == '0' || t[i] == '1') by {
            if i < s.len() {
                assert(t[i] == s[i]);
            }
        }
    }
}

/// A bit vector that a model writes as `#b` and its `w` binary digits
/// reads as its value.
pub proof fn lemma_binary_model_number(v: nat, w: nat, max: int)
    requires
        1 <= w,
        v < power_of_two(w),
        v <= max,
    ensures
        model_number(seq!['#', 'b'] + binary_digits(v, w), max) == Some(v as int),
{
    lemma_binary_digits_value(v, w);
    let d = binary_digits(v, w);
    let s = seq!['#', 'b'] + d;
    assert(s[0] == '#');
    assert(s.last() == d.last());
    assert(leading_blanks(s) == 0);
    assert(trailing_blanks(s) == 0);
    assert(trimmed(s) =~= s);
    assert(s.subrange(2, s.len() as int) =~= d);
    assert(d[0] == '0' || d[0] == '1');
}

/// A value that a model gives as text lies between 0 and `max`.
pub proof fn lemma_model_number_bound(s: Seq<char>, max: int)
    ensures
        model_number(s, max) matches Some(x) ==> 0 <= x <= max,
{
    let t = trimmed(s);
    let u = if t.len() >= 2 && t[0] == '#' && t[1] == 'b' {
        t.subrange(2, t.len() as int)
    } else if t.len() >= 2 && t[0] == '#' && t[1] == 'x' {
        t.subrange(2, t.len() as int)
    } else {
        t
    };
    let radix: int = if t.len() >= 2 && t[0] == '#' && t[1] == 'b' {
        2
    } else if t.len() >= 2 && t[0] == '#' && t[1] == 'x' {
        16
    } else {
        10
    };
    assert(model_number(s, max) == unsigned_value(u, radix, max));
    let body = if u.len() > 0 && u[0] == '+' {
        u.drop_first()
    } else {
        u
    };
    if body.len() > 0 && all_digits(body, radix) && digits_value(body, radix) <= max {
        lemma_digits_value_grows(body, body.len() as int, radix);
        assert(body.take(body.len() as int) =~= body);
    }
}

/// A move position read from a model is at most 255, a flag 0 or 1.
pub proof fn lemma_answered_bound(log: Seq<(bool, Seq<char>)>, p: int, v: Var, x: u64)
    requires
        answered_value(log, p, v) == Some(x),
    ensures
        v is Pos ==> x <= 255,
        v is Turn || v is Pass ==> x <= 1,
{
    if v is Pos {
        let t = value_text(v, log[p + 1].1)->0;
        lemma_model_number_bound(t, 255);
    }
}

/// The values read for the same queries are the same.
pub proof fn lemma_answered_unique(log: Seq<(bool, Seq<char>)>, start: int, vars: Seq<Var>, a: Seq<u64>, b: Seq<u64>)
    requires
        answered_values(log, start, vars, a),
        answered_values(log, start, vars, b),
    ensures
        a == b,
{
    assert forall|i: int| 0 <= i < a.len() implies a[i] == b[i] by {
        assert(answered_value(log, start + 2 * i, vars[i]) == Some(a[i]));
        assert(answered_value(log, start + 2 * i, vars[i]) == Some(b[i]));
    }
    assert(a =~= b);
}

/// Whether `trace` has the lengths of a trace of `n` moves.
pub open spec fn trace_lengths(trace: SolverTrace, n: int) -> bool {
    &&& trace.move_positions@.len() == n
    &&& trace.black_bitboards@.len() == n + 1
    &&& trace.white_bitboards@.len() == n + 1
    &&& trace.is_black_turns@.len() == n
    &&& trace.passes@.len() == n
}

/// Two traces of `n` moves with the same values are the same trace.
pub proof fn lemma_trace_values_unique(a: SolverTrace, b: SolverTrace, n: int)
    requires
        n >= 0,
        trace_lengths(a, n),
        trace_lengths(b, n),
        trace_values(a) == trace_values(b),
    ensures
        a.move_positions@ == b.move_positions@,
        a.black_bitboards@ == b.black_bitboards@,
        a.white_bitboards@ == b.white_bitboards@,
        a.is_black_turns@ == b.is_black_turns@,
        a.passes@ == b.passes@,
{
    let va = trace_values(a);
    let vb = trace_values(b);
    assert forall|i: int| 0 <= i < n implies a.move_positions@[i] == b.move_positions@[i] by {
        assert(va[i] == a.move_positions@[i] as u64);
        assert(vb[i] == b.move_positions@[i] as u64);
    }
    assert forall|i: int| 0 <= i <= n implies a.black_bitboards@[i] == b.black_bitboards@[i] by {
        assert(va[n + i] == a.black_bitboards@[i]);
        assert(vb[n + i] == b.black_bitboards@[i]);
    }
    assert forall|i: int| 0 <= i <= n implies a.white_bitboards@[i] == b.white_bitboards@[i] by {
        assert(va[2 * n + 1 + i] == a.white_bitboards@[i]);
        assert(vb[2 * n + 1 + i] == b.white_bitboards@[i]);
    }
    assert forall|i: int| 0 <= i < n implies a.is_black_turns@[i] == b.is_black_turns@[i] by {
        assert(va[3 * n + 2 + i] == flag_value(a.is_black_turns@[i]));
        assert(vb[3 * n + 2 + i] == flag_value(b.is_black_turns@[i]));
    }
    assert forall|i: int| 0 <= i < n implies a.passes@[i] == b.passes@[i] by {
        assert(va[4 * n + 2 + i] == flag_value(a.passes@[i]));
        assert(vb[4 * n + 2 + i] == flag_value(b.passes@[i]));
    }
    assert(a.move_positions@ =~= b.move_positions@);
    assert(a.black_bitboards@ =~= b.black_bitboards@);
    assert(a.white_bitboards@ =~= b.white_bitboards@);
    assert(a.is_black_turns@ =~= b.is_black_turns@);
    assert(a.passes@ =~= b.passes@);
}

impl Yices2KissatSolver {
    /// Reads the model's values of the constants of an encoding with `n`
    /// moves, one `get-value` query per constant in the order of
    /// `model_vars`, as a trace. `None` exactly where a query fails (see
    /// `read_values`).
    fn read_model(session: &mut SmtSession, n: usize) -> (model: Option<SolverTrace>)
        requires
            n <= 36,
        ensures
            log_extends(old(session).log(), final(session).log()),
            model matches Some(trace) ==> {
                &&& trace_lengths(trace, n as int)
                &&& final(session).log().len() == old(session).log().len() + 2 * (5 * n + 2)
                &&& answered_values(final(session).log(), old(session).log().len() as int, model_vars(n as int), trace_values(trace))
            },
            model is None ==> exists|i: int|
                0 <= i < 5 * n + 2 && #[trigger] query_failed(
                    final(session).log(),
                    old(session).log().len() + 2 * i,
                    model_vars(n as int)[i],
                ),
    {
        let mut vars: Vec<Var> = Vec::new();
        push_steps(&mut vars, 0, n);
        push_steps(&mut vars, 1, n + 1);
        push_steps(&mut vars, 2, n + 1);
        push_steps(&mut vars, 3, n);
        push_steps(&mut vars, 4, n);
        proof {
            assert(Seq::new(n as nat, |t: int| kind_var(0, t as usize)) =~= Seq::new(n as nat, |t: int| Var::Pos(t as usize)));
            assert(Seq::new((n + 1) as nat, |t: int| kind_var(1, t as usize)) =~= Seq::new((n + 1) as nat, |t: int| Var::Black(t as usize)));
            assert(Seq::new((n + 1) as nat, |t: int| kind_var(2, t as usize)) =~= Seq::new((n + 1) as nat, |t: int| Var::White(t as usize)));
            assert(Seq::new(n as nat, |t: int| kind_var(3, t as usize)) =~= Seq::new(n as nat, |t: int| Var::Turn(t as usize)));
            assert(Seq::new(n as nat, |t: int| kind_var(4, t as usize)) =~= Seq::new(n as nat, |t: int| Var::Pass(t as usize)));
            assert(vars@ =~= model_vars(n as int));
        }
        let ghost s = session.log().len() as int;
        let vals = match read_values(session, &vars) {
            Some(v) => v,
            None => return None,
        };
        let ghost v = vals@;
        let ghost log = session.log();
        let ghost mv = model_vars(n as int);
        assert(v.len() == 5 * n + 2);
        let mut move_positions: Vec<u8> = Vec::new();
        let mut i: usize = 0;
        while i < n
            invariant
                n <= 36,
                i <= n,
                vals@ == v,
                v.len() == 5 * n + 2,
                mv == model_vars(n as int),
                answered_values(log, s, mv, v),
                move_positions@.len() == i,
                forall|j: int| 0 <= j < i ==> #[trigger] move_positions@[j] as u64 == v[j],
            decreases n - i,
        {
            let x = vals[i];
            proof {
                assert(mv[i as int] == Var::Pos(i));
                assert(answered_value(log, s + 2 * i, mv[i as int]) == Some(v[i as int]));
                lemma_answered_bound(log, s + 2 * i, mv[i as int], x);
            }
            move_positions.push(x as u8);
            i += 1;
        }
        let mut black_bitboards: Vec<u64> = Vec::new();
        let mut i: usize = 0;
        while i <= n
            invariant
                n <= 36,
                i <= n + 1,
                vals@ == v,
                v.len() == 5 * n + 2,
                black_bitboards@ == v.subrange(n as int, n + i),
            decreases n + 1 - i,
        {
            black_bitboards.push(vals[n + i]);
            proof {
                assert(black_bitboards@ =~= v.subrange(n as int, n + i + 1));
            }
            i += 1;
        }
        let mut white_bitboards: Vec<u64> = Vec::new();
        let mut i: usize = 0;
        while i <= n
            invariant
                n <= 36,
                i <= n + 1,
                vals@ == v,
                v.len() == 5 * n + 2,
                white_bitboards@ == v.subrange(2 * n + 1, 2 * n + 1 + i),
            decreases n + 1 - i,
        {
            white_bitboards.push(vals[2 * n + 1 + i]);
            proof {
                assert(white_bitboards@ =~= v.subrange(2 * n + 1, 2 * n + 1 + i + 1));
            }
            i += 1;
        }
        let mut is_black_turns: Vec<bool> = Vec::new();
        let mut i: usize = 0;
        while i < n
            invariant
                n <= 36,
                i <= n,
                vals@ == v,
                v.len() == 5 * n + 2,
                mv == model_vars(n as int),
                answered_values(log, s, mv, v),
                is_black_turns@.len() == i,
                forall|j: int| 0 <= j < i ==> flag_value(#[trigger] is_black_turns@[j]) == v[3 * n + 2 + j],
            decreases n - i,
        {
            let x = vals[3 * n + 2 + i];
            proof {
                let k = 3 * n + 2 + i;
                assert(mv[k] == Var::Turn(i));
                assert(answered_value(log, s + 2 * k, mv[k]) == Some(v[k]));
                lemma_answered_bound(log, s + 2 * k, mv[k], x);
            }
            is_black_turns.push(x == 1);
            i += 1;
        }
        let mut passes: Vec<bool> = Vec::new();
        let mut i: usize = 0;
        while i < n
            invariant
                n <= 36,
                i <= n,
                vals@ == v,
                v.len() == 5 * n + 2,
                mv == model_vars(n as int),
                answered_values(log, s, mv, v),
                passes@.len() == i,
                forall|j: int| 0 <= j < i ==> flag_value(#[trigger] passes@[j]) == v[4 * n + 2 + j],
            decreases n - i,
        {
            let x = vals[4 * n + 2 + i];
            proof {
                let k = 4 * n + 2 + i;
                assert(mv[k] == Var::Pass(i));
                assert(answered_value(log, s + 2 * k, mv[k]) == Some(v[k]));
                lemma_answered_bound(log, s + 2 * k, mv[k], x);
            }
            passes.push(x == 1);
            i += 1;
        }
        let trace = SolverTrace { black_bitboards, white_bitboards, is_black_turns, move_positions, passes };
        proof {
            let tv = trace_values(trace);
            assert(Seq::new(trace.move_positions@.len(), |i: int| trace.move_positions@[i] as u64) =~= v.subrange(0, n as int));
            assert(Seq::new(trace.is_black_turns@.len(), |i: int| flag_value(trace.is_black_turns@[i])) =~= v.subrange(3 * n + 2, 4 * n + 2));
            assert(Seq::new(trace.passes@.len(), |i: int| flag_value(trace.passes@[i])) =~= v.subrange(4 * n + 2, 5 * n + 2));
            assert(tv =~= v);
        }
        Some(trace)
    }
}

impl ReachabilitySolver for Yices2KissatSolver {
    type ExtraTraceDataOnSAT = SolverTrace;
    type ExtraTraceDataOnUNSAT = ();

    /// Encodes the problem (see `generate_reversi_constraints`), hands the
    /// encoding to Yices2 as SMT-LIB text (see `script`) and, on `sat`,
    /// reads the moves and the trace back from the model (see
    /// `answer_from_solver`). The encoding starts from the standard initial
    /// board: for another initial board the answer is `Unknown`. A target
    /// with fewer than the four initial disks is unreachable and no solver
    /// is run. Where the solver cannot be started or fails, or the model
    /// cannot be read or does not replay, the answer is `Unknown`. The
    /// answer follows the conversation: `Unreachable` wherever the solver
    /// answered `unsat` to the whole script (`unsat_answered`), `Reachable`
    /// wherever it answered `sat` and the trace read back replays a game
    /// that solves the problem (`sat_answered`).
    #[verifier::spinoff_prover]
    fn solve(&mut self, problem: &ReachabilityProblem) -> (result: ReachabilitySolverResult<SolverTrace, ()>)
        ensures
            problem.initial_board != standard_initial_board() ==> result is Unknown,
            problem.initial_board == standard_initial_board() && move_count(problem.target_board) < 0 ==> result is Unreachable,
            result is Unreachable ==> problem.initial_board == standard_initial_board() && (move_count(problem.target_board) < 0
                || refuted(*problem, final(self).conversation())),
            problem.initial_board == standard_initial_board() && move_count(problem.target_board) >= 0 ==> unsat_answered(
                final(self).conversation(),
                result,
            ),
            problem.initial_board == standard_initial_board() && move_count(problem.target_board) >= 0 ==> sat_answered(
                *problem,
                final(self).conversation(),
                result,
            ),
            result matches ReachabilitySolverResult::Reachable(progression, trace) ==> {
                &&& problem.initial_board == standard_initial_board()
                &&& model_read(*problem, final(self).conversation(), trace)
                &&& read_from_model(progression@, trace, move_count(problem.target_board))
                &&& progression@.len() == move_count(problem.target_board)
                &&& progression@ == trace_cells(trace)
                &&& problem.solved_by(progression@)
                &&& is_replay(
                    *problem,
                    progression@,
                    trace.black_bitboards@,
                    trace.white_bitboards@,
                    trace.is_black_turns@,
                    trace_positions(trace),
                    trace.passes@,
                )
                &&& constraints_hold(
                    trace.black_bitboards@,
                    trace.white_bitboards@,
                    trace.is_black_turns@,
                    trace_positions(trace),
                    trace.passes@,
                    board_bits(problem.initial_board),
                    board_bits(problem.target_board),
                    mask_bits(problem.black_placement_mask),
                    mask_bits(problem.white_placement_mask),
                )
            },
    {
        let given = problem.initial_board.to_bitboards();
        let standard = initial_board().to_bitboards();
        if given.black != standard.black || given.white != standard.white {
            proof {
                if problem.initial_board == standard_initial_board() {
                    lemma_bitboards_unique(problem.initial_board, given, standard);
                }
            }
            self.last_run = Transcript::empty();
            return ReachabilitySolverResult::Unknown;
        }
        proof {
            assert(given == standard);
            lemma_same_bitboards(problem.initial_board, standard_initial_board(), given);
        }
        if problem.target_board.filled_cells_count() < 4 {
            self.last_run = Transcript::empty();
            return ReachabilitySolverResult::Unreachable(());
        }
        let n = problem.target_board.filled_cells_count() - 4;
        proof {
            problem.target_board.lemma_filled_upto_bound(36);
            assert(move_count(problem.target_board) == n);
            assert(n <= 36);
        }
        let encoding = generate_reversi_constraints(
            &problem.target_board,
            problem.black_placement_mask,
            problem.white_placement_mask,
        );
        proof {
            assert(encodes(encoding.nodes@, encoding.constraints@, *problem));
        }
        let cmds = match script_commands(&encoding.nodes, &encoding.constraints) {
            Some(c) => c,
            None => {
                self.last_run = Transcript::empty();
                let result = answer_from_solver(problem, n, None, None);
                proof {
                    lemma_nothing_said(*problem, result);
                }
                return result;
            },
        };
        let ghost script_sent = script(encoding.nodes@, encoding.constraints@);
        proof {
            assert forall|k: int| 0 <= k < script_sent.len() implies #[trigger] script_sent[k] != "(check-sat)"@ by {
                lemma_script_has_no_check(encoding.nodes@, encoding.constraints@, k);
            }
            assert forall|k: int| 0 <= k < cmds@.len() implies #[trigger] script_sent[k] == cmds@[k]@ by {
                assert(texts(cmds@)[k] == cmds@[k]@);
            }
        }
        let args: Vec<&str> = vec!["--delegate=kissat"];
        let mut session = match open_session("yices-smt2", &args) {
            Some(s) => s,
            None => {
                self.last_run = Transcript::empty();
                let result = answer_from_solver(problem, n, None, None);
                proof {
                    lemma_nothing_said(*problem, result);
                }
                return result;
            },
        };
        if !run_commands(&mut session, &cmds) {
            let ghost log = session.log();
            self.last_run = close_session(session);
            let result = answer_from_solver(problem, n, None, None);
            proof {
                assert forall|k: int| 0 <= k < script_sent.len() && 2 * k < log.len() implies #[trigger] log[2 * k] == (true, script_sent[k]) by {
                    assert(log[0 + 2 * k] == (true, cmds@[k]@));
                }
                lemma_cut_short(*problem, script_sent, log, result);
            }
            return result;
        }
        let ghost after_run = session.log();
        proof {
            assert(after_run =~= acknowledged(script_sent));
            lemma_acknowledged_len(script_sent);
        }
        let response = check_sat(&mut session);
        let ghost after_check = session.log();
        let model = match response {
            Some(smt::SmtResponse::Sat) => Self::read_model(&mut session, n),
            _ => None,
        };
        let ghost after_model = session.log();
        let result = answer_from_solver(problem, n, response, model);
        self.last_run = close_session(session);
        proof {
            let nodes = encoding.nodes@;
            let cs = encoding.constraints@;
            let conv = after_model;
            let a = acknowledged(script_sent);
            assert(conv == self.conversation());
            assert(log_extends(a.push((true, "(check-sat)"@)), conv)) by {
                assert forall|k: int| 0 <= k < a.len() + 1 implies #[trigger] conv[k] == a.push((true, "(check-sat)"@))[k] by {
                    assert(conv[k] == after_check[k]);
                }
            }
            reveal_strlit("sat");
            reveal_strlit("unsat");
            assert forall|n2: Seq<Node>, c2: Seq<usize>| #[trigger] asked(n2, c2, "unsat"@) == conv implies result is Unreachable by {
                let full = asked(n2, c2, "unsat"@);
                assert forall|k: int| 0 <= k < full.len() implies #[trigger] conv[k] == full[k] by {}
                lemma_asked_begins(n2, c2, "unsat"@, conv);
                lemma_check_position(script_sent, script(n2, c2), conv);
                lemma_acknowledged_len(script(n2, c2));
                assert(conv.len() == a.len() + 2);
                assert(after_check.len() == a.len() + 2);
                assert(after_check[a.len() + 1int] == conv[a.len() + 1int]);
                assert(response == response_of_text("unsat"@));
            }
            assert forall|n2: Seq<Node>, c2: Seq<usize>, trace: SolverTrace|
                #[trigger] sat_read(n2, c2, *problem, conv, trace) && admitted(*problem, trace) implies result is Reachable by {
                let full = asked(n2, c2, "sat"@);
                lemma_asked_begins(n2, c2, "sat"@, conv);
                lemma_check_position(script_sent, script(n2, c2), conv);
                lemma_acknowledged_len(script(n2, c2));
                assert(full.len() == a.len() + 2);
                assert(after_check.len() == a.len() + 2);
                assert(after_check[a.len() + 1int] == conv[a.len() + 1int]);
                assert(response == response_of_text("sat"@));
                let mv = model_vars(n as int);
                let s0 = after_check.len() as int;
                if model is None {
                    let i = choose|i: int| 0 <= i < 5 * n + 2 && #[trigger] query_failed(conv, s0 + 2 * i, mv[i]);
                    assert(answered_value(conv, s0 + 2 * i, mv[i]) == Some(trace_values(trace)[i]));
                } else {
                    let t = model->0;
                    lemma_answered_unique(conv, s0, mv, trace_values(t), trace_values(trace));
                    lemma_trace_values_unique(t, trace, n as int);
                    assert(trace_cells(t) =~= trace_cells(trace));
                    assert(trace_positions(t) =~= trace_positions(trace));
                }
            }
            if response is Some {
                assert(after_check == asked(nodes, cs, crate::script::response_text(response->0)));
            }
            if let ReachabilitySolverResult::Unreachable(_) = result {
                assert(after_check == asked(nodes, cs, "unsat"@));
                assert(refuted(*problem, self.conversation()));
            }
            if let ReachabilitySolverResult::Reachable(progression, trace) = &result {
                assert(after_check == asked(nodes, cs, "sat"@));
                assert(model_read(*problem, self.conversation(), *trace));
                lemma_board_has_bitboards(problem.initial_board);
                lemma_board_has_bitboards(problem.target_board);
                lemma_mask_has_bits(problem.black_placement_mask);
                lemma_mask_has_bits(problem.white_placement_mask);
                lemma_encoding_complete(
                    *problem,
                    progression@,
                    trace.black_bitboards@,
                    trace.white_bitboards@,
                    trace.is_black_turns@,
                    trace_positions(*trace),
                    trace.passes@,
                    board_bits(problem.initial_board),
                    board_bits(problem.target_board),
                    mask_bits(problem.black_placement_mask),
                    mask_bits(problem.white_placement_mask),
                );
            }
        }
        result
    }
}

/// The Yices2/Kissat reachability solver.
pub fn new_yices2_kissat_reachability_solver() -> (solver: Yices2KissatSolver)
    ensures
        solver.conversation() == Seq::<(bool, Seq<char>)>::empty(),
{
    Yices2KissatSolver { last_run: Transcript::empty() }
}

} // verus!
