//! What the SMT constraints of `generate_reversi_constraints` say, read over
//! concrete 36-bit values, and the proofs that they describe exactly the
//! games that solve a reachability problem: every assignment that satisfies
//! them is such a game, and every such game gives a satisfying assignment.

use vstd::prelude::*;
use crate::board::{BitBoard, Board, BoardCellState, CellCoord, PlacementMask, PlayerColor, bit, in_bounds, dir_dx, dir_dy, on_segment, within_board_bits};
use crate::game::{acting_player, has_allowed_move, mask_for, play_from, play_state, players_from, lemma_play_state_push, lemma_play_from_state, lemma_players_cover_moves, lemma_play_adds_disks};
use crate::reachability_problem::ReachabilityProblem;
use crate::yices2_kissat_reachability_solver::{LEFT_EDGE, RIGHT_EDGE};

verus! {

/// The 36 bits of the board.
pub const BOARD_BITS: u64 = 0xFFFFFFFFF;

/// The one-cell set of bit `p`.
pub open spec fn one(p: int) -> u64 {
    1u64 << (p as u64)
}

/// The edge that a step with column step `dx` must not start from:
/// column F for an eastward step, column A for a westward one.
pub open spec fn edge_for(dx: int) -> u64 {
    if dx > 0 {
        RIGHT_EDGE
    } else if dx < 0 {
        LEFT_EDGE
    } else {
        0
    }
}

/// A step of a 36-bit set by `(dx, dy)`: cells on the forbidden edge are
/// dropped, then the set is shifted by `6 * dy + dx` within 36 bits
/// (`bvshl` for a positive amount, `bvlshr` for a negative one).
pub open spec fn advance(cur: u64, dx: int, dy: int) -> u64 {
    let c = cur & (BOARD_BITS & !edge_for(dx));
    let s = 6 * dy + dx;
    if s > 0 {
        (c << (s as u64)) & BOARD_BITS
    } else {
        c >> ((-s) as u64)
    }
}

/// A step of a one-cell set: the cell one step on, or nothing where that
/// step leaves the board.
pub proof fn lemma_advance_cell(x: int, y: int, d: int)
    requires
        in_bounds(x, y),
        0 <= d < 8,
    ensures
        advance(one(y * 6 + x), dir_dx(d), dir_dy(d)) == if in_bounds(x + dir_dx(d), y + dir_dy(d)) {
            one((y + dir_dy(d)) * 6 + x + dir_dx(d))
        } else {
            0u64
        },
{
    let p = (y * 6 + x) as u64;
    assert(p as int % 6 == x && p as int / 6 == y);
    if d == 0 {
        // north-west
        let q: u64 = if p % 6 == 0 || p < 7 { 0 } else { (p - 7) as u64 };
        assert((p % 6 == 0 || p < 7 ==> (((1u64 << p) & (0xFFFFFFFFFu64 & !0x041041041u64)) >> 7u64) == 0u64) && (!(p % 6 == 0 || p < 7) && q + 7 == p ==> (((1u64 << p) & (0xFFFFFFFFFu64 & !0x041041041u64)) >> 7u64) == 1u64 << q)) by (bit_vector)
            requires
                p < 36,
        ;
    } else if d == 1 {
        // north
        let q: u64 = if p < 6 { 0 } else { (p - 6) as u64 };
        assert((p < 6 ==> (((1u64 << p) & (0xFFFFFFFFFu64 & !0u64)) >> 6u64) == 0u64) && (!(p < 6) && q + 6 == p ==> (((1u64 << p) & (0xFFFFFFFFFu64 & !0u64)) >> 6u64) == 1u64 << q)) by (bit_vector)
            requires
                p < 36,
        ;
    } else if d == 2 {
        // north-east
        let q: u64 = if p % 6 == 5 || p < 5 { 0 } else { (p - 5) as u64 };
        assert((p % 6 == 5 || p < 5 ==> (((1u64 << p) & (0xFFFFFFFFFu64 & !0x820820820u64)) >> 5u64) == 0u64) && (!(p % 6 == 5 || p < 5) && q + 5 == p ==> (((1u64 << p) & (0xFFFFFFFFFu64 & !0x820820820u64)) >> 5u64) == 1u64 << q)) by (bit_vector)
            requires
                p < 36,
        ;
    } else if d == 3 {
        // west
        let q: u64 = if p % 6 == 0 { 0 } else { (p - 1) as u64 };
        assert((p % 6 == 0 ==> (((1u64 << p) & (0xFFFFFFFFFu64 & !0x041041041u64)) >> 1u64) == 0u64) && (!(p % 6 == 0) && q + 1 == p ==> (((1u64 << p) & (0xFFFFFFFFFu64 & !0x041041041u64)) >> 1u64) == 1u64 << q)) by (bit_vector)
            requires
                p < 36,
        ;
    } else if d == 4 {
        // east
        let q: u64 = if p % 6 == 5 { 0 } else { (p + 1) as u64 };
        assert((p % 6 == 5 ==> (((1u64 << p) & (0xFFFFFFFFFu64 & !0x820820820u64)) << 1u64) & 0xFFFFFFFFFu64 == 0u64) && (!(p % 6 == 5) && q == p + 1 ==> (((1u64 << p) & (0xFFFFFFFFFu64 & !0x820820820u64)) << 1u64) & 0xFFFFFFFFFu64 == 1u64 << q)) by (bit_vector)
            requires
                p < 36,
        ;
    } else if d == 5 {
        // south-west
        let q: u64 = if p % 6 == 0 || p + 5 >= 36 { 0 } else { (p + 5) as u64 };
        assert((p % 6 == 0 || p + 5 >= 36 ==> (((1u64 << p) & (0xFFFFFFFFFu64 & !0x041041041u64)) << 5u64) & 0xFFFFFFFFFu64 == 0u64) && (!(p % 6 == 0 || p + 5 >= 36) && q == p + 5 ==> (((1u64 << p) & (0xFFFFFFFFFu64 & !0x041041041u64)) << 5u64) & 0xFFFFFFFFFu64 == 1u64 << q)) by (bit_vector)
            requires
                p < 36,
        ;
    } else if d == 6 {
        // south
        let q: u64 = if p + 6 >= 36 { 0 } else { (p + 6) as u64 };
        assert((p + 6 >= 36 ==> (((1u64 << p) & (0xFFFFFFFFFu64 & !0u64)) << 6u64) & 0xFFFFFFFFFu64 == 0u64) && (!(p + 6 >= 36) && q == p + 6 ==> (((1u64 << p) & (0xFFFFFFFFFu64 & !0u64)) << 6u64) & 0xFFFFFFFFFu64 == 1u64 << q)) by (bit_vector)
            requires
                p < 36,
        ;
    } else {
        // south-east
        let q: u64 = if p % 6 == 5 || p + 7 >= 36 { 0 } else { (p + 7) as u64 };
        assert((p % 6 == 5 || p + 7 >= 36 ==> (((1u64 << p) & (0xFFFFFFFFFu64 & !0x820820820u64)) << 7u64) & 0xFFFFFFFFFu64 == 0u64) && (!(p % 6 == 5 || p + 7 >= 36) && q == p + 7 ==> (((1u64 << p) & (0xFFFFFFFFFu64 & !0x820820820u64)) << 7u64) & 0xFFFFFFFFFu64 == 1u64 << q)) by (bit_vector)
            requires
                p < 36,
        ;
    }
}

/// The set of cells that `compute_flips_in_direction` computes after
/// `steps` more candidates, from the candidate `cur`, the flips found so
/// far `result`, the opponent disks gathered so far `accumulated`, and
/// whether the line is still unbroken.
pub open spec fn flips_walk(
    cur: u64,
    player: u64,
    opponent: u64,
    dx: int,
    dy: int,
    result: u64,
    accumulated: u64,
    chain_valid: bool,
    steps: nat,
) -> u64
    decreases steps,
{
    if steps == 0 {
        result
    } else {
        let candidate = advance(cur, dx, dy);
        let has_opponent = candidate & opponent != 0u64;
        let has_player = candidate & player != 0u64;
        let accumulated2 = if chain_valid && has_opponent {
            accumulated | candidate
        } else {
            accumulated
        };
        let result2 = if chain_valid && has_player {
            accumulated2
        } else {
            result
        };
        flips_walk(candidate, player, opponent, dx, dy, result2, accumulated2, chain_valid && has_opponent, (steps - 1) as nat)
    }
}

/// The walk of `flips_walk` after `k` candidates, from the candidate
/// `start`: the last candidate, the flips found, the opponent disks
/// gathered, and whether the line is still unbroken.
pub open spec fn walk_state(start: u64, player: u64, opponent: u64, dx: int, dy: int, k: nat) -> (u64, u64, u64, bool)
    decreases k,
{
    if k == 0 {
        (start, 0u64, 0u64, true)
    } else {
        let (cur, result, accumulated, chain_valid) = walk_state(start, player, opponent, dx, dy, (k - 1) as nat);
        let candidate = advance(cur, dx, dy);
        let has_opponent = candidate & opponent != 0u64;
        let has_player = candidate & player != 0u64;
        let accumulated2 = if chain_valid && has_opponent {
            accumulated | candidate
        } else {
            accumulated
        };
        let result2 = if chain_valid && has_player {
            accumulated2
        } else {
            result
        };
        (candidate, result2, accumulated2, chain_valid && has_opponent)
    }
}

/// Walking `k` candidates, then the rest, is walking all of them.
pub proof fn lemma_walk_state(start: u64, player: u64, opponent: u64, dx: int, dy: int, k: nat, n: nat)
    requires
        k <= n,
    ensures
        ({
            let w = walk_state(start, player, opponent, dx, dy, k);
            flips_walk(start, player, opponent, dx, dy, 0u64, 0u64, true, n) == flips_walk(
                w.0,
                player,
                opponent,
                dx,
                dy,
                w.1,
                w.2,
                w.3,
                (n - k) as nat,
            )
        }),
    decreases k,
{
    if k > 0 {
        lemma_walk_state(start, player, opponent, dx, dy, (k - 1) as nat, n);
    }
}

/// The value of `compute_flips_in_direction`: the opponent disks that a
/// disk at `move_mask` encloses along `(dx, dy)`, five candidates on.
pub open spec fn direction_flips(move_mask: u64, player: u64, opponent: u64, dx: int, dy: int) -> u64 {
    flips_walk(move_mask, player, opponent, dx, dy, 0u64, 0u64, true, 5)
}

/// The value of `compute_all_flips`: the union of the eight directions, in
/// the order N, S, E, W, NE, NW, SE, SW.
pub open spec fn all_flips(move_mask: u64, player: u64, opponent: u64) -> u64 {
    let n = direction_flips(move_mask, player, opponent, 0, -1);
    let s = direction_flips(move_mask, player, opponent, 0, 1);
    let e = direction_flips(move_mask, player, opponent, 1, 0);
    let w = direction_flips(move_mask, player, opponent, -1, 0);
    let ne = direction_flips(move_mask, player, opponent, 1, -1);
    let nw = direction_flips(move_mask, player, opponent, -1, -1);
    let se = direction_flips(move_mask, player, opponent, 1, 1);
    let sw = direction_flips(move_mask, player, opponent, -1, 1);
    ((((((n | s) | e) | w) | ne) | nw) | se) | sw
}

/// Whether the cell of bit `q` is a legal move in the sense of
/// `has_legal_move`: empty, flipping something, and allowed by `can_place`.
pub open spec fn legal_at(player: u64, opponent: u64, can_place: u64, q: int) -> bool {
    let pos_mask = one(q);
    let empty_cells = BOARD_BITS & !(player | opponent);
    &&& (empty_cells & pos_mask) != 0u64
    &&& all_flips(pos_mask, player, opponent) != 0u64
    &&& (can_place & pos_mask) != 0u64
}

/// Whether one of the first `n` cells is a legal move in the sense of
/// `has_legal_move`.
pub open spec fn legal_move_among(player: u64, opponent: u64, can_place: u64, n: nat) -> bool
    decreases n,
{
    if n == 0 {
        false
    } else {
        legal_move_among(player, opponent, can_place, (n - 1) as nat) || legal_at(player, opponent, can_place, n - 1)
    }
}

/// The value of `has_legal_move`.
pub open spec fn has_legal_move_value(player: u64, opponent: u64, can_place: u64) -> bool {
    legal_move_among(player, opponent, can_place, 36)
}

/// Bit `i` of the one-cell set of bit `p`.
pub proof fn lemma_bit_one(p: int, i: int)
    requires
        0 <= p < 64,
        0 <= i < 64,
    ensures
        bit(one(p), i) == (i == p),
{
    let pp = p as u64;
    let ii = i as u64;
    assert((((1u64 << pp) >> ii) & 1u64 == 1u64) == (ii == pp)) by (bit_vector)
        requires
            pp < 64,
            ii < 64,
    ;
}

/// A one-cell set meets `v` exactly where `v` has that cell.
pub proof fn lemma_one_meets(v: u64, p: int)
    requires
        0 <= p < 64,
    ensures
        (one(p) & v != 0u64) == bit(v, p),
        (v & one(p) != 0u64) == bit(v, p),
{
    let pp = p as u64;
    assert(((1u64 << pp) & v != 0u64) == ((v >> pp) & 1u64 == 1u64) && (v & (1u64 << pp) != 0u64) == ((v >> pp) & 1u64 == 1u64)) by (bit_vector)
        requires
            pp < 64,
    ;
}

/// Bits of unions, intersections and differences within the board.
pub proof fn lemma_bit_ops(a: u64, b: u64, i: int)
    requires
        0 <= i < 64,
    ensures
        bit(a | b, i) == (bit(a, i) || bit(b, i)),
        bit(a & b, i) == (bit(a, i) && bit(b, i)),
        bit(a & (BOARD_BITS & !b), i) == (i < 36 && bit(a, i) && !bit(b, i)),
        bit(BOARD_BITS & !b, i) == (i < 36 && !bit(b, i)),
        !bit(0u64, i),
{
    let ii = i as u64;
    assert((((a | b) >> ii) & 1u64 == 1u64) == (((a >> ii) & 1u64 == 1u64) || ((b >> ii) & 1u64 == 1u64))
        && (((a & b) >> ii) & 1u64 == 1u64) == (((a >> ii) & 1u64 == 1u64) && ((b >> ii) & 1u64 == 1u64))
        && (((a & (0xFFFFFFFFFu64 & !b)) >> ii) & 1u64 == 1u64) == (ii < 36 && ((a >> ii) & 1u64 == 1u64) && !((b >> ii) & 1u64 == 1u64))
        && (((0xFFFFFFFFFu64 & !b) >> ii) & 1u64 == 1u64) == (ii < 36 && !((b >> ii) & 1u64 == 1u64))
        && !((0u64 >> ii) & 1u64 == 1u64)) by (bit_vector)
        requires
            ii < 64,
    ;
}

/// A word with a bit set is not zero; a word below `2^36` has no bit at 36
/// or above.
pub proof fn lemma_bit_bounds(v: u64, i: int)
    requires
        0 <= i < 64,
    ensures
        bit(v, i) ==> v != 0u64,
        v < 0x1000000000 && i >= 36 ==> !bit(v, i),
{
    let ii = i as u64;
    assert((((v >> ii) & 1u64 == 1u64) ==> v != 0u64) && (v < 0x1000000000u64 && ii >= 36 ==> !((v >> ii) & 1u64 == 1u64))) by (bit_vector)
        requires
            ii < 64,
    ;
}

/// A word that is not zero has a bit set.
pub proof fn lemma_nonzero_has_bit(v: u64)
    requires
        v != 0u64,
    ensures
        exists|i: int| 0 <= i < 64 && #[trigger] bit(v, i),
    decreases v,
{
    if (v >> 0u64) & 1u64 == 1u64 {
        assert(bit(v, 0));
    } else {
        let h = v >> 1u64;
        assert((v >> 1u64) != 0u64 && (v >> 1u64) < v) by (bit_vector)
            requires
                v != 0u64,
                (v >> 0u64) & 1u64 != 1u64,
        ;
        lemma_nonzero_has_bit(h);
        let j = choose|j: int| 0 <= j < 64 && #[trigger] bit(h, j);
        let jj = j as u64;
        assert(jj < 63 && ((v >> (jj + 1)) & 1u64 == 1u64)) by (bit_vector)
            requires
                jj < 64,
                h == v >> 1u64,
                ((h >> jj) & 1u64 == 1u64),
        ;
        assert(bit(v, j + 1));
    }
}

/// Unions, intersections, and steps of sets within the board stay within
/// the board.
pub proof fn lemma_within_board(a: u64, b: u64, dx: int, dy: int)
    requires
        a < 0x1000000000,
        b < 0x1000000000,
        -1 <= dx <= 1,
        -1 <= dy <= 1,
    ensures
        a | b < 0x1000000000,
        a & b < 0x1000000000,
        a & (BOARD_BITS & !b) < 0x1000000000,
        advance(a, dx, dy) < 0x1000000000,
{
    let e = edge_for(dx);
    let s = 6 * dy + dx;
    let up = if s > 0 { s as u64 } else { 0u64 };
    let down = if s > 0 { 0u64 } else { (-s) as u64 };
    assert(a | b < 0x1000000000u64 && a & b < 0x1000000000u64 && a & (0xFFFFFFFFFu64 & !b) < 0x1000000000u64
        && ((a & (0xFFFFFFFFFu64 & !e)) << up) & 0xFFFFFFFFFu64 < 0x1000000000u64
        && (a & (0xFFFFFFFFFu64 & !e)) >> down < 0x1000000000u64) by (bit_vector)
        requires
            a < 0x1000000000u64,
            b < 0x1000000000u64,
    ;
}

/// Whether `player` and `opponent` are the disks of `p` and of its
/// opponent on `board`, as 36-bit sets.
pub open spec fn sides(board: Board, p: PlayerColor, player: u64, opponent: u64) -> bool {
    &&& board.marks(player, p.disk())
    &&& board.marks(opponent, p.other().disk())
    &&& within_board_bits(player)
    &&& within_board_bits(opponent)
}

/// The empty set has no cell in common with any set, and every step of it
/// is empty.
proof fn lemma_empty_set(v: u64, e: u64, s: u64)
    ensures
        0u64 & v == 0u64,
        ((0u64 & e) << s) & BOARD_BITS == 0u64,
        (0u64 & e) >> s == 0u64,
        0u64 | 0u64 == 0u64,
{
    assert(0u64 & v == 0u64 && ((0u64 & e) << s) & 0xFFFFFFFFFu64 == 0u64 && (0u64 & e) >> s == 0u64 && 0u64 | 0u64 == 0u64) by (bit_vector);
}

/// Once the line is broken, the walk keeps the flips it has found.
proof fn lemma_walk_broken(
    cur: u64,
    player: u64,
    opponent: u64,
    dx: int,
    dy: int,
    result: u64,
    accumulated: u64,
    steps: nat,
)
    ensures
        flips_walk(cur, player, opponent, dx, dy, result, accumulated, false, steps) == result,
    decreases steps,
{
    if steps > 0 {
        lemma_walk_broken(advance(cur, dx, dy), player, opponent, dx, dy, result, accumulated, (steps - 1) as nat);
    }
}

/// The walk from a cell `(cx, cy)` in direction `d`, with the line still
/// unbroken: if the run of opponent disks that starts next to the cell is
/// closed by a disk of `p`, the run joins the flips gathered so far;
/// otherwise the flips found before stay.
proof fn lemma_walk(
    board: Board,
    p: PlayerColor,
    player: u64,
    opponent: u64,
    d: int,
    cx: int,
    cy: int,
    result: u64,
    accumulated: u64,
    steps: nat,
)
    requires
        sides(board, p, player, opponent),
        0 <= d < 8,
        in_bounds(cx, cy),
    ensures
        forall|i: int|
            0 <= i < 36 ==> #[trigger] bit(flips_walk(one(cy * 6 + cx), player, opponent, dir_dx(d), dir_dy(d), result, accumulated, true, steps), i)
                == if board.closes(cx + dir_dx(d), cy + dir_dy(d), dir_dx(d), dir_dy(d), p, steps) {
                bit(accumulated, i) || on_segment(
                    cx + dir_dx(d),
                    cy + dir_dy(d),
                    dir_dx(d),
                    dir_dy(d),
                    board.run_len(cx + dir_dx(d), cy + dir_dy(d), dir_dx(d), dir_dy(d), p, steps),
                    i % 6,
                    i / 6,
                )
            } else {
                bit(result, i)
            },
    decreases steps,
{
    let dx = dir_dx(d);
    let dy = dir_dy(d);
    let nx = cx + dx;
    let ny = cy + dy;
    let start = one(cy * 6 + cx);
    let w = flips_walk(start, player, opponent, dx, dy, result, accumulated, true, steps);
    if steps > 0 {
        let rest = (steps - 1) as nat;
        lemma_advance_cell(cx, cy, d);
        let cand = advance(start, dx, dy);
        if !in_bounds(nx, ny) {
            lemma_empty_set(opponent, 0, 0);
            lemma_empty_set(player, 0, 0);
            lemma_walk_broken(cand, player, opponent, dx, dy, result, accumulated, rest);
            assert(w == result);
        } else {
            let q = ny * 6 + nx;
            assert(q % 6 == nx && q / 6 == ny);
            lemma_one_meets(opponent, q);
            lemma_one_meets(player, q);
            assert(bit(player, q) <==> board.cell(nx, ny) == p.disk());
            assert(bit(opponent, q) <==> board.cell(nx, ny) == p.other().disk());
            if board.cell(nx, ny) == p.disk() {
                lemma_walk_broken(cand, player, opponent, dx, dy, accumulated, accumulated, rest);
                assert(w == accumulated);
                assert(board.closes(nx, ny, dx, dy, p, steps));
                assert(board.run_len(nx, ny, dx, dy, p, steps) == 0);
            } else if board.cell(nx, ny) == p.other().disk() {
                let acc2 = accumulated | cand;
                lemma_walk(board, p, player, opponent, d, nx, ny, result, acc2, rest);
                assert(w == flips_walk(cand, player, opponent, dx, dy, result, acc2, true, rest));
                let k = board.run_len(nx + dx, ny + dy, dx, dy, p, rest);
                assert(board.run_len(nx, ny, dx, dy, p, steps) == k + 1);
                assert(board.closes(nx, ny, dx, dy, p, steps) == board.closes(nx + dx, ny + dy, dx, dy, p, rest));
                assert forall|i: int| 0 <= i < 36 implies #[trigger] bit(w, i) == if board.closes(nx, ny, dx, dy, p, steps) {
                    bit(accumulated, i) || on_segment(nx, ny, dx, dy, k + 1, i % 6, i / 6)
                } else {
                    bit(result, i)
                } by {
                    lemma_bit_ops(accumulated, cand, i);
                    lemma_bit_one(q, i);
                    assert(on_segment(nx, ny, dx, dy, k + 1, i % 6, i / 6) == ((nx == i % 6 && ny == i / 6) || on_segment(nx + dx, ny + dy, dx, dy, k, i % 6, i / 6)));
                }
            } else {
                lemma_walk_broken(cand, player, opponent, dx, dy, result, accumulated, rest);
                assert(w == result);
            }
        }
    }
}

/// A walk over sets within the board stays within the board.
proof fn lemma_walk_within(
    cur: u64,
    player: u64,
    opponent: u64,
    dx: int,
    dy: int,
    result: u64,
    accumulated: u64,
    chain_valid: bool,
    steps: nat,
)
    requires
        within_board_bits(cur),
        within_board_bits(result),
        within_board_bits(accumulated),
        -1 <= dx <= 1,
        -1 <= dy <= 1,
    ensures
        within_board_bits(flips_walk(cur, player, opponent, dx, dy, result, accumulated, chain_valid, steps)),
    decreases steps,
{
    if steps > 0 {
        let cand = advance(cur, dx, dy);
        lemma_within_board(cur, cur, dx, dy);
        lemma_within_board(accumulated, cand, dx, dy);
        let has_opponent = cand & opponent != 0u64;
        let has_player = cand & player != 0u64;
        let acc2 = if chain_valid && has_opponent { accumulated | cand } else { accumulated };
        let res2 = if chain_valid && has_player { acc2 } else { result };
        lemma_walk_within(cand, player, opponent, dx, dy, res2, acc2, chain_valid && has_opponent, (steps - 1) as nat);
    }
}

/// The flips in direction `d` of a move of `p` at `(x, y)`, as
/// `direction_flips` computes them from the two sides' disks, are exactly
/// the cells of the run of opponent disks that the move encloses in that
/// direction: the `flip_count` cells after `(x, y)` in steps of the
/// direction (none where no disk of `p` ends the run).
pub proof fn lemma_direction(board: Board, p: PlayerColor, player: u64, opponent: u64, d: int, x: int, y: int)
    requires
        sides(board, p, player, opponent),
        0 <= d < 8,
        in_bounds(x, y),
    ensures
        forall|i: int|
            0 <= i < 36 ==> #[trigger] bit(direction_flips(one(y * 6 + x), player, opponent, dir_dx(d), dir_dy(d)), i) == on_segment(
                x + dir_dx(d),
                y + dir_dy(d),
                dir_dx(d),
                dir_dy(d),
                board.flip_count(x, y, dir_dx(d), dir_dy(d), p),
                i % 6,
                i / 6,
            ),
        within_board_bits(direction_flips(one(y * 6 + x), player, opponent, dir_dx(d), dir_dy(d))),
{
    lemma_walk(board, p, player, opponent, d, x, y, 0u64, 0u64, 5);
    assert forall|i: int| 0 <= i < 36 implies !bit(0u64, i) by {
        lemma_bit_ops(0u64, 0u64, i);
    }
    lemma_one_within(y * 6 + x);
    lemma_walk_within(one(y * 6 + x), player, opponent, dir_dx(d), dir_dy(d), 0u64, 0u64, true, 5);
}

/// A one-cell set of a cell of the board is within the board.
pub proof fn lemma_one_within(p: int)
    requires
        0 <= p < 36,
    ensures
        within_board_bits(one(p)),
{
    let pp = p as u64;
    assert(1u64 << pp < 0x1000000000u64) by (bit_vector)
        requires
            pp < 36,
    ;
}

/// The flips of a move of `p` at `(x, y)`, over all eight directions, are
/// exactly the disks that the move turns.
pub proof fn lemma_all_flips(board: Board, p: PlayerColor, player: u64, opponent: u64, x: int, y: int)
    requires
        sides(board, p, player, opponent),
        in_bounds(x, y),
    ensures
        forall|i: int|
            0 <= i < 36 ==> #[trigger] bit(all_flips(one(y * 6 + x), player, opponent), i) == board.flipped_upto(x, y, p, 8, i % 6, i / 6),
        within_board_bits(all_flips(one(y * 6 + x), player, opponent)),
{
    let mm = one(y * 6 + x);
    lemma_direction(board, p, player, opponent, 0, x, y);
    lemma_direction(board, p, player, opponent, 1, x, y);
    lemma_direction(board, p, player, opponent, 2, x, y);
    lemma_direction(board, p, player, opponent, 3, x, y);
    lemma_direction(board, p, player, opponent, 4, x, y);
    lemma_direction(board, p, player, opponent, 5, x, y);
    lemma_direction(board, p, player, opponent, 6, x, y);
    lemma_direction(board, p, player, opponent, 7, x, y);
    let n = direction_flips(mm, player, opponent, 0, -1);
    let s = direction_flips(mm, player, opponent, 0, 1);
    let e = direction_flips(mm, player, opponent, 1, 0);
    let w = direction_flips(mm, player, opponent, -1, 0);
    let ne = direction_flips(mm, player, opponent, 1, -1);
    let nw = direction_flips(mm, player, opponent, -1, -1);
    let se = direction_flips(mm, player, opponent, 1, 1);
    let sw = direction_flips(mm, player, opponent, -1, 1);
    let a1 = n | s;
    let a2 = a1 | e;
    let a3 = a2 | w;
    let a4 = a3 | ne;
    let a5 = a4 | nw;
    let a6 = a5 | se;
    let a7 = a6 | sw;
    assert forall|i: int| 0 <= i < 36 implies #[trigger] bit(a7, i) == board.flipped_upto(x, y, p, 8, i % 6, i / 6) by {
        lemma_bit_ops(n, s, i);
        lemma_bit_ops(a1, e, i);
        lemma_bit_ops(a2, w, i);
        lemma_bit_ops(a3, ne, i);
        lemma_bit_ops(a4, nw, i);
        lemma_bit_ops(a5, se, i);
        lemma_bit_ops(a6, sw, i);
        reveal_with_fuel(Board::flipped_upto, 9);
    }
    lemma_within_board(n, s, 0, 0);
    lemma_within_board(a1, e, 0, 0);
    lemma_within_board(a2, w, 0, 0);
    lemma_within_board(a3, ne, 0, 0);
    lemma_within_board(a4, nw, 0, 0);
    lemma_within_board(a5, se, 0, 0);
    lemma_within_board(a6, sw, 0, 0);
}

/// A disk that a move turns lies in a direction where the move encloses
/// something.
proof fn lemma_flipped_captures(board: Board, x: int, y: int, p: PlayerColor, n: nat, tx: int, ty: int)
    requires
        board.flipped_upto(x, y, p, n, tx, ty),
    ensures
        board.captures_upto(x, y, p, n),
    decreases n,
{
    if board.flipped_upto(x, y, p, (n - 1) as nat, tx, ty) {
        lemma_flipped_captures(board, x, y, p, (n - 1) as nat, tx, ty);
    }
}

/// A move that encloses something turns some disk of the board.
proof fn lemma_capture_witness(board: Board, x: int, y: int, p: PlayerColor, n: nat) -> (t: (int, int))
    requires
        board.captures_upto(x, y, p, n),
    ensures
        in_bounds(t.0, t.1),
        board.flipped_upto(x, y, p, n, t.0, t.1),
    decreases n,
{
    if board.captures_upto(x, y, p, (n - 1) as nat) {
        lemma_capture_witness(board, x, y, p, (n - 1) as nat)
    } else {
        let d = n - 1;
        let t = (x + dir_dx(d), y + dir_dy(d));
        assert(board.flipped_upto(x, y, p, n, t.0, t.1));
        board.lemma_flipped_were_opponent(x, y, p, n, t.0, t.1);
        t
    }
}

/// A move of `p` at `(x, y)` flips something exactly where it encloses
/// something.
proof fn lemma_flips_nonzero(board: Board, p: PlayerColor, player: u64, opponent: u64, x: int, y: int)
    requires
        sides(board, p, player, opponent),
        in_bounds(x, y),
    ensures
        (all_flips(one(y * 6 + x), player, opponent) != 0u64) == board.captures_upto(x, y, p, 8),
{
    let f = all_flips(one(y * 6 + x), player, opponent);
    lemma_all_flips(board, p, player, opponent, x, y);
    if f != 0u64 {
        lemma_nonzero_has_bit(f);
        let i = choose|i: int| 0 <= i < 64 && #[trigger] bit(f, i);
        lemma_bit_bounds(f, i);
        assert(board.flipped_upto(x, y, p, 8, i % 6, i / 6));
        lemma_flipped_captures(board, x, y, p, 8, i % 6, i / 6);
    }
    if board.captures_upto(x, y, p, 8) {
        let t = lemma_capture_witness(board, x, y, p, 8);
        let i = t.1 * 6 + t.0;
        assert(i % 6 == t.0 && i / 6 == t.1);
        assert(bit(f, i));
        lemma_bit_bounds(f, i);
    }
}

/// A move at no cell flips nothing.
proof fn lemma_no_cell_no_flips(player: u64, opponent: u64)
    ensures
        all_flips(0u64, player, opponent) == 0u64,
{
    assert forall|dx: int, dy: int| -1 <= dx <= 1 && -1 <= dy <= 1 implies #[trigger] direction_flips(0u64, player, opponent, dx, dy) == 0u64 by {
        let s = 6 * dy + dx;
        let e = BOARD_BITS & !edge_for(dx);
        lemma_empty_set(opponent, e, if s > 0 { s as u64 } else { (-s) as u64 });
        lemma_empty_set(player, e, 0);
        assert(advance(0u64, dx, dy) == 0u64);
        lemma_walk_broken(0u64, player, opponent, dx, dy, 0u64, 0u64, 4);
    }
    lemma_empty_set(0, 0, 0);
    assert(direction_flips(0u64, player, opponent, 0, -1) == 0u64);
    assert(direction_flips(0u64, player, opponent, 0, 1) == 0u64);
    assert(direction_flips(0u64, player, opponent, 1, 0) == 0u64);
    assert(direction_flips(0u64, player, opponent, -1, 0) == 0u64);
    assert(direction_flips(0u64, player, opponent, 1, -1) == 0u64);
    assert(direction_flips(0u64, player, opponent, -1, -1) == 0u64);
    assert(direction_flips(0u64, player, opponent, 1, 1) == 0u64);
    assert(direction_flips(0u64, player, opponent, -1, 1) == 0u64);
}

/// A legal cell among the first `n` makes `legal_move_among` hold.
proof fn lemma_legal_among(player: u64, opponent: u64, can_place: u64, n: nat, q: int)
    requires
        0 <= q < n,
        legal_at(player, opponent, can_place, q),
    ensures
        legal_move_among(player, opponent, can_place, n),
    decreases n,
{
    if q < n - 1 {
        lemma_legal_among(player, opponent, can_place, (n - 1) as nat, q);
    }
}

/// Where `p` has a legal move that its mask allows, `has_legal_move` holds
/// of its disks, its opponent's and its mask's cells.
proof fn lemma_allowed_move_found(board: Board, p: PlayerColor, mask: PlacementMask, player: u64, opponent: u64, can_place: u64)
    requires
        sides(board, p, player, opponent),
        mask.has_bits(can_place),
        has_allowed_move(board, p, mask),
    ensures
        has_legal_move_value(player, opponent, can_place),
{
    let moves = board.legal_moves(p);
    let k = choose|k: int| 0 <= k < moves.len() && mask.allows_cell(#[trigger] moves[k]);
    let c = moves[k];
    assert(moves.contains(c));
    board.lemma_legal_moves_are_legal(p, 36, c);
    let x = c.x();
    let y = c.y();
    let q = y * 6 + x;
    assert(q % 6 == x && q / 6 == y);
    lemma_flips_nonzero(board, p, player, opponent, x, y);
    let empty_cells = BOARD_BITS & !(player | opponent);
    lemma_bit_ops(player, opponent, q);
    lemma_bit_ops(player, player | opponent, q);
    lemma_one_meets(empty_cells, q);
    lemma_one_meets(can_place, q);
    assert(legal_at(player, opponent, can_place, q));
    lemma_legal_among(player, opponent, can_place, 36, q);
}

/// The player whose turn flag is `black_turn`.
pub open spec fn turn_player(black_turn: bool) -> PlayerColor {
    if black_turn {
        PlayerColor::Black
    } else {
        PlayerColor::White
    }
}

/// The move mask of the encoding for move position `pos`: `1` shifted left
/// by the position within 36 bits, so one cell, or none for a position off
/// the board.
pub open spec fn move_mask(pos: int) -> u64 {
    if 0 <= pos < 36 {
        one(pos)
    } else {
        0u64
    }
}

/// Whether the constraints of one transition of `generate_reversi_constraints`
/// hold of concrete values: the bitboards `black`, `white` before the move
/// and `next_black`, `next_white` after it, the turn flag, the move
/// position, the pass flag, and the cell sets of the two masks.
pub open spec fn transition_holds(
    black: u64,
    white: u64,
    black_turn: bool,
    pos: int,
    pass: bool,
    next_black: u64,
    next_white: u64,
    black_mask: u64,
    white_mask: u64,
) -> bool {
    let black_plays = black_turn != pass;
    let placement = if black_plays { black_mask } else { white_mask };
    let mm = move_mask(pos);
    let player = if black_plays { black } else { white };
    let opponent = if black_plays { white } else { black };
    let flips = all_flips(mm, player, opponent);
    let current_player = if black_turn { black } else { white };
    let current_opponent = if black_turn { white } else { black };
    let current_can_place = if black_turn { black_mask } else { white_mask };
    let new_player = (player | mm) | flips;
    let new_opponent = opponent & (BOARD_BITS & !flips);
    &&& (black | white) & mm == 0u64
    &&& flips != 0u64
    &&& placement & mm == mm
    &&& !pass || !has_legal_move_value(current_player, current_opponent, current_can_place)
    &&& next_black == if black_plays { new_player } else { new_opponent }
    &&& next_white == if black_plays { new_opponent } else { new_player }
}

/// One transition whose constraints hold is a legal move of the player who
/// acts, allowed by that player's mask, from the board before to the board
/// after.
proof fn lemma_transition(
    board: Board,
    black_placement: PlacementMask,
    white_placement: PlacementMask,
    black: u64,
    white: u64,
    black_turn: bool,
    pos: int,
    pass: bool,
    next_black: u64,
    next_white: u64,
    black_mask: u64,
    white_mask: u64,
)
    requires
        board.has_bitboards(BitBoard { white, black }),
        black_placement.has_bits(black_mask),
        white_placement.has_bits(white_mask),
        transition_holds(black, white, black_turn, pos, pass, next_black, next_white, black_mask, white_mask),
    ensures
        0 <= pos < 36,
        acting_player(board, turn_player(black_turn), black_placement, white_placement) == turn_player(black_turn != pass),
        mask_for(turn_player(black_turn != pass), black_placement, white_placement).allows_cell(CellCoord::at(pos % 6, pos / 6)),
        board.after_move(pos % 6, pos / 6, turn_player(black_turn != pass)) matches Some(r) && r.has_bitboards(
            BitBoard { white: next_white, black: next_black },
        ),
{
    let black_plays = black_turn != pass;
    let m = turn_player(black_plays);
    let current = turn_player(black_turn);
    let placement = if black_plays { black_mask } else { white_mask };
    let player = if black_plays { black } else { white };
    let opponent = if black_plays { white } else { black };
    assert(sides(board, m, player, opponent));
    let mm = move_mask(pos);
    let flips = all_flips(mm, player, opponent);
    if !(0 <= pos < 36) {
        lemma_no_cell_no_flips(player, opponent);
    }
    let x = pos % 6;
    let y = pos / 6;
    assert(pos == y * 6 + x);
    // the cell is empty
    lemma_bit_ops(black, white, pos);
    lemma_one_meets(black | white, pos);
    assert(board.cell(x, y) == BoardCellState::Empty);
    // the move is legal
    lemma_flips_nonzero(board, m, player, opponent, x, y);
    assert(board.is_legal_move(x, y, m));
    // the mask allows it
    lemma_bit_ops(placement, mm, pos);
    lemma_bit_one(pos, pos);
    CellCoord::lemma_at(x, y);
    assert(mask_for(m, black_placement, white_placement).allows_cell(CellCoord::at(x, y)));
    // the player to move acts, or passes to its opponent
    if !pass {
        board.lemma_legal_moves_complete(m, 36, x, y);
        let moves = board.legal_moves(m);
        let k = choose|k: int| 0 <= k < moves.len() && moves[k] == CellCoord::at(x, y);
        assert(mask_for(m, black_placement, white_placement).allows_cell(moves[k]));
        assert(has_allowed_move(board, m, mask_for(m, black_placement, white_placement)));
    } else {
        let current_player = if black_turn { black } else { white };
        let current_opponent = if black_turn { white } else { black };
        let current_can_place = if black_turn { black_mask } else { white_mask };
        assert(sides(board, current, current_player, current_opponent));
        if has_allowed_move(board, current, mask_for(current, black_placement, white_placement)) {
            lemma_allowed_move_found(
                board,
                current,
                mask_for(current, black_placement, white_placement),
                current_player,
                current_opponent,
                current_can_place,
            );
        }
    }
    // the board after the move has the next bitboards
    board.lemma_after_move_exists(x, y, m);
    let r = board.after_move(x, y, m)->0;
    lemma_move_bits(board, m, player, opponent, x, y, r);
}

/// The sets of a move: after a legal move of `p` at `(x, y)`, `p`'s disks
/// are its disks before, the placed one and the flipped ones, and its
/// opponent's disks are those before less the flipped ones.
proof fn lemma_move_bits(board: Board, p: PlayerColor, player: u64, opponent: u64, x: int, y: int, r: Board)
    requires
        sides(board, p, player, opponent),
        board.is_legal_move(x, y, p),
        board.is_after_move(x, y, p, r),
    ensures
        ({
            let mm = one(y * 6 + x);
            let flips = all_flips(mm, player, opponent);
            sides(r, p, (player | mm) | flips, opponent & (BOARD_BITS & !flips))
        }),
{
    let pos = y * 6 + x;
    assert(pos % 6 == x && pos / 6 == y);
    let mm = one(pos);
    let flips = all_flips(mm, player, opponent);
    lemma_all_flips(board, p, player, opponent, x, y);
    lemma_one_within(pos);
    let new_player = (player | mm) | flips;
    let new_opponent = opponent & (BOARD_BITS & !flips);
    lemma_within_board(player, mm, 0, 0);
    lemma_within_board(player | mm, flips, 0, 0);
    lemma_within_board(opponent, flips, 0, 0);
    assert forall|i: int| 0 <= i < 36 implies (bit(new_player, i) <==> r.cell(i % 6, i / 6) == p.disk()) && (bit(new_opponent, i)
        <==> r.cell(i % 6, i / 6) == p.other().disk()) by {
        lemma_bit_ops(player, mm, i);
        lemma_bit_ops(player | mm, flips, i);
        lemma_bit_ops(opponent, flips, i);
        lemma_bit_one(pos, i);
        assert(in_bounds(i % 6, i / 6));
        assert(r.cell(i % 6, i / 6) == board.cell_after_move(x, y, p, i % 6, i / 6));
        assert((i % 6 == x && i / 6 == y) == (i == pos));
        if board.flipped_upto(x, y, p, 8, i % 6, i / 6) {
            board.lemma_flipped_were_opponent(x, y, p, 8, i % 6, i / 6);
        }
    }
}

/// Two words with the same bits are the same word.
proof fn lemma_same_word(a: u64, b: u64)
    requires
        forall|i: int| 0 <= i < 64 ==> #[trigger] bit(a, i) == bit(b, i),
    ensures
        a == b,
{
    if a != b {
        let d = a ^ b;
        assert(d != 0u64) by (bit_vector)
            requires
                a != b,
                d == a ^ b,
        ;
        lemma_nonzero_has_bit(d);
        let i = choose|i: int| 0 <= i < 64 && #[trigger] bit(d, i);
        let ii = i as u64;
        assert((((a ^ b) >> ii) & 1u64 == 1u64) == (((a >> ii) & 1u64 == 1u64) != ((b >> ii) & 1u64 == 1u64))) by (bit_vector)
            requires
                ii < 64,
        ;
        assert(bit(a, i) == bit(b, i));
    }
}

/// Two words within the board with the same bits on the board are the same
/// word.
pub proof fn lemma_same_board_word(a: u64, b: u64)
    requires
        within_board_bits(a),
        within_board_bits(b),
        forall|i: int| 0 <= i < 36 ==> #[trigger] bit(a, i) == bit(b, i),
    ensures
        a == b,
{
    assert forall|i: int| 0 <= i < 64 implies #[trigger] bit(a, i) == bit(b, i) by {
        lemma_bit_bounds(a, i);
        lemma_bit_bounds(b, i);
    }
    lemma_same_word(a, b);
}

/// Whether the constraints of `generate_reversi_constraints` hold of
/// concrete values: the bitboards `blacks[t]`, `whites[t]` of each step, the
/// turn flag, move position and pass flag of each move, for the bitboards
/// `initial` and `target` and the cell sets `black_mask`, `white_mask` of the
/// two placement masks. No cell is both black and white at any step, the
/// first step is `initial` and the last `target`, Black moves first, every
/// transition holds, and the turn goes to the player who did not move.
pub open spec fn constraints_hold(
    blacks: Seq<u64>,
    whites: Seq<u64>,
    turns: Seq<bool>,
    positions: Seq<int>,
    passes: Seq<bool>,
    initial: BitBoard,
    target: BitBoard,
    black_mask: u64,
    white_mask: u64,
) -> bool {
    let n = positions.len() as int;
    &&& blacks.len() == n + 1
    &&& whites.len() == n + 1
    &&& turns.len() == n
    &&& passes.len() == n
    &&& forall|t: int| 0 <= t <= n ==> #[trigger] blacks[t] & whites[t] == 0u64
    &&& blacks[0] == initial.black
    &&& whites[0] == initial.white
    &&& blacks[n] == target.black
    &&& whites[n] == target.white
    &&& n > 0 ==> turns[0]
    &&& forall|t: int|
        0 <= t < n ==> #[trigger] transition_holds(
            blacks[t],
            whites[t],
            turns[t],
            positions[t],
            passes[t],
            blacks[t + 1],
            whites[t + 1],
            black_mask,
            white_mask,
        )
    &&& forall|t: int| 0 <= t < n - 1 ==> #[trigger] turns[t + 1] == !(turns[t] != passes[t])
}

/// The cells of the move positions `positions`.
pub open spec fn position_cells(positions: Seq<int>) -> Seq<CellCoord> {
    Seq::new(positions.len(), |t: int| CellCoord::at(positions[t] % 6, positions[t] / 6))
}

/// Replaying the first `t` moves of values that satisfy the constraints
/// reaches the board of step `t`, with the player of turn flag `t` to move,
/// and every move so far is allowed by its player's mask.
proof fn lemma_encoding_prefix(
    problem: ReachabilityProblem,
    blacks: Seq<u64>,
    whites: Seq<u64>,
    turns: Seq<bool>,
    positions: Seq<int>,
    passes: Seq<bool>,
    initial: BitBoard,
    target: BitBoard,
    black_mask: u64,
    white_mask: u64,
    t: int,
)
    requires
        problem.initial_board.has_bitboards(initial),
        problem.black_placement_mask.has_bits(black_mask),
        problem.white_placement_mask.has_bits(white_mask),
        constraints_hold(blacks, whites, turns, positions, passes, initial, target, black_mask, white_mask),
        0 <= t <= positions.len(),
    ensures
        ({
            let cells = position_cells(positions).take(t);
            let bm = problem.black_placement_mask;
            let wm = problem.white_placement_mask;
            let players = players_from(problem.initial_board, PlayerColor::Black, cells, bm, wm);
            &&& play_state(problem.initial_board, PlayerColor::Black, cells, bm, wm) matches Some(state) && state.0.has_bitboards(
                BitBoard { white: whites[t], black: blacks[t] },
            ) && (t < positions.len() ==> state.1 == turn_player(turns[t]))
            &&& players.len() == t
            &&& forall|i: int| 0 <= i < t ==> mask_for(#[trigger] players[i], bm, wm).allows_cell(cells[i])
        }),
    decreases t,
{
    let bm = problem.black_placement_mask;
    let wm = problem.white_placement_mask;
    let init = problem.initial_board;
    let all = position_cells(positions);
    if t == 0 {
        assert(all.take(0) =~= Seq::<CellCoord>::empty());
    } else {
        let s = t - 1;
        lemma_encoding_prefix(problem, blacks, whites, turns, positions, passes, initial, target, black_mask, white_mask, s);
        let prev = all.take(s);
        let c = all[s];
        assert(all.take(t) =~= prev.push(c));
        lemma_play_state_push(init, PlayerColor::Black, prev, c, bm, wm);
        let (b, cur) = play_state(init, PlayerColor::Black, prev, bm, wm)->0;
        let pos = positions[s];
        let black_turn = turns[s];
        let pass = passes[s];
        assert(transition_holds(blacks[s], whites[s], black_turn, pos, pass, blacks[s + 1], whites[s + 1], black_mask, white_mask));
        lemma_transition(b, bm, wm, blacks[s], whites[s], black_turn, pos, pass, blacks[s + 1], whites[s + 1], black_mask, white_mask);
        let m = turn_player(black_turn != pass);
        CellCoord::lemma_at(pos % 6, pos / 6);
        assert(c == CellCoord::at(pos % 6, pos / 6));
        let r = b.after_move(pos % 6, pos / 6, m)->0;
        assert(seq![c].drop_first() =~= Seq::<CellCoord>::empty());
        assert(cur == turn_player(black_turn));
        assert(c.x() == pos % 6 && c.y() == pos / 6);
        assert(play_state(r, m.other(), seq![c].drop_first(), bm, wm) == Some((r, m.other())));
        assert(play_state(b, cur, seq![c], bm, wm) == Some((r, m.other())));
        assert(players_from(r, m.other(), seq![c].drop_first(), bm, wm) =~= Seq::<PlayerColor>::empty());
        assert(seq![m] + Seq::<PlayerColor>::empty() =~= seq![m]);
        assert(players_from(b, cur, seq![c], bm, wm) =~= seq![m]);
        if t < positions.len() {
            assert(turns[s + 1] == !(turns[s] != passes[s]));
        }
        let players = players_from(init, PlayerColor::Black, all.take(t), bm, wm);
        let prev_players = players_from(init, PlayerColor::Black, prev, bm, wm);
        assert forall|i: int| 0 <= i < t implies mask_for(#[trigger] players[i], bm, wm).allows_cell(all.take(t)[i]) by {
            if i < s {
                assert(players[i] == prev_players[i]);
                assert(all.take(t)[i] == prev[i]);
            } else {
                assert(players[i] == m);
            }
        }
    }
}

/// Soundness of the encoding: any values that satisfy the constraints of
/// `generate_reversi_constraints`, built from the bitboards of the initial
/// and target boards and the cell sets of the two masks, describe a game
/// that solves the problem: the cells of the move positions, replayed from
/// the initial board, are legal moves of the players who make them, each
/// allowed by that player's mask, and they end on the target board.
pub proof fn lemma_encoding_sound(
    problem: ReachabilityProblem,
    blacks: Seq<u64>,
    whites: Seq<u64>,
    turns: Seq<bool>,
    positions: Seq<int>,
    passes: Seq<bool>,
    initial: BitBoard,
    target: BitBoard,
    black_mask: u64,
    white_mask: u64,
)
    requires
        problem.initial_board.has_bitboards(initial),
        problem.target_board.has_bitboards(target),
        problem.black_placement_mask.has_bits(black_mask),
        problem.white_placement_mask.has_bits(white_mask),
        constraints_hold(blacks, whites, turns, positions, passes, initial, target, black_mask, white_mask),
    ensures
        problem.solved_by(position_cells(positions)),
{
    let n = positions.len() as int;
    let bm = problem.black_placement_mask;
    let wm = problem.white_placement_mask;
    let cells = position_cells(positions);
    lemma_encoding_prefix(problem, blacks, whites, turns, positions, passes, initial, target, black_mask, white_mask, n);
    assert(cells.take(n) =~= cells);
    lemma_play_from_state(problem.initial_board, PlayerColor::Black, cells, bm, wm);
    let state = play_state(problem.initial_board, PlayerColor::Black, cells, bm, wm)->0;
    let reached = state.0;
    lemma_same_bitboards(reached, problem.target_board, target);
}

/// Two boards with the same bitboards are the same board.
proof fn lemma_same_bitboards(a: Board, b: Board, bb: BitBoard)
    requires
        a.has_bitboards(bb),
        b.has_bitboards(bb),
    ensures
        a == b,
{
    assert forall|y: int, x: int| in_bounds(x, y) implies #[trigger] a.cell(x, y) == b.cell(x, y) by {
        let i = y * 6 + x;
        assert(i % 6 == x && i / 6 == y);
        assert(bit(bb.white, i) <==> a.cell(i % 6, i / 6) == BoardCellState::White);
        assert(bit(bb.black, i) <==> a.cell(i % 6, i / 6) == BoardCellState::Black);
        assert(bit(bb.white, i) <==> b.cell(i % 6, i / 6) == BoardCellState::White);
        assert(bit(bb.black, i) <==> b.cell(i % 6, i / 6) == BoardCellState::Black);
    }
    Board::lemma_ext_equal(a, b);
}

/// Where `legal_move_among` holds, one of the first `n` cells is legal.
proof fn lemma_among_witness(player: u64, opponent: u64, can_place: u64, n: nat) -> (q: int)
    requires
        legal_move_among(player, opponent, can_place, n),
    ensures
        0 <= q < n,
        legal_at(player, opponent, can_place, q),
    decreases n,
{
    if legal_move_among(player, opponent, can_place, (n - 1) as nat) {
        lemma_among_witness(player, opponent, can_place, (n - 1) as nat)
    } else {
        n - 1
    }
}

/// Where `has_legal_move` holds of the disks of `p`, its opponent's and its
/// mask's cells, `p` has a legal move that its mask allows.
proof fn lemma_legal_move_found(board: Board, p: PlayerColor, mask: PlacementMask, player: u64, opponent: u64, can_place: u64)
    requires
        sides(board, p, player, opponent),
        mask.has_bits(can_place),
        has_legal_move_value(player, opponent, can_place),
    ensures
        has_allowed_move(board, p, mask),
{
    let q = lemma_among_witness(player, opponent, can_place, 36);
    let x = q % 6;
    let y = q / 6;
    assert(q == y * 6 + x);
    let empty_cells = BOARD_BITS & !(player | opponent);
    lemma_one_meets(empty_cells, q);
    lemma_bit_ops(player, player | opponent, q);
    lemma_bit_ops(player, opponent, q);
    assert(board.cell(x, y) == BoardCellState::Empty);
    lemma_flips_nonzero(board, p, player, opponent, x, y);
    lemma_one_meets(can_place, q);
    assert(mask.allows(x, y));
    board.lemma_legal_moves_complete(p, 36, x, y);
    CellCoord::lemma_at(x, y);
    let moves = board.legal_moves(p);
    let k = choose|k: int| 0 <= k < moves.len() && moves[k] == CellCoord::at(x, y);
    assert(mask.allows_cell(moves[k]));
}

/// `has_legal_move` holds of the disks of `p`, its opponent's and its
/// mask's cells exactly where `p` has a legal move that its mask allows.
pub proof fn lemma_has_legal_move_encoding(
    board: Board,
    p: PlayerColor,
    mask: PlacementMask,
    player: u64,
    opponent: u64,
    can_place: u64,
)
    requires
        sides(board, p, player, opponent),
        mask.has_bits(can_place),
    ensures
        has_legal_move_value(player, opponent, can_place) == has_allowed_move(board, p, mask),
{
    if has_legal_move_value(player, opponent, can_place) {
        lemma_legal_move_found(board, p, mask, player, opponent, can_place);
    }
    if has_allowed_move(board, p, mask) {
        lemma_allowed_move_found(board, p, mask, player, opponent, can_place);
    }
}

/// The players of the first `k` moves of a replay that succeeds are the
/// first `k` players of the whole replay.
proof fn lemma_players_prefix(
    board: Board,
    current: PlayerColor,
    cells: Seq<CellCoord>,
    k: int,
    black_mask: PlacementMask,
    white_mask: PlacementMask,
)
    requires
        0 <= k <= cells.len(),
        play_from(board, current, cells, black_mask, white_mask) is Some,
    ensures
        players_from(board, current, cells.take(k), black_mask, white_mask) == players_from(
            board,
            current,
            cells,
            black_mask,
            white_mask,
        ).take(k),
    decreases cells.len(),
{
    let all = players_from(board, current, cells, black_mask, white_mask);
    if k == 0 {
        assert(cells.take(0) =~= Seq::<CellCoord>::empty());
        assert(all.take(0) =~= Seq::<PlayerColor>::empty());
    } else {
        let p = acting_player(board, current, black_mask, white_mask);
        let next = board.after_move(cells[0].x(), cells[0].y(), p)->0;
        let rest = cells.drop_first();
        lemma_players_prefix(next, p.other(), rest, k - 1, black_mask, white_mask);
        assert(cells.take(k)[0] == cells[0]);
        assert(cells.take(k).drop_first() =~= rest.take(k - 1));
        let tail = players_from(next, p.other(), rest, black_mask, white_mask);
        lemma_players_cover_moves(next, p.other(), rest, black_mask, white_mask);
        assert((seq![p] + tail).take(k) =~= seq![p] + tail.take(k - 1));
    }
}

/// Whether the values are those of replaying `cells` from the problem's
/// initial board, Black first: the bitboards of the board after each prefix
/// of the moves, and for each move whether Black was to move, the move's
/// position `y * 6 + x`, and whether the player to move passed to its
/// opponent.
pub open spec fn is_replay(
    problem: ReachabilityProblem,
    cells: Seq<CellCoord>,
    blacks: Seq<u64>,
    whites: Seq<u64>,
    turns: Seq<bool>,
    positions: Seq<int>,
    passes: Seq<bool>,
) -> bool {
    let n = cells.len() as int;
    let init = problem.initial_board;
    let bm = problem.black_placement_mask;
    let wm = problem.white_placement_mask;
    &&& blacks.len() == n + 1
    &&& whites.len() == n + 1
    &&& turns.len() == n
    &&& positions.len() == n
    &&& passes.len() == n
    &&& forall|t: int|
        0 <= t <= n ==> (#[trigger] play_state(init, PlayerColor::Black, cells.take(t), bm, wm) matches Some(state)
            && state.0.has_bitboards(BitBoard { white: whites[t], black: blacks[t] }))
    &&& forall|t: int|
        0 <= t < n ==> {
            let state = play_state(init, PlayerColor::Black, cells.take(t), bm, wm)->0;
            &&& #[trigger] turns[t] == (state.1 == PlayerColor::Black)
            &&& passes[t] == (acting_player(state.0, state.1, bm, wm) != state.1)
            &&& positions[t] == cells[t].y() * 6 + cells[t].x()
        }
}

/// The two words of a board's bitboards share no bit.
proof fn lemma_bitboards_disjoint(board: Board, bb: BitBoard)
    requires
        board.has_bitboards(bb),
    ensures
        bb.black & bb.white == 0u64,
{
    assert forall|i: int| 0 <= i < 64 implies #[trigger] bit(bb.black & bb.white, i) == bit(0u64, i) by {
        lemma_bit_ops(bb.black, bb.white, i);
        lemma_bit_bounds(bb.black, i);
        if i < 36 {
            assert(bit(bb.black, i) <==> board.cell(i % 6, i / 6) == BoardCellState::Black);
            assert(bit(bb.white, i) <==> board.cell(i % 6, i / 6) == BoardCellState::White);
        }
    }
    lemma_same_word(bb.black & bb.white, 0u64);
}

/// A board has one pair of bitboards.
pub proof fn lemma_bitboards_unique(board: Board, a: BitBoard, b: BitBoard)
    requires
        board.has_bitboards(a),
        board.has_bitboards(b),
    ensures
        a == b,
{
    assert forall|i: int| 0 <= i < 36 implies #[trigger] bit(a.black, i) == bit(b.black, i) by {
        assert(bit(a.black, i) <==> board.cell(i % 6, i / 6) == BoardCellState::Black);
        assert(bit(b.black, i) <==> board.cell(i % 6, i / 6) == BoardCellState::Black);
    }
    assert forall|i: int| 0 <= i < 36 implies #[trigger] bit(a.white, i) == bit(b.white, i) by {
        assert(bit(a.white, i) <==> board.cell(i % 6, i / 6) == BoardCellState::White);
        assert(bit(b.white, i) <==> board.cell(i % 6, i / 6) == BoardCellState::White);
    }
    lemma_same_board_word(a.black, b.black);
    lemma_same_board_word(a.white, b.white);
}

/// Move `t` of a replay of a solving game meets the constraints of its
/// transition, and the player to move next is the opponent of the player
/// who moved.
proof fn lemma_replay_step(
    problem: ReachabilityProblem,
    cells: Seq<CellCoord>,
    blacks: Seq<u64>,
    whites: Seq<u64>,
    turns: Seq<bool>,
    positions: Seq<int>,
    passes: Seq<bool>,
    black_mask: u64,
    white_mask: u64,
    t: int,
)
    requires
        problem.black_placement_mask.has_bits(black_mask),
        problem.white_placement_mask.has_bits(white_mask),
        problem.solved_by(cells),
        is_replay(problem, cells, blacks, whites, turns, positions, passes),
        0 <= t < cells.len(),
    ensures
        transition_holds(blacks[t], whites[t], turns[t], positions[t], passes[t], blacks[t + 1], whites[t + 1], black_mask, white_mask),
        (play_state(problem.initial_board, PlayerColor::Black, cells.take(t + 1), problem.black_placement_mask, problem.white_placement_mask)->0).1
            == turn_player(turns[t] != passes[t]).other(),
{
    let init = problem.initial_board;
    let bm = problem.black_placement_mask;
    let wm = problem.white_placement_mask;
    let prev = cells.take(t);
    let c = cells[t];
    assert(play_state(init, PlayerColor::Black, prev, bm, wm) matches Some(state) && state.0.has_bitboards(
        BitBoard { white: whites[t], black: blacks[t] },
    ));
    assert(play_state(init, PlayerColor::Black, cells.take(t + 1), bm, wm) matches Some(state) && state.0.has_bitboards(
        BitBoard { white: whites[t + 1], black: blacks[t + 1] },
    ));
    assert(turns[t] == ((play_state(init, PlayerColor::Black, prev, bm, wm)->0).1 == PlayerColor::Black));
    assert(cells.take(t + 1) =~= prev.push(c));
    lemma_play_state_push(init, PlayerColor::Black, prev, c, bm, wm);
    let (b, cur) = play_state(init, PlayerColor::Black, prev, bm, wm)->0;
    let m = acting_player(b, cur, bm, wm);
    let x = c.x();
    let y = c.y();
    assert(seq![c][0] == c);
    assert(b.after_move(x, y, m) is Some);
    assert(b.is_legal_move(x, y, m));
    b.lemma_after_move_exists(x, y, m);
    let r = b.after_move(x, y, m)->0;
    assert(seq![c].drop_first() =~= Seq::<CellCoord>::empty());
    assert(play_state(r, m.other(), seq![c].drop_first(), bm, wm) == Some((r, m.other())));
    assert(b.after_move(seq![c][0].x(), seq![c][0].y(), m) == Some(r));
    assert(play_state(b, cur, seq![c], bm, wm) == Some((r, m.other())));
    let pos = y * 6 + x;
    assert(positions[t] == pos);
    assert(pos % 6 == x && pos / 6 == y);
    let black_plays = turns[t] != passes[t];
    assert(turn_player(black_plays) == m);
    let placement = if black_plays { black_mask } else { white_mask };
    let player = if black_plays { blacks[t] } else { whites[t] };
    let opponent = if black_plays { whites[t] } else { blacks[t] };
    assert(sides(b, m, player, opponent));
    let mm = one(pos);
    assert(move_mask(pos) == mm);
    let flips = all_flips(mm, player, opponent);
    // the cell is empty
    lemma_bit_ops(blacks[t], whites[t], pos);
    lemma_one_meets(blacks[t] | whites[t], pos);
    // something is flipped
    lemma_flips_nonzero(b, m, player, opponent, x, y);
    // the mask of the mover allows the cell
    let players = players_from(init, PlayerColor::Black, cells, bm, wm);
    lemma_players_prefix(init, PlayerColor::Black, cells, t + 1, bm, wm);
    lemma_players_cover_moves(init, PlayerColor::Black, cells, bm, wm);
    assert(players_from(b, cur, seq![c], bm, wm) =~= seq![m]) by {
        assert(players_from(r, m.other(), seq![c].drop_first(), bm, wm) =~= Seq::<PlayerColor>::empty());
        assert(seq![m] + Seq::<PlayerColor>::empty() =~= seq![m]);
    }
    assert(players.take(t + 1)[t] == m);
    assert(mask_for(players[t], bm, wm).allows_cell(cells[t]));
    assert(bit(placement, pos));
    assert forall|i: int| 0 <= i < 64 implies #[trigger] bit(placement & mm, i) == bit(mm, i) by {
        lemma_bit_ops(placement, mm, i);
        lemma_bit_one(pos, i);
    }
    lemma_same_word(placement & mm, mm);
    // a pass only where the player to move has no allowed move
    if passes[t] {
        let current_player = if turns[t] { blacks[t] } else { whites[t] };
        let current_opponent = if turns[t] { whites[t] } else { blacks[t] };
        let current_can_place = if turns[t] { black_mask } else { white_mask };
        assert(sides(b, cur, current_player, current_opponent));
        lemma_has_legal_move_encoding(b, cur, mask_for(cur, bm, wm), current_player, current_opponent, current_can_place);
    }
    // the next bitboards are those the move makes
    lemma_move_bits(b, m, player, opponent, x, y, r);
    let next_player = if black_plays { blacks[t + 1] } else { whites[t + 1] };
    let next_opponent = if black_plays { whites[t + 1] } else { blacks[t + 1] };
    assert(sides(r, m, next_player, next_opponent));
    let new_player = (player | mm) | flips;
    let new_opponent = opponent & (BOARD_BITS & !flips);
    assert forall|i: int| 0 <= i < 36 implies #[trigger] bit(new_player, i) == bit(next_player, i) by {
        assert(bit(new_player, i) <==> r.cell(i % 6, i / 6) == m.disk());
        assert(bit(next_player, i) <==> r.cell(i % 6, i / 6) == m.disk());
    }
    assert forall|i: int| 0 <= i < 36 implies #[trigger] bit(new_opponent, i) == bit(next_opponent, i) by {
        assert(bit(new_opponent, i) <==> r.cell(i % 6, i / 6) == m.other().disk());
        assert(bit(next_opponent, i) <==> r.cell(i % 6, i / 6) == m.other().disk());
    }
    lemma_same_board_word(new_player, next_player);
    lemma_same_board_word(new_opponent, next_opponent);
}

/// Completeness of the encoding: replaying a game that solves the problem
/// gives values that satisfy the constraints of
/// `generate_reversi_constraints`, built from the bitboards of the initial
/// and target boards and the cell sets of the two masks; and the game has as
/// many moves as the target has disks more than the initial board.
pub proof fn lemma_encoding_complete(
    problem: ReachabilityProblem,
    cells: Seq<CellCoord>,
    blacks: Seq<u64>,
    whites: Seq<u64>,
    turns: Seq<bool>,
    positions: Seq<int>,
    passes: Seq<bool>,
    initial: BitBoard,
    target: BitBoard,
    black_mask: u64,
    white_mask: u64,
)
    requires
        problem.initial_board.has_bitboards(initial),
        problem.target_board.has_bitboards(target),
        problem.black_placement_mask.has_bits(black_mask),
        problem.white_placement_mask.has_bits(white_mask),
        problem.solved_by(cells),
        is_replay(problem, cells, blacks, whites, turns, positions, passes),
    ensures
        constraints_hold(blacks, whites, turns, positions, passes, initial, target, black_mask, white_mask),
        positions.len() == problem.target_board.filled_count() - problem.initial_board.filled_count(),
{
    let n = cells.len() as int;
    let init = problem.initial_board;
    let bm = problem.black_placement_mask;
    let wm = problem.white_placement_mask;
    assert forall|t: int| 0 <= t <= n implies #[trigger] blacks[t] & whites[t] == 0u64 by {
        assert(play_state(init, PlayerColor::Black, cells.take(t), bm, wm) matches Some(state) && state.0.has_bitboards(
            BitBoard { white: whites[t], black: blacks[t] },
        ));
        let state = play_state(init, PlayerColor::Black, cells.take(t), bm, wm)->0;
        lemma_bitboards_disjoint(state.0, BitBoard { white: whites[t], black: blacks[t] });
    }
    // the first step
    assert(cells.take(0) =~= Seq::<CellCoord>::empty());
    assert(play_state(init, PlayerColor::Black, cells.take(0), bm, wm) == Some((init, PlayerColor::Black)));
    lemma_bitboards_unique(init, initial, BitBoard { white: whites[0], black: blacks[0] });
    if n > 0 {
        assert(turns[0] == ((play_state(init, PlayerColor::Black, cells.take(0), bm, wm)->0).1 == PlayerColor::Black));
    }
    // the last step
    assert(cells.take(n) =~= cells);
    assert(play_state(init, PlayerColor::Black, cells.take(n), bm, wm) matches Some(state) && state.0.has_bitboards(
        BitBoard { white: whites[n], black: blacks[n] },
    ));
    lemma_play_from_state(init, PlayerColor::Black, cells, bm, wm);
    lemma_bitboards_unique(problem.target_board, target, BitBoard { white: whites[n], black: blacks[n] });
    lemma_play_adds_disks(init, PlayerColor::Black, cells, bm, wm);
    // the moves
    assert forall|t: int| 0 <= t < n implies #[trigger] transition_holds(
        blacks[t],
        whites[t],
        turns[t],
        positions[t],
        passes[t],
        blacks[t + 1],
        whites[t + 1],
        black_mask,
        white_mask,
    ) by {
        lemma_replay_step(problem, cells, blacks, whites, turns, positions, passes, black_mask, white_mask, t);
    }
    assert forall|t: int| 0 <= t < n - 1 implies #[trigger] turns[t + 1] == !(turns[t] != passes[t]) by {
        lemma_replay_step(problem, cells, blacks, whites, turns, positions, passes, black_mask, white_mask, t);
        assert(turns[t + 1] == ((play_state(init, PlayerColor::Black, cells.take(t + 1), bm, wm)->0).1 == PlayerColor::Black));
    }
}

/// The set of the cells `i < n` of which `f` holds.
pub open spec fn cells_word(f: spec_fn(int) -> bool, n: nat) -> u64
    decreases n,
{
    if n == 0 {
        0u64
    } else {
        cells_word(f, (n - 1) as nat) | (if f(n - 1) {
            one(n - 1)
        } else {
            0u64
        })
    }
}

/// `cells_word` has exactly the cells of which `f` holds, within the board.
pub proof fn lemma_cells_word(f: spec_fn(int) -> bool, n: nat)
    requires
        n <= 36,
    ensures
        within_board_bits(cells_word(f, n)),
        forall|i: int| 0 <= i < 64 ==> #[trigger] bit(cells_word(f, n), i) == (i < n && f(i)),
    decreases n,
{
    if n > 0 {
        lemma_cells_word(f, (n - 1) as nat);
        let prev = cells_word(f, (n - 1) as nat);
        let add = if f(n - 1) { one(n - 1) } else { 0u64 };
        lemma_one_within(n - 1);
        lemma_within_board(prev, add, 0, 0);
        assert forall|i: int| 0 <= i < 64 implies #[trigger] bit(cells_word(f, n), i) == (i < n && f(i)) by {
            lemma_bit_ops(prev, add, i);
            lemma_bit_one(n - 1, i);
        }
    } else {
        assert forall|i: int| 0 <= i < 64 implies #[trigger] bit(cells_word(f, n), i) == (i < n && f(i)) by {
            lemma_bit_ops(0u64, 0u64, i);
        }
    }
}

/// Every board has bitboards.
pub proof fn lemma_board_has_bitboards(board: Board)
    ensures
        exists|bb: BitBoard| board.has_bitboards(bb),
{
    let fw = |i: int| board.cell(i % 6, i / 6) == BoardCellState::White;
    let fb = |i: int| board.cell(i % 6, i / 6) == BoardCellState::Black;
    lemma_cells_word(fw, 36);
    lemma_cells_word(fb, 36);
    let bb = BitBoard { white: cells_word(fw, 36), black: cells_word(fb, 36) };
    assert(board.has_bitboards(bb));
}

/// Every mask has a cell set within the board.
pub proof fn lemma_mask_has_bits(mask: PlacementMask)
    ensures
        exists|v: u64| within_board_bits(v) && mask.has_bits(v),
{
    let f = |i: int| mask.allows(i % 6, i / 6);
    lemma_cells_word(f, 36);
    assert(within_board_bits(cells_word(f, 36)) && mask.has_bits(cells_word(f, 36)));
}

/// Decoding two disjoint words within the board gives a board whose
/// bitboards are those words: `to_bitboards` after `from_bitboards` gives
/// the words back.
pub proof fn lemma_decoded_bitboards(board: Board, black: u64, white: u64)
    requires
        board.decodes(black, white),
        black & white == 0u64,
        within_board_bits(black),
        within_board_bits(white),
    ensures
        board.has_bitboards(BitBoard { white, black }),
{
    assert forall|i: int| 0 <= i < 36 implies (bit(white, i) <==> board.cell(i % 6, i / 6) == BoardCellState::White) && (bit(black, i)
        <==> board.cell(i % 6, i / 6) == BoardCellState::Black) by {
        lemma_bit_ops(black, white, i);
        lemma_bit_ops(0u64, 0u64, i);
        assert(board.cell(i % 6, i / 6) == crate::board::cell_from_bits(black, white, i));
    }
}

} // verus!
